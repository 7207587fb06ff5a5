use vstd::prelude::*;

verus! {

/// Folds a value that is either a success or a failure into one result:
/// `map` is applied to a success, `fallback` to a failure.
pub trait OrElse<T, E>: Sized {
    /// The success or failure that `self` stands for.
    spec fn outcome(self) -> Result<T, E>;

    fn map_or_else<U, M: FnOnce(T) -> U, F: FnOnce(E) -> U>(self, fallback: F, map: M) -> (u: U)
        requires
            self.outcome() matches Ok(t) ==> map.requires((t,)),
            self.outcome() matches Err(e) ==> fallback.requires((e,)),
        ensures
            match self.outcome() {
                Ok(t) => map.ensures((t,), u),
                Err(e) => fallback.ensures((e,), u),
            },
    ;
}

impl<T, E> OrElse<T, E> for Result<T, E> {
    open spec fn outcome(self) -> Result<T, E> {
        self
    }

    fn map_or_else<U, M: FnOnce(T) -> U, F: FnOnce(E) -> U>(self, fallback: F, map: M) -> (u: U) {
        match self {
            Ok(t) => map(t),
            Err(e) => fallback(e),
        }
    }
}

} // verus!
