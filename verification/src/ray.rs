use vstd::prelude::*;

verus! {

/// A ray: the points that are reached from the origin `a` along the
/// direction `b`.
pub struct Ray<P> {
    pub a: P,
    pub b: P,
}

impl<P> Ray<P> {
    pub fn new(a: P, b: P) -> (r: Ray<P>)
        ensures
            r.a == a,
            r.b == b,
    {
        Ray { a, b }
    }

    /// Where the ray starts.
    pub fn origin(&self) -> (o: &P)
        ensures
            *o == self.a,
    {
        &self.a
    }

    /// The direction in which the ray leaves its origin.
    pub fn direction(&self) -> (d: &P)
        ensures
            *d == self.b,
    {
        &self.b
    }
}

} // verus!
