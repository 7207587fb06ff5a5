use vstd::prelude::*;
use crate::hitable::HitRecord;
use crate::ray::Ray;

verus! {

/// How a surface answers light. `scatter` takes the incoming ray and the
/// record of where it hit, and gives back the attenuation of the light and
/// the outgoing ray, or `None` when the surface absorbs the light.
pub trait Material<S, P, C>: Sized {
    fn scatter(&self, ray: &Ray<P>, record: HitRecord<S, P, Self>) -> Option<(C, Ray<P>)>;
}

} // verus!
