use vstd::prelude::*;

verus! {

/// `rejected` are draws that `accept` turned down, one after the other.
pub open spec fn all_rejected<T, D: Fn() -> T, A: Fn(&T) -> bool>(
    draw: D,
    accept: A,
    rejected: Seq<T>,
) -> bool {
    forall|i: int|
        0 <= i < rejected.len() ==> draw.ensures((), #[trigger] rejected[i]) && accept.ensures(
            (&rejected[i],),
            false,
        )
}

/// Rejection sampling: draws until `accept` takes a draw, and returns that
/// draw. Gives up with `None` after `attempts` draws that were all turned
/// down.
pub fn first_accepted<T, D: Fn() -> T, A: Fn(&T) -> bool>(draw: D, accept: A, attempts: u64) -> (found:
    Option<T>)
    requires
        draw.requires(()),
        forall|candidate: T| draw.ensures((), candidate) ==> accept.requires((&candidate,)),
    ensures
        exists|rejected: Seq<T>|
            {
                &&& #[trigger] all_rejected(draw, accept, rejected)
                &&& match found {
                    Some(point) => {
                        &&& rejected.len() < attempts
                        &&& draw.ensures((), point)
                        &&& accept.ensures((&point,), true)
                    },
                    None => rejected.len() == attempts,
                }
            },
{
    let mut left: u64 = attempts;
    let ghost mut rejected: Seq<T> = Seq::empty();
    while left > 0
        invariant
            draw.requires(()),
            forall|candidate: T| draw.ensures((), candidate) ==> accept.requires((&candidate,)),
            rejected.len() + left == attempts,
            all_rejected(draw, accept, rejected),
        decreases left,
    {
        let candidate = draw();
        if accept(&candidate) {
            return Some(candidate);
        }
        proof {
            rejected = rejected.push(candidate);
        }
        left = left - 1;
    }
    None
}

} // verus!
