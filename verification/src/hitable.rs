use vstd::prelude::*;
use crate::ray::Ray;

verus! {

/// What a successful intersection test reports: the ray parameter `t` of the
/// intersection, the point `p` met, the surface normal there and the
/// material of the surface.
pub struct HitRecord<S, P, M> {
    pub t: S,
    pub p: P,
    pub normal: P,
    pub material: M,
}

impl<S, P, M> HitRecord<S, P, M> {
    pub fn new(t: S, p: P, normal: P, material: M) -> (r: Self)
        ensures
            r == (HitRecord { t, p, normal, material }),
    {
        HitRecord { t, p, normal, material }
    }
}

impl<S: Copy, P: Copy, M: Copy> HitRecord<S, P, M> {
    /// Overwrites every field of `self` with the matching field of `other`.
    pub fn clone_into(&mut self, other: &HitRecord<S, P, M>)
        ensures
            *final(self) == *other,
    {
        self.t = other.t;
        self.p = other.p;
        self.normal = other.normal;
        self.material = other.material;
    }

    pub fn clone(&self) -> (r: Self)
        ensures
            r == *self,
    {
        HitRecord { t: self.t, p: self.p, normal: self.normal, material: self.material }
    }
}

/// The outcome of one intersection test: the record of the hit, or a miss.
pub type Probe<S, P, M> = Result<HitRecord<S, P, M>, ()>;

/// Anything a ray can be tested against. `hit` reports the intersection of
/// `ray` with `self` whose parameter lies strictly between `t_min` and
/// `t_max`, or a miss.
pub trait Hitable<S, P, M> {
    fn hit(&self, ray: &Ray<P>, t_min: S, t_max: S) -> Probe<S, P, M>;
}

/// The upper bound in force after the given outcomes: the parameter of the
/// latest hit among them, or `t_max` when all of them missed.
pub open spec fn closest_so_far<S, P, M>(outcomes: Seq<Probe<S, P, M>>, t_max: S) -> S
    decreases outcomes.len(),
{
    if outcomes.len() == 0 {
        t_max
    } else {
        match outcomes.last() {
            Ok(record) => record.t,
            Err(_) => closest_so_far(outcomes.drop_last(), t_max),
        }
    }
}

/// The latest hit among the given outcomes, or a miss when all of them missed.
pub open spec fn latest_hit<S, P, M>(outcomes: Seq<Probe<S, P, M>>) -> Probe<S, P, M>
    decreases outcomes.len(),
{
    if outcomes.len() == 0 {
        Err(())
    } else {
        match outcomes.last() {
            Ok(record) => Ok(record),
            Err(_) => latest_hit(outcomes.drop_last()),
        }
    }
}

/// `outcomes` is what the items of `list` may answer, one after the other,
/// when each is tested against `ray` between `t_min` and the bound left by
/// the items before it.
pub open spec fn probed_in_turn<S, P, M, H: Hitable<S, P, M>>(
    list: Seq<H>,
    ray: Ray<P>,
    t_min: S,
    t_max: S,
    outcomes: Seq<Probe<S, P, M>>,
) -> bool {
    &&& outcomes.len() == list.len()
    &&& forall|i: int|
        0 <= i < list.len() ==> call_ensures(
            H::hit,
            (&list[i], &ray, t_min, closest_so_far(outcomes.take(i), t_max)),
            #[trigger] outcomes[i],
        )
}

/// An ordered collection of things to hit, tested as one.
pub struct HitableList<H> {
    pub list: Vec<H>,
}

impl<H> HitableList<H> {
    pub fn new(list: Vec<H>) -> (r: Self)
        ensures
            r.list == list,
    {
        HitableList { list }
    }
}

impl<S: Copy, P, M, H: Hitable<S, P, M>> Hitable<S, P, M> for HitableList<H> {
    /// Tests every item in order, each against the bound tightened by the hits
    /// before it, and reports the last hit found.
    fn hit(&self, ray: &Ray<P>, t_min: S, t_max: S) -> (r: Probe<S, P, M>)
        ensures
            exists|outcomes: Seq<Probe<S, P, M>>|
                probed_in_turn(self.list@, *ray, t_min, t_max, outcomes) && r == latest_hit(
                    outcomes,
                ),
    {
        let mut closest: S = t_max;
        let mut previous: Probe<S, P, M> = Err(());
        let ghost mut outcomes: Seq<Probe<S, P, M>> = Seq::empty();
        let n = self.list.len();
        let mut i: usize = 0;
        while i < n
            invariant
                n == self.list.len(),
                i <= n,
                outcomes.len() == i,
                closest == closest_so_far(outcomes, t_max),
                previous == latest_hit(outcomes),
                forall|j: int|
                    0 <= j < i ==> call_ensures(
                        H::hit,
                        (&self.list@[j], ray, t_min, closest_so_far(outcomes.take(j), t_max)),
                        #[trigger] outcomes[j],
                    ),
            decreases n - i,
        {
            let outcome = self.list[i].hit(ray, t_min, closest);
            proof {
                let extended = outcomes.push(outcome);
                assert(extended.drop_last() == outcomes);
                assert(extended.take(i as int) == outcomes);
                assert forall|j: int| 0 <= j < i implies extended.take(j) == outcomes.take(j) by {}
                outcomes = extended;
            }
            match outcome {
                Ok(record) => {
                    closest = record.t;
                    previous = Ok(record);
                },
                Err(_) => {},
            }
            i += 1;
        }
        previous
    }
}

/// `lt` never holds of a value and itself, and carries over a middle value.
pub open spec fn strict_order<S>(lt: spec_fn(S, S) -> bool) -> bool {
    &&& forall|a: S| !#[trigger] lt(a, a)
    &&& forall|a: S, b: S, c: S| #[trigger] lt(a, b) && #[trigger] lt(b, c) ==> lt(a, c)
}

/// A strict order carries over a middle value.
proof fn lemma_order_carries<S>(lt: spec_fn(S, S) -> bool, a: S, b: S, c: S)
    requires
        strict_order(lt),
        lt(a, b),
        lt(b, c),
    ensures
        lt(a, c),
{
}

/// A strict order never holds of a value and itself.
proof fn lemma_order_excludes_self<S>(lt: spec_fn(S, S) -> bool, a: S)
    requires
        strict_order(lt),
    ensures
        !lt(a, a),
{
}

/// `t` lies strictly between `t_min` and `t_max` in the order `lt`.
pub open spec fn between<S>(lt: spec_fn(S, S) -> bool, t_min: S, t: S, t_max: S) -> bool {
    lt(t_min, t) && lt(t, t_max)
}

/// `item` meets `ray` at parameter `at` (or nowhere, when `at` is `None`):
/// whatever upper bound it is tested against, it reports a hit exactly when
/// `at` lies strictly between `t_min` and that bound, and the record then
/// carries `at`.
pub open spec fn meets_at<S, P, M, H: Hitable<S, P, M>>(
    item: H,
    ray: Ray<P>,
    t_min: S,
    lt: spec_fn(S, S) -> bool,
    at: Option<S>,
) -> bool {
    forall|t_max: S, outcome: Probe<S, P, M>| #[trigger]
        call_ensures(H::hit, (&item, &ray, t_min, t_max), outcome) ==> match outcome {
            Ok(record) => at == Some(record.t) && between(lt, t_min, record.t, t_max),
            Err(_) => !(at matches Some(t) && between(lt, t_min, t, t_max)),
        }
}

/// `found` is the closest answer of the first `n` items, where item `i`
/// meets the ray at `at[i]`: a hit is the answer of one of these items, lies
/// in range, no other of them meets the ray in range any nearer, and none
/// before it meets the ray at the same parameter. A miss says that none of
/// them meets the ray in range.
pub open spec fn is_closest<S, P, M>(
    found: Probe<S, P, M>,
    outcomes: Seq<Probe<S, P, M>>,
    t_min: S,
    t_max: S,
    lt: spec_fn(S, S) -> bool,
    at: Seq<Option<S>>,
    n: int,
) -> bool {
    match found {
        Ok(record) => {
            &&& between(lt, t_min, record.t, t_max)
            &&& exists|k: int|
                {
                    &&& 0 <= k < n
                    &&& at[k] == Some(record.t)
                    &&& #[trigger] outcomes[k] == Ok::<HitRecord<S, P, M>, ()>(record)
                    &&& forall|j: int| 0 <= j < k ==> #[trigger] at[j] != Some(record.t)
                }
            &&& forall|j: int|
                0 <= j < n ==> (#[trigger] at[j] matches Some(t) ==> between(lt, t_min, t, t_max)
                    ==> !lt(t, record.t))
        },
        Err(_) => forall|j: int|
            0 <= j < n ==> !(#[trigger] at[j] matches Some(t) && between(lt, t_min, t, t_max)),
    }
}

/// The latest hit among the first `n` outcomes is the closest answer of the
/// first `n` items, and its parameter is the bound then in force.
proof fn lemma_closest_among<S, P, M, H: Hitable<S, P, M>>(
    list: Seq<H>,
    ray: Ray<P>,
    t_min: S,
    t_max: S,
    outcomes: Seq<Probe<S, P, M>>,
    lt: spec_fn(S, S) -> bool,
    at: Seq<Option<S>>,
    n: int,
)
    requires
        probed_in_turn(list, ray, t_min, t_max, outcomes),
        strict_order(lt),
        at.len() == list.len(),
        forall|i: int| 0 <= i < list.len() ==> meets_at(#[trigger] list[i], ray, t_min, lt, at[i]),
        0 <= n <= list.len(),
    ensures
        is_closest(latest_hit(outcomes.take(n)), outcomes, t_min, t_max, lt, at, n),
        match latest_hit(outcomes.take(n)) {
            Ok(record) => closest_so_far(outcomes.take(n), t_max) == record.t,
            Err(_) => closest_so_far(outcomes.take(n), t_max) == t_max,
        },
    decreases n,
{
    if n > 0 {
        let m = n - 1;
        lemma_closest_among(list, ray, t_min, t_max, outcomes, lt, at, m);
        let before = outcomes.take(m);
        let now = outcomes.take(n);
        assert(now.drop_last() == before);
        assert(now.last() == outcomes[m]);
        let bound = closest_so_far(before, t_max);
        let earlier = latest_hit(before);
        assert(meets_at(list[m], ray, t_min, lt, at[m]));
        assert(call_ensures(H::hit, (&list[m], &ray, t_min, bound), outcomes[m]));
        match outcomes[m] {
            Ok(record) => {
                lemma_hit_displaces(earlier, outcomes, t_min, t_max, lt, at, m, bound, record);
            },
            Err(_) => {
                lemma_miss_keeps(earlier, outcomes, t_min, t_max, lt, at, m, bound);
            },
        }
    } else {
        assert(outcomes.take(0).len() == 0);
    }
}

/// A hit by item `m`, nearer than the bound that the items before it left,
/// is the closest answer of the first `m + 1` items.
proof fn lemma_hit_displaces<S, P, M>(
    earlier: Probe<S, P, M>,
    outcomes: Seq<Probe<S, P, M>>,
    t_min: S,
    t_max: S,
    lt: spec_fn(S, S) -> bool,
    at: Seq<Option<S>>,
    m: int,
    bound: S,
    record: HitRecord<S, P, M>,
)
    requires
        strict_order(lt),
        0 <= m < outcomes.len(),
        outcomes.len() == at.len(),
        is_closest(earlier, outcomes, t_min, t_max, lt, at, m),
        match earlier {
            Ok(nearest) => bound == nearest.t,
            Err(_) => bound == t_max,
        },
        outcomes[m] == Ok::<HitRecord<S, P, M>, ()>(record),
        at[m] == Some(record.t),
        between(lt, t_min, record.t, bound),
    ensures
        is_closest(Ok::<HitRecord<S, P, M>, ()>(record), outcomes, t_min, t_max, lt, at, m + 1),
{
    match earlier {
        Ok(nearest) => {
            lemma_order_carries(lt, record.t, bound, t_max);
        },
        Err(_) => {},
    }
    assert(between(lt, t_min, record.t, t_max));
    assert forall|j: int| 0 <= j < m + 1 implies (#[trigger] at[j] matches Some(t) ==> between(
        lt,
        t_min,
        t,
        t_max,
    ) ==> !lt(t, record.t)) by {
        match at[j] {
            Some(t) => {
                if between(lt, t_min, t, t_max) && lt(t, record.t) {
                    if j < m {
                        lemma_order_carries(lt, t, record.t, bound);
                        assert(earlier is Ok);
                    } else {
                        lemma_order_excludes_self(lt, record.t);
                    }
                }
            },
            None => {},
        }
    }
    assert forall|j: int| 0 <= j < m implies #[trigger] at[j] != Some(record.t) by {
        if at[j] == Some(record.t) {
            assert(between(lt, t_min, record.t, t_max));
            assert(earlier is Ok);
        }
    }
    assert(outcomes[m] == Ok::<HitRecord<S, P, M>, ()>(record));
}

/// A miss by item `m`, which meets the ray nowhere between `t_min` and the
/// bound that the items before it left, leaves the closest answer as it was.
proof fn lemma_miss_keeps<S, P, M>(
    earlier: Probe<S, P, M>,
    outcomes: Seq<Probe<S, P, M>>,
    t_min: S,
    t_max: S,
    lt: spec_fn(S, S) -> bool,
    at: Seq<Option<S>>,
    m: int,
    bound: S,
)
    requires
        strict_order(lt),
        0 <= m < outcomes.len(),
        outcomes.len() == at.len(),
        is_closest(earlier, outcomes, t_min, t_max, lt, at, m),
        match earlier {
            Ok(nearest) => bound == nearest.t,
            Err(_) => bound == t_max,
        },
        !(at[m] matches Some(t) && between(lt, t_min, t, bound)),
    ensures
        is_closest(earlier, outcomes, t_min, t_max, lt, at, m + 1),
{
    match earlier {
        Ok(nearest) => {
            let k = choose|k: int|
                {
                    &&& 0 <= k < m
                    &&& at[k] == Some(nearest.t)
                    &&& #[trigger] outcomes[k] == Ok::<HitRecord<S, P, M>, ()>(nearest)
                    &&& forall|j: int| 0 <= j < k ==> #[trigger] at[j] != Some(nearest.t)
                };
            assert(0 <= k < m + 1 && outcomes[k] == Ok::<HitRecord<S, P, M>, ()>(nearest));
        },
        Err(_) => {},
    }
}

/// The hit that a list reports is the closest one: it is the answer of one
/// of the items, its parameter lies strictly between `t_min` and `t_max`,
/// and no item meets the ray in that range at a smaller parameter, wherever
/// in the list the items stand; of several items that meet the ray at that
/// parameter the first in the list answers. A list reports a miss only when
/// no item meets the ray in that range. Here each item `list[i]` meets the
/// ray at `at[i]`, and `lt` is the strict order by which the items compare
/// parameters.
pub proof fn lemma_hit_is_closest<S, P, M, H: Hitable<S, P, M>>(
    list: Seq<H>,
    ray: Ray<P>,
    t_min: S,
    t_max: S,
    outcomes: Seq<Probe<S, P, M>>,
    lt: spec_fn(S, S) -> bool,
    at: Seq<Option<S>>,
)
    requires
        probed_in_turn(list, ray, t_min, t_max, outcomes),
        strict_order(lt),
        at.len() == list.len(),
        forall|i: int| 0 <= i < list.len() ==> meets_at(#[trigger] list[i], ray, t_min, lt, at[i]),
    ensures
        is_closest(latest_hit(outcomes), outcomes, t_min, t_max, lt, at, list.len() as int),
{
    lemma_closest_among(list, ray, t_min, t_max, outcomes, lt, at, list.len() as int);
    assert(outcomes.take(list.len() as int) == outcomes);
}

/// Whatever bound `item` is tested against, it has one answer only.
pub open spec fn answers_once<S, P, M, H: Hitable<S, P, M>>(item: H, ray: Ray<P>, t_min: S) -> bool {
    forall|t_max: S, first: Probe<S, P, M>, second: Probe<S, P, M>|
        #[trigger] call_ensures(H::hit, (&item, &ray, t_min, t_max), first) && #[trigger] call_ensures(
            H::hit,
            (&item, &ray, t_min, t_max),
            second,
        ) ==> first == second
}

/// Items that each have one answer only give the same first `n` outcomes.
proof fn lemma_same_outcomes<S, P, M, H: Hitable<S, P, M>>(
    list: Seq<H>,
    ray: Ray<P>,
    t_min: S,
    t_max: S,
    one: Seq<Probe<S, P, M>>,
    other: Seq<Probe<S, P, M>>,
    n: int,
)
    requires
        probed_in_turn(list, ray, t_min, t_max, one),
        probed_in_turn(list, ray, t_min, t_max, other),
        forall|i: int| 0 <= i < list.len() ==> answers_once(#[trigger] list[i], ray, t_min),
        0 <= n <= list.len(),
    ensures
        one.take(n) == other.take(n),
    decreases n,
{
    if n > 0 {
        let m = n - 1;
        lemma_same_outcomes(list, ray, t_min, t_max, one, other, m);
        let bound = closest_so_far(one.take(m), t_max);
        assert(answers_once(list[m], ray, t_min));
        assert(call_ensures(H::hit, (&list[m], &ray, t_min, bound), one[m]));
        assert(call_ensures(H::hit, (&list[m], &ray, t_min, bound), other[m]));
        assert(one.take(n) == one.take(m).push(one[m]));
        assert(other.take(n) == other.take(m).push(other[m]));
    } else {
        assert(one.take(0) == other.take(0));
    }
}

/// A list of items that each have one answer only has one answer only: the
/// same ray and the same bounds lead to the same outcomes, and so to the same
/// hit or miss.
pub proof fn lemma_list_answers_once<S, P, M, H: Hitable<S, P, M>>(
    list: Seq<H>,
    ray: Ray<P>,
    t_min: S,
    t_max: S,
    one: Seq<Probe<S, P, M>>,
    other: Seq<Probe<S, P, M>>,
)
    requires
        probed_in_turn(list, ray, t_min, t_max, one),
        probed_in_turn(list, ray, t_min, t_max, other),
        forall|i: int| 0 <= i < list.len() ==> answers_once(#[trigger] list[i], ray, t_min),
    ensures
        one == other,
        latest_hit(one) == latest_hit(other),
{
    lemma_same_outcomes(list, ray, t_min, t_max, one, other, list.len() as int);
    assert(one.take(list.len() as int) == one);
    assert(other.take(list.len() as int) == other);
}

} // verus!
