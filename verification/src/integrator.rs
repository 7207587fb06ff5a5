use vstd::prelude::*;
use crate::hitable::{HitRecord, Hitable};
use crate::material::Material;
use crate::ray::Ray;

verus! {

/// A hit at a depth beyond this one ends the path without scattering.
pub const MAX_DEPTH: u8 = 50;

/// How a light path ends.
pub enum PathEnd<P> {
    /// The ray hit nothing: the path leaves the scene along this ray.
    Escaped(Ray<P>),
    /// The material that was hit absorbed the light.
    Absorbed,
    /// The ray hit something beyond the depth limit.
    Exhausted,
}

/// A light path through a scene: the attenuation of each scattering, in the
/// order in which the scatterings took place, and how the path ended.
pub struct Path<P, C> {
    pub attenuations: Vec<C>,
    pub end: PathEnd<P>,
}

/// `ray` hits the world at `record`, and the material hit scatters it into
/// `next` with the given attenuation.
pub open spec fn bounced<S, P, C, M: Material<S, P, C>, W: Hitable<S, P, M>>(
    world: W,
    t_min: S,
    t_max: S,
    ray: Ray<P>,
    record: HitRecord<S, P, M>,
    attenuation: C,
    next: Ray<P>,
) -> bool {
    &&& call_ensures(W::hit, (&world, &ray, t_min, t_max), Ok::<HitRecord<S, P, M>, ()>(record))
    &&& call_ensures(M::scatter, (&record.material, &ray, record), Some((attenuation, next)))
}

/// `ray` is where a path that ends in `end` stops at the given depth: by
/// missing the world, by being absorbed by the material hit, or by a hit
/// beyond the depth limit, which asks no material.
pub open spec fn stopped<S, P, C, M: Material<S, P, C>, W: Hitable<S, P, M>>(
    world: W,
    t_min: S,
    t_max: S,
    ray: Ray<P>,
    depth: int,
    end: PathEnd<P>,
) -> bool {
    match end {
        PathEnd::Escaped(last) => {
            &&& last == ray
            &&& call_ensures(W::hit, (&world, &ray, t_min, t_max), Err::<HitRecord<S, P, M>, ()>(()))
        },
        PathEnd::Absorbed => {
            &&& depth <= MAX_DEPTH
            &&& exists|record: HitRecord<S, P, M>|
                {
                    &&& #[trigger] call_ensures(
                        W::hit,
                        (&world, &ray, t_min, t_max),
                        Ok::<HitRecord<S, P, M>, ()>(record),
                    )
                    &&& call_ensures(
                        M::scatter,
                        (&record.material, &ray, record),
                        None::<(C, Ray<P>)>,
                    )
                }
        },
        PathEnd::Exhausted => {
            &&& depth > MAX_DEPTH
            &&& exists|record: HitRecord<S, P, M>| #[trigger]
                call_ensures(
                    W::hit,
                    (&world, &ray, t_min, t_max),
                    Ok::<HitRecord<S, P, M>, ()>(record),
                )
        },
    }
}

/// `path` is a path of `ray` through `world` from the given depth, with
/// `rays` the ray before each scattering and after the last one, and
/// `records` what each of them hit: every scattering happens within the
/// depth limit, and the last ray is where the path stops.
pub open spec fn follows<S, P, C, M: Material<S, P, C>, W: Hitable<S, P, M>>(
    world: W,
    t_min: S,
    t_max: S,
    ray: Ray<P>,
    depth: u8,
    path: Path<P, C>,
    rays: Seq<Ray<P>>,
    records: Seq<HitRecord<S, P, M>>,
) -> bool {
    let n = path.attenuations@.len() as int;
    &&& rays.len() == n + 1
    &&& records.len() == n
    &&& rays[0] == ray
    &&& forall|i: int|
        0 <= i < n ==> depth + i <= MAX_DEPTH && bounced(
            world,
            t_min,
            t_max,
            rays[i],
            #[trigger] records[i],
            path.attenuations@[i],
            rays[i + 1],
        )
    &&& stopped::<S, P, C, M, W>(world, t_min, t_max, rays[n], depth + n, path.end)
}

/// Follows `ray` through `world`: as long as the ray hits something within
/// the depth limit and the material hit scatters it, the scattered ray is
/// followed at the next depth. Intersections are looked for between `t_min`
/// and `t_max`.
pub fn trace<S: Copy, P, C, M: Material<S, P, C> + Copy, W: Hitable<S, P, M>>(
    ray: Ray<P>,
    world: &W,
    t_min: S,
    t_max: S,
    depth: u8,
) -> (path: Path<P, C>)
    ensures
        exists|rays: Seq<Ray<P>>, records: Seq<HitRecord<S, P, M>>|
            follows(*world, t_min, t_max, ray, depth, path, rays, records),
        depth + path.attenuations@.len() <= MAX_DEPTH + 1 || path.attenuations@.len() == 0,
{
    let mut current = ray;
    let mut level = depth;
    let mut attenuations: Vec<C> = Vec::new();
    let ghost mut rays: Seq<Ray<P>> = seq![ray];
    let ghost mut records: Seq<HitRecord<S, P, M>> = Seq::empty();
    loop
        invariant
            rays.len() == attenuations@.len() + 1,
            records.len() == attenuations@.len(),
            rays[0] == ray,
            rays.last() == current,
            level == depth + attenuations@.len(),
            attenuations@.len() > 0 ==> level <= MAX_DEPTH + 1,
            forall|i: int|
                0 <= i < attenuations@.len() ==> depth + i <= MAX_DEPTH && bounced(
                    *world,
                    t_min,
                    t_max,
                    rays[i],
                    #[trigger] records[i],
                    attenuations@[i],
                    rays[i + 1],
                ),
        decreases MAX_DEPTH + 1 - level,
    {
        match world.hit(&current, t_min, t_max) {
            Err(miss) => {
                assert(miss == ());
                let path = Path { attenuations, end: PathEnd::Escaped(current) };
                assert(follows(*world, t_min, t_max, ray, depth, path, rays, records));
                return path;
            },
            Ok(record) => {
                if level > MAX_DEPTH {
                    let path = Path { attenuations, end: PathEnd::Exhausted };
                    assert(follows(*world, t_min, t_max, ray, depth, path, rays, records));
                    return path;
                }
                let material = record.material;
                match material.scatter(&current, record) {
                    None => {
                        let path = Path { attenuations, end: PathEnd::Absorbed };
                        assert(follows(*world, t_min, t_max, ray, depth, path, rays, records));
                        return path;
                    },
                    Some((attenuation, next)) => {
                        proof {
                            rays = rays.push(next);
                            records = records.push(record);
                        }
                        attenuations.push(attenuation);
                        current = next;
                        level = level + 1;
                    },
                }
            },
        }
    }
}

/// Whatever `world` and its materials are asked, they have one answer only.
pub open spec fn single_valued<S, P, C, M: Material<S, P, C>, W: Hitable<S, P, M>>(
    world: W,
    t_min: S,
    t_max: S,
) -> bool {
    &&& forall|ray: Ray<P>, first: Result<HitRecord<S, P, M>, ()>, second: Result<HitRecord<S, P, M>, ()>|
        #[trigger] call_ensures(W::hit, (&world, &ray, t_min, t_max), first) && #[trigger] call_ensures(
            W::hit,
            (&world, &ray, t_min, t_max),
            second,
        ) ==> first == second
    &&& forall|
        ray: Ray<P>,
        record: HitRecord<S, P, M>,
        first: Option<(C, Ray<P>)>,
        second: Option<(C, Ray<P>)>,
    |
        #[trigger] call_ensures(M::scatter, (&record.material, &ray, record), first)
            && #[trigger] call_ensures(M::scatter, (&record.material, &ray, record), second)
            ==> first == second
}

/// Two paths of one ray agree on every scattering that both of them hold.
proof fn lemma_same_steps<S, P, C, M: Material<S, P, C>, W: Hitable<S, P, M>>(
    world: W,
    t_min: S,
    t_max: S,
    ray: Ray<P>,
    depth: u8,
    one: Path<P, C>,
    one_rays: Seq<Ray<P>>,
    one_records: Seq<HitRecord<S, P, M>>,
    other: Path<P, C>,
    other_rays: Seq<Ray<P>>,
    other_records: Seq<HitRecord<S, P, M>>,
    i: int,
)
    requires
        single_valued::<S, P, C, M, W>(world, t_min, t_max),
        follows(world, t_min, t_max, ray, depth, one, one_rays, one_records),
        follows(world, t_min, t_max, ray, depth, other, other_rays, other_records),
        0 <= i <= one.attenuations@.len(),
        i <= other.attenuations@.len(),
    ensures
        one_rays[i] == other_rays[i],
        forall|j: int| 0 <= j < i ==> one.attenuations@[j] == other.attenuations@[j],
    decreases i,
{
    if i > 0 {
        let k = i - 1;
        lemma_same_steps(
            world,
            t_min,
            t_max,
            ray,
            depth,
            one,
            one_rays,
            one_records,
            other,
            other_rays,
            other_records,
            k,
        );
        let at = one_rays[k];
        assert(bounced(
            world,
            t_min,
            t_max,
            at,
            one_records[k],
            one.attenuations@[k],
            one_rays[k + 1],
        ));
        assert(bounced(
            world,
            t_min,
            t_max,
            at,
            other_records[k],
            other.attenuations@[k],
            other_rays[k + 1],
        ));
        assert(Ok::<HitRecord<S, P, M>, ()>(one_records[k]) == Ok::<HitRecord<S, P, M>, ()>(
            other_records[k],
        ));
        assert(Some((one.attenuations@[k], one_rays[k + 1])) == Some(
            (other.attenuations@[k], other_rays[k + 1]),
        ));
    }
}

/// Of two paths of one ray neither goes on where the other has stopped.
proof fn lemma_no_longer<S, P, C, M: Material<S, P, C>, W: Hitable<S, P, M>>(
    world: W,
    t_min: S,
    t_max: S,
    ray: Ray<P>,
    depth: u8,
    one: Path<P, C>,
    one_rays: Seq<Ray<P>>,
    one_records: Seq<HitRecord<S, P, M>>,
    other: Path<P, C>,
    other_rays: Seq<Ray<P>>,
    other_records: Seq<HitRecord<S, P, M>>,
)
    requires
        single_valued::<S, P, C, M, W>(world, t_min, t_max),
        follows(world, t_min, t_max, ray, depth, one, one_rays, one_records),
        follows(world, t_min, t_max, ray, depth, other, other_rays, other_records),
    ensures
        other.attenuations@.len() <= one.attenuations@.len(),
{
    let n = one.attenuations@.len() as int;
    if n < other.attenuations@.len() {
        lemma_same_steps(
            world,
            t_min,
            t_max,
            ray,
            depth,
            one,
            one_rays,
            one_records,
            other,
            other_rays,
            other_records,
            n,
        );
        let at = one_rays[n];
        let record = other_records[n];
        assert(bounced(
            world,
            t_min,
            t_max,
            at,
            record,
            other.attenuations@[n],
            other_rays[n + 1],
        ));
        assert(stopped::<S, P, C, M, W>(world, t_min, t_max, at, depth + n, one.end));
        match one.end {
            PathEnd::Escaped(last) => {
                assert(Ok::<HitRecord<S, P, M>, ()>(record) == Err::<HitRecord<S, P, M>, ()>(()));
            },
            PathEnd::Absorbed => {
                let absorbed = choose|absorbed: HitRecord<S, P, M>|
                    {
                        &&& #[trigger] call_ensures(
                            W::hit,
                            (&world, &at, t_min, t_max),
                            Ok::<HitRecord<S, P, M>, ()>(absorbed),
                        )
                        &&& call_ensures(
                            M::scatter,
                            (&absorbed.material, &at, absorbed),
                            None::<(C, Ray<P>)>,
                        )
                    };
                assert(Ok::<HitRecord<S, P, M>, ()>(record) == Ok::<HitRecord<S, P, M>, ()>(
                    absorbed,
                ));
                assert(Some((other.attenuations@[n], other_rays[n + 1])) == None::<(C, Ray<P>)>);
            },
            PathEnd::Exhausted => {},
        }
    }
}

/// Where the world and its materials have one answer only to each question,
/// a ray has one path only: two paths that follow the same ray through the
/// same world from the same depth have the same attenuations and the same
/// end.
pub proof fn lemma_path_is_determined<S, P, C, M: Material<S, P, C>, W: Hitable<S, P, M>>(
    world: W,
    t_min: S,
    t_max: S,
    ray: Ray<P>,
    depth: u8,
    one: Path<P, C>,
    one_rays: Seq<Ray<P>>,
    one_records: Seq<HitRecord<S, P, M>>,
    other: Path<P, C>,
    other_rays: Seq<Ray<P>>,
    other_records: Seq<HitRecord<S, P, M>>,
)
    requires
        single_valued::<S, P, C, M, W>(world, t_min, t_max),
        follows(world, t_min, t_max, ray, depth, one, one_rays, one_records),
        follows(world, t_min, t_max, ray, depth, other, other_rays, other_records),
    ensures
        one.attenuations@ == other.attenuations@,
        one.end == other.end,
{
    lemma_no_longer(
        world,
        t_min,
        t_max,
        ray,
        depth,
        one,
        one_rays,
        one_records,
        other,
        other_rays,
        other_records,
    );
    lemma_no_longer(
        world,
        t_min,
        t_max,
        ray,
        depth,
        other,
        other_rays,
        other_records,
        one,
        one_rays,
        one_records,
    );
    let n = one.attenuations@.len() as int;
    lemma_same_steps(
        world,
        t_min,
        t_max,
        ray,
        depth,
        one,
        one_rays,
        one_records,
        other,
        other_rays,
        other_records,
        n,
    );
    assert(one.attenuations@ =~= other.attenuations@);
    let at = one_rays[n];
    assert(stopped::<S, P, C, M, W>(world, t_min, t_max, at, depth + n, one.end));
    assert(stopped::<S, P, C, M, W>(world, t_min, t_max, at, depth + n, other.end));
    match (one.end, other.end) {
        (PathEnd::Escaped(_), PathEnd::Absorbed) | (PathEnd::Escaped(_), PathEnd::Exhausted) => {
            let record = choose|record: HitRecord<S, P, M>| #[trigger]
                call_ensures(
                    W::hit,
                    (&world, &at, t_min, t_max),
                    Ok::<HitRecord<S, P, M>, ()>(record),
                );
            assert(Ok::<HitRecord<S, P, M>, ()>(record) == Err::<HitRecord<S, P, M>, ()>(()));
        },
        (PathEnd::Absorbed, PathEnd::Escaped(_)) | (PathEnd::Exhausted, PathEnd::Escaped(_)) => {
            let record = choose|record: HitRecord<S, P, M>| #[trigger]
                call_ensures(
                    W::hit,
                    (&world, &at, t_min, t_max),
                    Ok::<HitRecord<S, P, M>, ()>(record),
                );
            assert(Ok::<HitRecord<S, P, M>, ()>(record) == Err::<HitRecord<S, P, M>, ()>(()));
        },
        _ => {},
    }
}

/// `path` is the path through `world`, from depth zero, of a ray that
/// `shoot` may give.
pub open spec fn sampled<S, P, C, M: Material<S, P, C>, W: Hitable<S, P, M>, G: Fn() -> Ray<P>>(
    shoot: G,
    world: W,
    t_min: S,
    t_max: S,
    path: Path<P, C>,
) -> bool {
    exists|ray: Ray<P>, rays: Seq<Ray<P>>, records: Seq<HitRecord<S, P, M>>|
        shoot.ensures((), ray) && #[trigger] follows(
            world,
            t_min,
            t_max,
            ray,
            0,
            path,
            rays,
            records,
        )
}

/// Takes `count` samples: for each, in turn, asks `shoot` for a ray and
/// follows it through `world` from depth zero.
pub fn sample<
    S: Copy,
    P,
    C,
    M: Material<S, P, C> + Copy,
    W: Hitable<S, P, M>,
    G: Fn() -> Ray<P>,
>(count: u32, shoot: G, world: &W, t_min: S, t_max: S) -> (paths: Vec<Path<P, C>>)
    requires
        shoot.requires(()),
    ensures
        paths@.len() == count,
        forall|i: int|
            0 <= i < count ==> sampled(shoot, *world, t_min, t_max, #[trigger] paths@[i]),
{
    let mut paths: Vec<Path<P, C>> = Vec::new();
    let mut taken: u32 = 0;
    while taken < count
        invariant
            taken <= count,
            paths@.len() == taken,
            shoot.requires(()),
            forall|i: int|
                0 <= i < taken ==> sampled(shoot, *world, t_min, t_max, #[trigger] paths@[i]),
        decreases count - taken,
    {
        let ray = shoot();
        let path = trace(ray, world, t_min, t_max, 0);
        paths.push(path);
        taken = taken + 1;
    }
    paths
}

impl<P, C> Path<P, C> {
    /// `colors` is the light that the path carries back, step by step:
    /// its last entry is the light at the end of the path, that of the sky
    /// along the escaping ray or else `black`, and the entry before each
    /// scattering is what `attenuate` makes of that scattering's attenuation
    /// and the entry after it.
    pub open spec fn carries<K: FnOnce(&Ray<P>) -> C, F: Fn(&C, &C) -> C>(
        self,
        sky: K,
        black: C,
        attenuate: F,
        colors: Seq<C>,
    ) -> bool {
        let n = self.attenuations@.len() as int;
        &&& colors.len() == n + 1
        &&& match self.end {
            PathEnd::Escaped(last) => sky.ensures((&last,), colors[n]),
            _ => colors[n] == black,
        }
        &&& forall|i: int|
            0 <= i < n ==> attenuate.ensures(
                (&self.attenuations@[i], &colors[i + 1]),
                #[trigger] colors[i],
            )
    }

    /// The light that arrives along the path at its start: the light at its
    /// end, attenuated by each scattering in turn, the last scattering first.
    pub fn radiance<K: FnOnce(&Ray<P>) -> C, F: Fn(&C, &C) -> C>(
        self,
        sky: K,
        black: C,
        attenuate: F,
    ) -> (color: C)
        requires
            self.end matches PathEnd::Escaped(last) ==> sky.requires((&last,)),
            forall|i: int, inner: C|
                0 <= i < self.attenuations@.len() ==> attenuate.requires(
                    (&self.attenuations@[i], &inner),
                ),
        ensures
            exists|colors: Seq<C>|
                self.carries(sky, black, attenuate, colors) && color == colors[0],
    {
        let Path { attenuations, end } = self;
        let mut color = match end {
            PathEnd::Escaped(last) => sky(&last),
            _ => black,
        };
        let n = attenuations.len();
        let mut i: usize = n;
        let ghost mut colors: Seq<C> = seq![color];
        while i > 0
            invariant
                n == attenuations@.len(),
                attenuations == self.attenuations,
                i <= n,
                colors.len() == n - i + 1,
                colors[0] == color,
                match self.end {
                    PathEnd::Escaped(last) => sky.ensures((&last,), colors.last()),
                    _ => colors.last() == black,
                },
                forall|j: int, inner: C|
                    0 <= j < n ==> attenuate.requires((&attenuations@[j], &inner)),
                forall|j: int|
                    i <= j < n ==> attenuate.ensures(
                        (&attenuations@[j], &colors[j - i + 1]),
                        #[trigger] colors[j - i],
                    ),
            decreases i,
        {
            i -= 1;
            let ghost inner = color;
            color = attenuate(&attenuations[i], &color);
            proof {
                let ghost before = colors;
                colors = seq![color] + before;
                assert(colors[1] == inner);
                assert forall|j: int| i <= j < n implies attenuate.ensures(
                    (&attenuations@[j], &colors[j - i + 1]),
                    #[trigger] colors[j - i],
                ) by {
                    if j > i {
                        assert(colors[j - i] == before[j - (i + 1)]);
                        assert(colors[j - i + 1] == before[j - (i + 1) + 1]);
                    }
                }
            }
        }
        proof {
            assert(colors.last() == colors[n as int]);
            assert forall|j: int| 0 <= j < n implies attenuate.ensures(
                (&self.attenuations@[j], &colors[j + 1]),
                #[trigger] colors[j],
            ) by {
                assert(colors[j] == colors[j - i]);
            }
        }
        color
    }
}

/// The light that arrives along `ray` from `world`: the radiance of the path
/// that the ray takes from the given depth.
pub fn color<
    S: Copy,
    P,
    C,
    M: Material<S, P, C> + Copy,
    W: Hitable<S, P, M>,
    K: FnOnce(&Ray<P>) -> C,
    F: Fn(&C, &C) -> C,
>(ray: Ray<P>, world: &W, t_min: S, t_max: S, depth: u8, sky: K, black: C, attenuate: F) -> (color:
    C)
    requires
        forall|last: Ray<P>| sky.requires((&last,)),
        forall|attenuation: C, inner: C| attenuate.requires((&attenuation, &inner)),
    ensures
        exists|path: Path<P, C>, rays: Seq<Ray<P>>, records: Seq<HitRecord<S, P, M>>, colors: Seq<C>|
            {
                &&& #[trigger] follows(*world, t_min, t_max, ray, depth, path, rays, records)
                &&& #[trigger] path.carries(sky, black, attenuate, colors)
                &&& color == colors[0]
            },
{
    let path = trace(ray, world, t_min, t_max, depth);
    path.radiance(sky, black, attenuate)
}

} // verus!
