use vstd::prelude::*;

verus! {

/// `result` is what a closest-hit scan of `world[i..]` may return when it
/// starts with upper bound `bound` and `best` as the hit found so far: each
/// surface in turn is asked for a hit of `ray` between `t_min` and the current
/// bound; a hit becomes the best one, and its parameter the new bound.
pub open spec fn scans<S, R, B, H, FH, FT>(
    world: Seq<S>,
    i: int,
    ray: R,
    t_min: B,
    bound: B,
    best: Option<H>,
    hit: FH,
    t_of: FT,
    result: Option<H>,
) -> bool where
    FH: Fn(&S, R, B, B) -> Option<H>,
    FT: Fn(&H) -> B,

    decreases world.len() - i,
{
    if i >= world.len() || i < 0 {
        result == best
    } else {
        exists|q: Option<H>|
            #[trigger] hit.ensures((&world[i], ray, t_min, bound), q) && match q {
                None => scans(world, i + 1, ray, t_min, bound, best, hit, t_of, result),
                Some(h) => exists|t: B|
                    #[trigger] t_of.ensures((&h,), t) && scans(
                        world,
                        i + 1,
                        ray,
                        t_min,
                        t,
                        Some(h),
                        hit,
                        t_of,
                        result,
                    ),
            }
    }
}

/// Where no surface reports a hit, a scan that has found nothing yet returns
/// nothing; where every hit that a surface reports is `h`, a scan returns
/// nothing or `h`.
pub proof fn lemma_scan_returns_a_reported_hit<S, R, B, H, FH, FT>(
    world: Seq<S>,
    i: int,
    ray: R,
    t_min: B,
    bound: B,
    best: Option<H>,
    hit: FH,
    t_of: FT,
    result: Option<H>,
    h: H,
) where
    FH: Fn(&S, R, B, B) -> Option<H>,
    FT: Fn(&H) -> B,

    requires
        0 <= i,
        scans(world, i, ray, t_min, bound, best, hit, t_of, result),
        forall|s: &S, q: R, a: B, b: B, o: Option<H>|
            #[trigger] hit.ensures((s, q, a, b), o) ==> o is None || o == Some(h),
        best is None || best == Some(h),
    ensures
        result is None || result == Some(h),
        best is None && (forall|s: &S, q: R, a: B, b: B, o: Option<H>|
            #[trigger] hit.ensures((s, q, a, b), o) ==> o is None) ==> result is None,
    decreases world.len() - i,
{
    if i < world.len() {
        let q = choose|q: Option<H>|
            #[trigger] hit.ensures((&world[i], ray, t_min, bound), q) && match q {
                None => scans(world, i + 1, ray, t_min, bound, best, hit, t_of, result),
                Some(x) => exists|t: B|
                    #[trigger] t_of.ensures((&x,), t) && scans(
                        world,
                        i + 1,
                        ray,
                        t_min,
                        t,
                        Some(x),
                        hit,
                        t_of,
                        result,
                    ),
            };
        match q {
            None => {
                lemma_scan_returns_a_reported_hit(
                    world,
                    i + 1,
                    ray,
                    t_min,
                    bound,
                    best,
                    hit,
                    t_of,
                    result,
                    h,
                );
            },
            Some(x) => {
                let t = choose|t: B|
                    #[trigger] t_of.ensures((&x,), t) && scans(
                        world,
                        i + 1,
                        ray,
                        t_min,
                        t,
                        Some(x),
                        hit,
                        t_of,
                        result,
                    );
                lemma_scan_returns_a_reported_hit(
                    world,
                    i + 1,
                    ray,
                    t_min,
                    t,
                    Some(x),
                    hit,
                    t_of,
                    result,
                    h,
                );
            },
        }
    }
}

/// Finds the surface of `world` that `ray` meets first between `t_min` and
/// `t_max`: asks each surface in order for a hit below the parameter of the
/// closest hit found so far (`t_max` at first), and returns the last hit found.
/// `hit` tests one surface; `t_of` gives the ray parameter of a hit.
pub fn hit_world<S, R: Copy, B: Copy, H, FH, FT>(
    world: &Vec<S>,
    ray: R,
    t_min: B,
    t_max: B,
    hit: &FH,
    t_of: &FT,
) -> (r: Option<H>) where
    FH: Fn(&S, R, B, B) -> Option<H>,
    FT: Fn(&H) -> B,

    requires
        forall|s: &S, q: R, a: B, b: B| #[trigger] hit.requires((s, q, a, b)),
        forall|h: &H| #[trigger] t_of.requires((h,)),
    ensures
        scans(world@, 0, ray, t_min, t_max, None, *hit, *t_of, r),
        world@.len() == 0 ==> r is None,
{
    let mut closest_so_far = t_max;
    let mut hit_record: Option<H> = None;
    let mut i: usize = 0;
    while i < world.len()
        invariant
            i <= world@.len(),
            forall|s: &S, q: R, a: B, b: B| #[trigger] hit.requires((s, q, a, b)),
            forall|h: &H| #[trigger] t_of.requires((h,)),
            forall|res: Option<H>|
                #[trigger] scans(world@, i as int, ray, t_min, closest_so_far, hit_record, *hit, *t_of, res)
                    ==> scans(world@, 0, ray, t_min, t_max, None, *hit, *t_of, res),
            i == 0 ==> hit_record is None,
        decreases world@.len() - i,
    {
        let q = hit(&world[i], ray, t_min, closest_so_far);
        let ghost old_bound = closest_so_far;
        let ghost old_best = hit_record;
        match q {
            None => {
                proof {
                    assert forall|res: Option<H>|
                        #[trigger] scans(world@, i + 1, ray, t_min, closest_so_far, hit_record, *hit, *t_of, res)
                            implies scans(world@, 0, ray, t_min, t_max, None, *hit, *t_of, res) by {
                        assert(hit.ensures((&world@[i as int], ray, t_min, old_bound), None::<H>));
                        assert(scans(world@, i as int, ray, t_min, old_bound, old_best, *hit, *t_of, res));
                    }
                }
            },
            Some(h) => {
                let t = t_of(&h);
                proof {
                    assert forall|res: Option<H>|
                        #[trigger] scans(world@, i + 1, ray, t_min, t, Some(h), *hit, *t_of, res)
                            implies scans(world@, 0, ray, t_min, t_max, None, *hit, *t_of, res) by {
                        assert(hit.ensures((&world@[i as int], ray, t_min, old_bound), Some(h)));
                        assert(t_of.ensures((&h,), t));
                        assert(scans(world@, i as int, ray, t_min, old_bound, old_best, *hit, *t_of, res));
                    }
                }
                closest_so_far = t;
                hit_record = Some(h);
            },
        }
        i = i + 1;
    }
    assert(scans(world@, i as int, ray, t_min, closest_so_far, hit_record, *hit, *t_of, hit_record));
    hit_record
}

} // verus!
