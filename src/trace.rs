use vstd::prelude::*;

verus! {

/// `color` is a color that tracing `ray` with `depth` bounces left may give:
/// none left gives `black`; a ray that `hit` finds no surface for gives what
/// `sky` gives for it; a ray that the hit surface absorbs gives `black`; and a
/// ray that it scatters gives that color which `attenuate` makes of the
/// scattering's attenuation and a color that tracing the scattered ray with one
/// bounce less may give.
pub open spec fn traces<R, C, H, FH, FS, FK, FA>(
    ray: R,
    depth: int,
    hit: FH,
    scatter: FS,
    sky: FK,
    attenuate: FA,
    black: C,
    color: C,
) -> bool where
    FH: Fn(R) -> Option<H>,
    FS: Fn(R, H) -> Option<(R, C)>,
    FK: Fn(R) -> C,
    FA: Fn(C, C) -> C,

    decreases depth,
{
    if depth <= 0 {
        color == black
    } else {
        exists|h: Option<H>|
            #[trigger] hit.ensures((ray,), h) && match h {
                None => sky.ensures((ray,), color),
                Some(record) => exists|s: Option<(R, C)>|
                    #[trigger] scatter.ensures((ray, record), s) && match s {
                        None => color == black,
                        Some(out) => exists|c: C|
                            #[trigger] attenuate.ensures((out.1, c), color) && traces(
                                out.0,
                                depth - 1,
                                hit,
                                scatter,
                                sky,
                                attenuate,
                                black,
                                c,
                            ),
                    },
            }
    }
}

/// Traces `ray` through a scene for at most `depth` bounces and returns its
/// color. `hit` finds the surface that the ray meets first, if any; `scatter`
/// gives the scattered ray and its attenuation, or `None` where the surface
/// absorbs the ray; `sky` gives the color of a ray that leaves the scene; `attenuate`
/// applies an attenuation to a color, channel by channel.
pub fn ray_color<R: Copy, C: Copy, H, FH, FS, FK, FA>(
    ray: R,
    depth: i32,
    hit: &FH,
    scatter: &FS,
    sky: &FK,
    attenuate: &FA,
    black: C,
) -> (color: C) where
    FH: Fn(R) -> Option<H>,
    FS: Fn(R, H) -> Option<(R, C)>,
    FK: Fn(R) -> C,
    FA: Fn(C, C) -> C,

    requires
        forall|r: R| #[trigger] hit.requires((r,)),
        forall|r: R, h: H| #[trigger] scatter.requires((r, h)),
        forall|r: R| #[trigger] sky.requires((r,)),
        forall|a: C, c: C| #[trigger] attenuate.requires((a, c)),
    ensures
        traces(ray, depth as int, *hit, *scatter, *sky, *attenuate, black, color),
        depth <= 0 ==> color == black,
    decreases depth,
{
    if depth <= 0 {
        return black;
    }
    let h = hit(ray);
    match h {
        None => {
            let color = sky(ray);
            assert(hit.ensures((ray,), h));
            color
        },
        Some(record) => {
            let s = scatter(ray, record);
            match s {
                None => {
                    assert(scatter.ensures((ray, record), s));
                    assert(hit.ensures((ray,), h));
                    black
                },
                Some(out) => {
                    let next = ray_color(out.0, depth - 1, hit, scatter, sky, attenuate, black);
                    let color = attenuate(out.1, next);
                    assert(attenuate.ensures((out.1, next), color));
                    assert(scatter.ensures((ray, record), s));
                    assert(hit.ensures((ray,), h));
                    color
                },
            }
        },
    }
}

/// In a scene where no ray hits anything, tracing with at least one bounce
/// left gives the sky's color for the ray.
pub proof fn lemma_empty_scene_gives_sky<R, C, H, FH, FS, FK, FA>(
    ray: R,
    depth: int,
    hit: FH,
    scatter: FS,
    sky: FK,
    attenuate: FA,
    black: C,
    color: C,
) where
    FH: Fn(R) -> Option<H>,
    FS: Fn(R, H) -> Option<(R, C)>,
    FK: Fn(R) -> C,
    FA: Fn(C, C) -> C,

    requires
        forall|r: R, h: Option<H>| #[trigger] hit.ensures((r,), h) ==> h is None,
        depth >= 1,
        traces(ray, depth, hit, scatter, sky, attenuate, black, color),
    ensures
        sky.ensures((ray,), color),
{
    let h = choose|h: Option<H>|
        #[trigger] hit.ensures((ray,), h) && match h {
            None => sky.ensures((ray,), color),
            Some(record) => exists|s: Option<(R, C)>|
                #[trigger] scatter.ensures((ray, record), s) && match s {
                    None => color == black,
                    Some(out) => exists|c: C|
                        #[trigger] attenuate.ensures((out.1, c), color) && traces(
                            out.0,
                            depth - 1,
                            hit,
                            scatter,
                            sky,
                            attenuate,
                            black,
                            c,
                        ),
                },
        };
    assert(h is None);
}

} // verus!
