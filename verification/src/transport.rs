//! Depth-limited light transport: what colour a ray brings back from a world.

use crate::surface::Window;
use crate::world::{is_nearest, probed, Hit, World};
use vstd::prelude::*;

verus! {

/// `out` is a colour that following `ray` through `surfaces` for at most
/// `depth` scattering events can give:
///
/// * with no depth left, `black`;
/// * if the ray meets no surface between the skin depth and the farthest
///   place, what `sky` gives for it;
/// * if the material at the nearest hit absorbs the ray, `black`;
/// * otherwise what `attenuate` makes of the material's attenuation and a
///   colour that the scattered ray brings back with one unit of depth less.
pub open spec fn resolves_to<S, R, H, C, P, T, K, M>(
    surfaces: Seq<S>,
    ray: R,
    depth: nat,
    black: C,
    probe: P,
    scatter: T,
    sky: K,
    attenuate: M,
    out: C,
) -> bool where
    P: Fn(&S, &R, &Window) -> Option<Hit<H>>,
    T: Fn(&R, &Hit<H>) -> Option<(C, R)>,
    K: Fn(&R) -> C,
    M: Fn(C, C) -> C,

    decreases depth,
{
    if depth == 0 {
        out == black
    } else {
        exists|hits: Seq<Option<Hit<H>>>, nearest: Option<Hit<H>>|
            {
                &&& #[trigger] probed(surfaces, ray, Window::ahead(), probe, hits)
                &&& #[trigger] is_nearest(hits, nearest)
                &&& match nearest {
                    None => sky.ensures((&ray,), out),
                    Some(hit) => exists|scattered: Option<(C, R)>|
                        {
                            &&& #[trigger] scatter.ensures((&ray, &hit), scattered)
                            &&& match scattered {
                                None => out == black,
                                Some((attenuation, next)) => exists|inner: C|
                                    {
                                        &&& resolves_to(
                                            surfaces,
                                            next,
                                            (depth - 1) as nat,
                                            black,
                                            probe,
                                            scatter,
                                            sky,
                                            attenuate,
                                            inner,
                                        )
                                        &&& #[trigger] attenuate.ensures((attenuation, inner), out)
                                    },
                            }
                        },
                }
            }
    }
}

/// With no depth left every ray is black, whatever the world holds.
pub proof fn lemma_no_depth_is_black<S, R, H, C, P, T, K, M>(
    surfaces: Seq<S>,
    ray: R,
    black: C,
    probe: P,
    scatter: T,
    sky: K,
    attenuate: M,
    out: C,
) where
    P: Fn(&S, &R, &Window) -> Option<Hit<H>>,
    T: Fn(&R, &Hit<H>) -> Option<(C, R)>,
    K: Fn(&R) -> C,
    M: Fn(C, C) -> C,

    requires
        resolves_to(surfaces, ray, 0, black, probe, scatter, sky, attenuate, out),
    ensures
        out == black,
{
}

/// In a world without surfaces a ray with any depth left brings back what
/// the sky gives for it, however much depth that is.
pub proof fn lemma_empty_world_is_sky<S, R, H, C, P, T, K, M>(
    surfaces: Seq<S>,
    ray: R,
    depth: nat,
    black: C,
    probe: P,
    scatter: T,
    sky: K,
    attenuate: M,
    out: C,
) where
    P: Fn(&S, &R, &Window) -> Option<Hit<H>>,
    T: Fn(&R, &Hit<H>) -> Option<(C, R)>,
    K: Fn(&R) -> C,
    M: Fn(C, C) -> C,

    requires
        surfaces.len() == 0,
        depth > 0,
        resolves_to(surfaces, ray, depth, black, probe, scatter, sky, attenuate, out),
    ensures
        sky.ensures((&ray,), out),
{
}

/// The colour that `ray` brings back from `world`, following it for at most
/// `depth` scattering events.
///
/// `probe` intersects a ray with one surface within a window, which here is
/// always `Window::ahead()`; `scatter` is the material's answer at a hit
/// (`None` where it absorbs the ray), `sky` colours a ray that leaves the
/// world, and `attenuate` applies an attenuation to a colour.
pub fn resolve<S, R, H, C, P, T, K, M>(
    world: &World<S>,
    ray: R,
    depth: usize,
    black: C,
    probe: &P,
    scatter: &T,
    sky: &K,
    attenuate: &M,
) -> (out: C) where
    P: Fn(&S, &R, &Window) -> Option<Hit<H>>,
    T: Fn(&R, &Hit<H>) -> Option<(C, R)>,
    K: Fn(&R) -> C,
    M: Fn(C, C) -> C,

    requires
        forall|i: int, r: &R|
            0 <= i < world.0@.len() ==> probe.requires(
                (&#[trigger] world.0@[i], r, &Window::ahead()),
            ),
        forall|r: &R, h: &Hit<H>| scatter.requires((r, h)),
        forall|r: &R| sky.requires((r,)),
        forall|a: C, b: C| attenuate.requires((a, b)),
    ensures
        resolves_to(
            world.0@,
            ray,
            depth as nat,
            black,
            *probe,
            *scatter,
            *sky,
            *attenuate,
            out,
        ),
        depth == 0 ==> out == black,
        depth > 0 && world.0@.len() == 0 ==> sky.ensures((&ray,), out),
    decreases depth,
{
    if depth == 0 {
        return black;
    }
    match world.hit(&ray, &Window::ahead(), probe) {
        None => sky(&ray),
        Some(hit) => match scatter(&ray, &hit) {
            None => black,
            Some((attenuation, next)) => {
                let incoming = resolve(
                    world,
                    next,
                    depth - 1,
                    black,
                    probe,
                    scatter,
                    sky,
                    attenuate,
                );
                attenuate(attenuation, incoming)
            },
        },
    }
}

} // verus!
