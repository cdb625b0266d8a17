//! Materials: what becomes of a ray at the surface it hits.

use vstd::prelude::*;

verus! {

/// How a surface answers light. `C` is the colour type, `X` the type of the
/// fuzziness of a metal.
#[derive(Debug)]
pub enum Material<C, X> {
    /// A diffuse surface: it scatters every ray.
    Matte { albedo: C },
    /// A mirror-like surface whose reflection is blurred by `fuzziness`; it
    /// absorbs a ray whose reflection would enter the surface.
    Metal { albedo: C, fuzziness: X },
}

impl<C: Copy, X> Material<C, X> {
    /// The share of each colour channel that the surface keeps per bounce.
    pub open spec fn spec_albedo(&self) -> C {
        match *self {
            Material::Matte { albedo } => albedo,
            Material::Metal { albedo, .. } => albedo,
        }
    }

    /// The share of each colour channel that the surface keeps per bounce.
    #[verifier::when_used_as_spec(spec_albedo)]
    pub fn albedo(&self) -> (c: C)
        ensures
            c == self.spec_albedo(),
    {
        match self {
            Material::Matte { albedo } => *albedo,
            Material::Metal { albedo, .. } => *albedo,
        }
    }

    /// `r` is an answer that this material can give at a hit: the albedo with
    /// a diffuse ray for a matte surface; for a metal the albedo with a
    /// reflected ray that leaves the surface, or nothing where the reflected
    /// ray does not leave it.
    pub open spec fn scatters<R, D, S, O>(
        &self,
        diffuse: D,
        reflect: S,
        outward: O,
        r: Option<(C, R)>,
    ) -> bool where D: Fn() -> R, S: Fn(&X) -> R, O: Fn(&R) -> bool {
        match *self {
            Material::Matte { albedo } => exists|ray: R|
                #[trigger] diffuse.ensures((), ray) && r == Some((albedo, ray)),
            Material::Metal { albedo, fuzziness } => exists|ray: R, leaves: bool|
                {
                    &&& reflect.ensures((&fuzziness,), ray)
                    &&& #[trigger] outward.ensures((&ray,), leaves)
                    &&& r == if leaves {
                        Some((albedo, ray))
                    } else {
                        None
                    }
                },
        }
    }

    /// A matte surface never absorbs a ray.
    pub proof fn lemma_matte_always_scatters<R, D, S, O>(
        &self,
        diffuse: D,
        reflect: S,
        outward: O,
        r: Option<(C, R)>,
    ) where D: Fn() -> R, S: Fn(&X) -> R, O: Fn(&R) -> bool
        requires
            *self is Matte,
            self.scatters(diffuse, reflect, outward, r),
        ensures
            r is Some,
    {
    }

    /// A metal absorbs the ray exactly where the reflection that it made
    /// does not leave the surface.
    pub proof fn lemma_metal_absorbs_inward<R, D, S, O>(
        &self,
        diffuse: D,
        reflect: S,
        outward: O,
        r: Option<(C, R)>,
    ) where D: Fn() -> R, S: Fn(&X) -> R, O: Fn(&R) -> bool
        requires
            *self matches Material::Metal { fuzziness, .. },
            self.scatters(diffuse, reflect, outward, r),
        ensures
            r is None ==> exists|ray: R|
                reflect.ensures((&self->fuzziness,), ray) && #[trigger] outward.ensures(
                    (&ray,),
                    false,
                ),
            r matches Some(pair) ==> reflect.ensures((&self->fuzziness,), pair.1)
                && outward.ensures((&pair.1,), true),
    {
    }

    /// The attenuation and the outgoing ray at a hit, or `None` where the
    /// surface absorbs the ray.
    ///
    /// `diffuse` makes the ray that a matte surface sends out, `reflect` the
    /// blurred reflection off a metal of the given fuzziness, and `outward`
    /// says whether a ray leaves the surface it starts on.
    pub fn scatter<R, D, S, O>(&self, diffuse: &D, reflect: &S, outward: &O) -> (r: Option<
        (C, R),
    >) where D: Fn() -> R, S: Fn(&X) -> R, O: Fn(&R) -> bool
        requires
            *self is Matte ==> diffuse.requires(()),
            *self matches Material::Metal { fuzziness, .. } ==> reflect.requires((&fuzziness,)),
            *self is Metal ==> forall|ray: &R| outward.requires((ray,)),
        ensures
            self.scatters(*diffuse, *reflect, *outward, r),
            *self is Matte ==> r is Some,
            r matches Some(pair) ==> pair.0 == self.spec_albedo(),
    {
        match self {
            Material::Matte { albedo } => {
                let ray = diffuse();
                Some((*albedo, ray))
            },
            Material::Metal { albedo, fuzziness } => {
                let ray = reflect(fuzziness);
                let leaves = outward(&ray);
                if leaves {
                    Some((*albedo, ray))
                } else {
                    None
                }
            },
        }
    }
}

} // verus!
