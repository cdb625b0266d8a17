//! A scene as an ordered collection of surfaces, and the choice of the
//! nearest hit among them.

use crate::surface::Window;
use vstd::prelude::*;

verus! {

/// One intersection of a ray with a surface.
#[derive(Debug)]
pub struct Hit<H> {
    /// Where along the ray the surface was met: the key of that place, which
    /// grows with the distance from the ray's origin.
    pub time: u64,
    /// Whatever else the caller records about the intersection.
    pub record: H,
}

/// An ordered collection of surfaces.
pub struct World<S>(pub Vec<S>);

/// `hits` holds, surface by surface, an answer that `probe` can give for
/// `ray` and `window`.
pub open spec fn probed<S, R, H, P>(
    surfaces: Seq<S>,
    ray: R,
    window: Window,
    probe: P,
    hits: Seq<Option<Hit<H>>>,
) -> bool where P: Fn(&S, &R, &Window) -> Option<Hit<H>> {
    &&& hits.len() == surfaces.len()
    &&& forall|i: int|
        0 <= i < surfaces.len() ==> probe.ensures(
            (&surfaces[i], &ray, &window),
            #[trigger] hits[i],
        )
}

/// `best` is the hit of smallest `time` among `hits`, the earliest in the
/// sequence where several share that time, and `None` only where there is no
/// hit at all.
pub open spec fn is_nearest<H>(hits: Seq<Option<Hit<H>>>, best: Option<Hit<H>>) -> bool {
    match best {
        None => forall|i: int| 0 <= i < hits.len() ==> (#[trigger] hits[i]) is None,
        Some(b) => exists|i: int|
            {
                &&& 0 <= i < hits.len()
                &&& #[trigger] hits[i] == Some(b)
                &&& forall|j: int|
                    0 <= j < hits.len() ==> match #[trigger] hits[j] {
                        Some(h) => b.time <= h.time && (j < i ==> b.time < h.time),
                        None => true,
                    }
            },
    }
}

/// The nearest hit among given answers is determined by them.
pub proof fn lemma_nearest_is_unique<H>(
    hits: Seq<Option<Hit<H>>>,
    a: Option<Hit<H>>,
    b: Option<Hit<H>>,
)
    requires
        is_nearest(hits, a),
        is_nearest(hits, b),
    ensures
        a == b,
{
    if a is Some && b is Some {
        let i = choose|i: int|
            {
                &&& 0 <= i < hits.len()
                &&& #[trigger] hits[i] == a
                &&& forall|j: int|
                    0 <= j < hits.len() ==> match #[trigger] hits[j] {
                        Some(h) => a.unwrap().time <= h.time && (j < i ==> a.unwrap().time
                            < h.time),
                        None => true,
                    }
            };
        let k = choose|k: int|
            {
                &&& 0 <= k < hits.len()
                &&& #[trigger] hits[k] == b
                &&& forall|j: int|
                    0 <= j < hits.len() ==> match #[trigger] hits[j] {
                        Some(h) => b.unwrap().time <= h.time && (j < k ==> b.unwrap().time
                            < h.time),
                        None => true,
                    }
            };
        assert(i == k);
    }
}

/// How near the nearest hit is does not depend on the order of the
/// surfaces: two sequences with the same answers in them have their nearest
/// hit at the same time, or both have none.
pub proof fn lemma_nearest_time_ignores_order<H>(
    first: Seq<Option<Hit<H>>>,
    second: Seq<Option<Hit<H>>>,
    a: Option<Hit<H>>,
    b: Option<Hit<H>>,
)
    requires
        forall|i: int| 0 <= i < first.len() ==> second.contains(#[trigger] first[i]),
        forall|i: int| 0 <= i < second.len() ==> first.contains(#[trigger] second[i]),
        is_nearest(first, a),
        is_nearest(second, b),
    ensures
        a is None <==> b is None,
        a is Some ==> a.unwrap().time == b.unwrap().time,
{
    if a is Some {
        let i = choose|i: int| 0 <= i < first.len() && #[trigger] first[i] == a;
        assert(second.contains(first[i]));
        let k = choose|k: int| 0 <= k < second.len() && second[k] == a;
        assert(second[k] is Some);
    }
    if b is Some {
        let i = choose|i: int| 0 <= i < second.len() && #[trigger] second[i] == b;
        assert(first.contains(second[i]));
        let k = choose|k: int| 0 <= k < first.len() && first[k] == b;
        assert(first[k] is Some);
    }
}

impl<S> World<S> {
    /// Asks every surface for its intersection with `ray` within the same
    /// `window` and returns the nearest one, or `None` if the ray meets no
    /// surface.
    pub fn hit<R, H, P>(&self, ray: &R, window: &Window, probe: &P) -> (best: Option<
        Hit<H>,
    >) where P: Fn(&S, &R, &Window) -> Option<Hit<H>>
        requires
            forall|i: int|
                0 <= i < self.0@.len() ==> probe.requires((&#[trigger] self.0@[i], ray, window)),
        ensures
            exists|hits: Seq<Option<Hit<H>>>|
                #[trigger] probed(self.0@, *ray, *window, *probe, hits) && is_nearest(hits, best),
            self.0@.len() == 0 ==> best is None,
    {
        let mut best: Option<Hit<H>> = None;
        let ghost mut hits: Seq<Option<Hit<H>>> = Seq::empty();
        let ghost mut at: int = 0;
        let mut i: usize = 0;
        while i < self.0.len()
            invariant
                forall|k: int|
                    0 <= k < self.0@.len() ==> probe.requires(
                        (&#[trigger] self.0@[k], ray, window),
                    ),
                i <= self.0@.len(),
                hits.len() == i,
                forall|k: int|
                    0 <= k < i ==> probe.ensures((&self.0@[k], ray, window), #[trigger] hits[k]),
                best is None ==> forall|k: int| 0 <= k < i ==> (#[trigger] hits[k]) is None,
                best matches Some(b) ==> {
                    &&& 0 <= at < i
                    &&& hits[at] == Some(b)
                    &&& forall|j: int|
                        0 <= j < i ==> match #[trigger] hits[j] {
                            Some(h) => b.time <= h.time && (j < at ==> b.time < h.time),
                            None => true,
                        }
                },
            decreases self.0@.len() - i,
        {
            let found = probe(&self.0[i], ray, window);
            proof {
                hits = hits.push(found);
            }
            match found {
                None => {},
                Some(h) => {
                    let nearer = match &best {
                        None => true,
                        Some(b) => h.time < b.time,
                    };
                    if nearer {
                        best = Some(h);
                        proof {
                            at = i as int;
                        }
                    }
                },
            }
            i += 1;
        }
        proof {
            assert(probed(self.0@, *ray, *window, *probe, hits));
            assert(is_nearest(hits, best));
        }
        best
    }
}

} // verus!
