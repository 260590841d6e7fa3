//! The scene and the nearest-hit search over it.
use crate::geometry::{hit_distance, Ray, RayModel, Sphere, DIST_LIMIT};
use vstd::prelude::*;

verus! {

/// The objects of the scene, in no meaningful order.
pub struct Scene {
    pub spheres: Vec<Sphere>,
}

/// Every sphere of the sequence is well formed.
pub open spec fn spheres_wf(s: Seq<Sphere>) -> bool {
    forall|i: int| 0 <= i < s.len() ==> (#[trigger] s[i])@.wf()
}

impl Scene {
    pub open spec fn wf(&self) -> bool {
        spheres_wf(self.spheres@)
    }
}

/// The index and distance of the nearest sphere that the ray hits; of
/// spheres hit at the same distance, the first.
pub open spec fn closest_in(s: Seq<Sphere>, ray: RayModel) -> Option<(int, int)>
    decreases s.len(),
{
    if s.len() == 0 {
        None
    } else {
        let rest = closest_in(s.drop_last(), ray);
        match hit_distance(s.last()@, ray) {
            None => rest,
            Some(t) => match rest {
                Some(b) => if b.1 <= t {
                    rest
                } else {
                    Some((s.len() - 1, t))
                },
                None => Some((s.len() - 1, t)),
            },
        }
    }
}

/// What `closest_in` reports is a hit no farther than any other, and
/// strictly nearer than every hit before it; it reports nothing only when
/// no sphere is hit.
pub proof fn lemma_closest_is_nearest(s: Seq<Sphere>, ray: RayModel)
    ensures
        match closest_in(s, ray) {
            None => forall|j: int| 0 <= j < s.len() ==> hit_distance(#[trigger] s[j]@, ray) is None,
            Some(b) => {
                &&& 0 <= b.0 < s.len()
                &&& hit_distance(s[b.0]@, ray) == Some(b.1)
                &&& forall|j: int|
                    0 <= j < s.len() && #[trigger] hit_distance(s[j]@, ray) is Some ==> b.1
                        <= hit_distance(s[j]@, ray)->0 && (j < b.0 ==> b.1 < hit_distance(
                        s[j]@,
                        ray,
                    )->0)
            },
        },
    decreases s.len(),
{
    if s.len() > 0 {
        let p = s.drop_last();
        lemma_closest_is_nearest(p, ray);
        assert forall|j: int| 0 <= j < p.len() implies p[j] == s[j] by {}
    }
}

/// Two scenes that hold the same spheres, in whatever order, agree on
/// whether the ray hits and at what distance; where no two different
/// spheres are hit at the same distance they also agree on the sphere.
pub proof fn lemma_closest_order_free(a: Seq<Sphere>, b: Seq<Sphere>, ray: RayModel)
    requires
        forall|x: Sphere| a.contains(x) <==> b.contains(x),
    ensures
        match (closest_in(a, ray), closest_in(b, ray)) {
            (None, None) => true,
            (Some(x), Some(y)) => x.1 == y.1 && (distinct_hits(a, ray) ==> a[x.0] == b[y.0]),
            _ => false,
        },
{
    lemma_closest_is_nearest(a, ray);
    lemma_closest_is_nearest(b, ray);
    match closest_in(a, ray) {
        None => {
            if let Some(bb) = closest_in(b, ray) {
                assert(a.contains(b[bb.0]));
                let k = choose|k: int| 0 <= k < a.len() && a[k] == b[bb.0];
                assert(hit_distance(a[k]@, ray) is None);
            }
        },
        Some(ba) => {
            assert(b.contains(a[ba.0]));
            let k = choose|k: int| 0 <= k < b.len() && b[k] == a[ba.0];
            assert(hit_distance(b[k]@, ray) is Some);
            let bb = closest_in(b, ray)->0;
            assert(a.contains(b[bb.0]));
            let m = choose|m: int| 0 <= m < a.len() && a[m] == b[bb.0];
            assert(hit_distance(a[m]@, ray) is Some);
            assert(ba.1 <= bb.1);
            assert(bb.1 <= ba.1);
        },
    }
}

/// No two different spheres of the sequence are hit at the same distance.
pub open spec fn distinct_hits(s: Seq<Sphere>, ray: RayModel) -> bool {
    forall|i: int, j: int|
        0 <= i < s.len() && 0 <= j < s.len() && #[trigger] hit_distance(s[i]@, ray) is Some
            && hit_distance(s[i]@, ray) == #[trigger] hit_distance(s[j]@, ray) ==> s[i] == s[j]
}

/// The nearest sphere of the scene that the ray hits, by index, with its
/// distance.
pub fn closest_intersection(scene: &Scene, ray: &Ray) -> (r: Option<(usize, i64)>)
    requires
        scene.wf(),
        ray@.wf(),
    ensures
        match r {
            Some((i, t)) => closest_in(scene.spheres@, ray@) == Some((i as int, t as int))
                && -DIST_LIMIT <= t <= DIST_LIMIT,
            None => closest_in(scene.spheres@, ray@) is None,
        },
{
    let mut best: Option<(usize, i64)> = None;
    let mut k: usize = 0;
    while k < scene.spheres.len()
        invariant
            k <= scene.spheres@.len(),
            scene.wf(),
            ray@.wf(),
            match best {
                Some((i, t)) => closest_in(scene.spheres@.subrange(0, k as int), ray@) == Some(
                    (i as int, t as int),
                ) && -DIST_LIMIT <= t <= DIST_LIMIT,
                None => closest_in(scene.spheres@.subrange(0, k as int), ray@) is None,
            },
        decreases scene.spheres@.len() - k,
    {
        let s = &scene.spheres[k];
        proof {
            assert(scene.spheres@[k as int]@.wf());
        }
        let hit = s.intersects(ray);
        proof {
            let pre = scene.spheres@.subrange(0, k as int + 1);
            assert(pre.drop_last() =~= scene.spheres@.subrange(0, k as int));
            assert(pre.last() == scene.spheres@[k as int]);
        }
        match hit {
            None => {},
            Some(t) => {
                let nearer = match best {
                    Some((_, bt)) => t < bt,
                    None => true,
                };
                if nearer {
                    best = Some((k, t));
                }
            },
        }
        k = k + 1;
    }
    proof {
        assert(scene.spheres@.subrange(0, scene.spheres@.len() as int) =~= scene.spheres@);
    }
    best
}

} // verus!
