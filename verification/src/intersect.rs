//! Choosing the distance at which a ray meets a primitive, and the primitive
//! that a ray meets first.
//!
//! The roots of the ray/sphere quadratic are computed elsewhere; everything
//! here depends only on how they compare.

use vstd::prelude::*;
use crate::scalar::Scalar;

verus! {

/// Bit pattern of the minimum distance at which a scattered ray may hit
/// again, 0.001: nearer hits are the surface the ray has just left.
pub const SHADOW_EPSILON_BITS: u32 = 0x3a83_126f;

/// The solved quadratic of one ray against one sphere, in the half-angle
/// form: `near = (h - sqrt(discriminant)) / a`, `far = (h + sqrt(discriminant)) / a`.
#[derive(Clone, Copy, Debug, PartialEq, Eq, Structural)]
pub struct Roots {
    pub discriminant: Scalar,
    pub near: Scalar,
    pub far: Scalar,
}

/// Where a ray meets the scene first.
#[derive(Clone, Copy, Debug, PartialEq, Eq, Structural)]
pub struct Hit {
    /// Index of the primitive in the scene.
    pub primitive: usize,
    /// Parametric distance along the ray.
    pub distance: Scalar,
}

/// `t` lies strictly between `t_min` and `t_max`, decided the way the two
/// rejections `t <= t_min` and `t_max <= t` decide it.
pub open spec fn inside(t: Scalar, t_min: Scalar, t_max: Scalar) -> bool {
    !t.at_most(t_min) && !t_max.at_most(t)
}

impl Roots {
    /// The ray's line does not meet the sphere.
    pub open spec fn misses(self) -> bool {
        self.discriminant.below(Scalar::zero())
    }

    /// Both roots are numbers and `near` does not exceed `far`.
    pub open spec fn ordered(self) -> bool {
        self.near.at_most(self.far)
    }

    /// The near root wherever it lies, absent only when the line misses.
    pub open spec fn nearest(self) -> Option<Scalar> {
        if self.misses() {
            None
        } else {
            Some(self.near)
        }
    }

    /// The near root if it is inside the interval, else the far root if that
    /// one is, else nothing.
    pub open spec fn first_inside(self, t_min: Scalar, t_max: Scalar) -> Option<Scalar> {
        if self.misses() {
            None
        } else if inside(self.near, t_min, t_max) {
            Some(self.near)
        } else if inside(self.far, t_min, t_max) {
            Some(self.far)
        } else {
            None
        }
    }

    /// Distance of the intersection inside the open interval `(t_min, t_max)`,
    /// the nearer one first.
    pub fn hit(&self, t_min: Scalar, t_max: Scalar) -> (distance: Option<Scalar>)
        ensures
            distance == self.first_inside(t_min, t_max),
    {
        if self.discriminant.lt(Scalar::zero()) {
            return None;
        }
        let mut root = self.near;
        if root.le(t_min) || t_max.le(root) {
            root = self.far;
            if root.le(t_min) || t_max.le(root) {
                return None;
            }
        }
        Some(root)
    }

    /// Distance of the near intersection with no interval applied.
    pub fn hit_naive2(&self) -> (distance: Option<Scalar>)
        ensures
            distance == self.nearest(),
    {
        if self.discriminant.lt(Scalar::zero()) {
            return None;
        }
        Some(self.near)
    }
}

/// Whether a ray reaches the surface from the side into which the normal
/// points, decided from the dot product of the ray's direction and the
/// outward normal. The normal itself is never turned round.
pub fn front_face(direction_dot_normal: Scalar) -> (front: bool)
    ensures
        front == direction_dot_normal.below(Scalar::zero()),
{
    direction_dot_normal.lt(Scalar::zero())
}

/// The upper end of the interval in which the next primitive is tested: the
/// closest distance found so far, or infinity.
pub open spec fn reach(found: Option<Hit>) -> Scalar {
    match found {
        Some(hit) => hit.distance,
        None => Scalar::infinity(),
    }
}

/// The hit kept after testing the candidates in order, each inside
/// `(t_min, reach)` of what the earlier ones left.
pub open spec fn closest_among(candidates: Seq<Roots>, t_min: Scalar) -> Option<Hit>
    decreases candidates.len(),
{
    if candidates.len() == 0 {
        None
    } else {
        let earlier = closest_among(candidates.drop_last(), t_min);
        match candidates.last().first_inside(t_min, reach(earlier)) {
            Some(distance) => Some(
                Hit { primitive: (candidates.len() - 1) as usize, distance },
            ),
            None => earlier,
        }
    }
}

/// Scans the scene for the nearest hit beyond `t_min`. `candidates[i]` holds
/// the roots of the ray against primitive `i`.
pub fn closest_hit(candidates: &Vec<Roots>, t_min: Scalar) -> (found: Option<Hit>)
    ensures
        found == closest_among(candidates@, t_min),
{
    let mut found: Option<Hit> = None;
    let mut i: usize = 0;
    while i < candidates.len()
        invariant
            i <= candidates.len(),
            found == closest_among(candidates@.take(i as int), t_min),
        decreases candidates.len() - i,
    {
        let t_max = match found {
            Some(hit) => hit.distance,
            None => Scalar::infinity(),
        };
        proof {
            assert(candidates@.take(i + 1).drop_last() == candidates@.take(i as int));
        }
        if let Some(distance) = candidates[i].hit(t_min, t_max) {
            found = Some(Hit { primitive: i, distance });
        }
        i += 1;
    }
    proof {
        assert(candidates@.take(i as int) == candidates@);
    }
    found
}

/// What a path does next.
#[derive(Clone, Copy, Debug, PartialEq, Eq, Structural)]
pub enum PathStep {
    /// The depth limit is reached: the path contributes black.
    Exhausted,
    /// The ray leaves the scene: the path ends in the background gradient.
    Background,
    /// The ray meets a primitive: its material scatters the ray and the path
    /// goes on with one bounce less.
    Scatter(Hit),
}

/// The step that `path_step` takes.
pub open spec fn step_of(candidates: Seq<Roots>, depth: usize) -> PathStep {
    if depth == 0 {
        PathStep::Exhausted
    } else {
        match closest_among(candidates, Scalar { bits: SHADOW_EPSILON_BITS }) {
            Some(hit) => PathStep::Scatter(hit),
            None => PathStep::Background,
        }
    }
}

/// Decides one level of the recursive colour computation for a ray whose
/// roots against each primitive are `candidates`, with `depth` bounces left.
pub fn path_step(candidates: &Vec<Roots>, depth: usize) -> (step: PathStep)
    ensures
        step == step_of(candidates@, depth),
{
    if depth == 0 {
        return PathStep::Exhausted;
    }
    match closest_hit(candidates, Scalar::from_bits(SHADOW_EPSILON_BITS)) {
        Some(hit) => PathStep::Scatter(hit),
        None => PathStep::Background,
    }
}

/// Every case's hit over the whole number line, `rounds` times in a row: the
/// workload of a timing run.
pub fn hit(cases: &Vec<Roots>, rounds: usize) -> (distances: Vec<Option<Scalar>>)
    ensures
        distances@.len() == rounds * cases@.len(),
        forall|round: int, i: int|
            0 <= round < rounds && 0 <= i < cases@.len() ==> #[trigger] distances@[round
                * cases@.len() + i] == cases@[i].first_inside(
                Scalar::neg_infinity(),
                Scalar::infinity(),
            ),
{
    let mut distances: Vec<Option<Scalar>> = Vec::new();
    let n: usize = cases.len();
    let mut round: usize = 0;
    while round < rounds
        invariant
            n == cases@.len(),
            round <= rounds,
            distances@.len() == round * n,
            forall|r: int, i: int|
                0 <= r < round && 0 <= i < n ==> #[trigger] distances@[r * n + i]
                    == cases@[i].first_inside(Scalar::neg_infinity(), Scalar::infinity()),
        decreases rounds - round,
    {
        let mut i: usize = 0;
        while i < n
            invariant
                n == cases@.len(),
                i <= n,
                round < rounds,
                distances@.len() == round * n + i,
                forall|r: int, j: int|
                    0 <= r < round && 0 <= j < n ==> #[trigger] distances@[r * n + j]
                        == cases@[j].first_inside(Scalar::neg_infinity(), Scalar::infinity()),
                forall|j: int|
                    0 <= j < i ==> #[trigger] distances@[round * n + j] == cases@[j].first_inside(
                        Scalar::neg_infinity(),
                        Scalar::infinity(),
                    ),
            decreases n - i,
        {
            let distance = cases[i].hit(Scalar::neg_infinity(), Scalar::infinity());
            proof {
                lemma_slot_order(round as int, n as int);
            }
            distances.push(distance);
            i += 1;
        }
        proof {
            lemma_next_round(round as int, n as int);
        }
        round += 1;
    }
    distances
}

/// Every case's near root, `rounds` times in a row: the workload of a timing
/// run.
pub fn hit_naive2_speed(cases: &Vec<Roots>, rounds: usize) -> (distances: Vec<Option<Scalar>>)
    ensures
        distances@.len() == rounds * cases@.len(),
        forall|round: int, i: int|
            0 <= round < rounds && 0 <= i < cases@.len() ==> #[trigger] distances@[round
                * cases@.len() + i] == cases@[i].nearest(),
{
    let mut distances: Vec<Option<Scalar>> = Vec::new();
    let n: usize = cases.len();
    let mut round: usize = 0;
    while round < rounds
        invariant
            n == cases@.len(),
            round <= rounds,
            distances@.len() == round * n,
            forall|r: int, i: int|
                0 <= r < round && 0 <= i < n ==> #[trigger] distances@[r * n + i]
                    == cases@[i].nearest(),
        decreases rounds - round,
    {
        let mut i: usize = 0;
        while i < n
            invariant
                n == cases@.len(),
                i <= n,
                round < rounds,
                distances@.len() == round * n + i,
                forall|r: int, j: int|
                    0 <= r < round && 0 <= j < n ==> #[trigger] distances@[r * n + j]
                        == cases@[j].nearest(),
                forall|j: int|
                    0 <= j < i ==> #[trigger] distances@[round * n + j] == cases@[j].nearest(),
            decreases n - i,
        {
            let distance = cases[i].hit_naive2();
            proof {
                lemma_slot_order(round as int, n as int);
            }
            distances.push(distance);
            i += 1;
        }
        proof {
            lemma_next_round(round as int, n as int);
        }
        round += 1;
    }
    distances
}

/// Slots of earlier rounds lie before the slots of round `round`.
proof fn lemma_slot_order(round: int, n: int)
    requires
        0 <= round,
        0 <= n,
    ensures
        forall|r: int, j: int| 0 <= r < round && 0 <= j < n ==> 0 <= #[trigger] (r * n + j) < round * n,
{
    assert forall|r: int, j: int| 0 <= r < round && 0 <= j < n implies 0 <= #[trigger] (r * n + j)
        < round * n by {
        assert(r * n + n == (r + 1) * n) by (nonlinear_arith);
        assert((r + 1) * n <= round * n) by (nonlinear_arith)
            requires
                r + 1 <= round,
                0 <= n,
        ;
        assert(0 <= r * n) by (nonlinear_arith)
            requires
                0 <= r,
                0 <= n,
        ;
    }
}

/// The slot after the last one of a round is the first of the next.
proof fn lemma_next_round(round: int, n: int)
    ensures
        round * n + n == (round + 1) * n,
{
    assert(round * n + n == (round + 1) * n) by (nonlinear_arith);
}

/// A ray that passes through a sphere at `near` and `far`, with `near`
/// strictly inside the interval, is hit at `near`, and the plain quadratic
/// formula gives the same distance.
pub proof fn lemma_hit_is_near_root(roots: Roots, t_min: Scalar, t_max: Scalar)
    requires
        !roots.misses(),
        inside(roots.near, t_min, t_max),
    ensures
        roots.first_inside(t_min, t_max) == Some(roots.near),
        roots.first_inside(t_min, t_max) == roots.nearest(),
{
}

/// Among numbers, `inside` is the open interval: above `t_min` and below
/// `t_max`.
pub proof fn lemma_inside_is_between(t: Scalar, t_min: Scalar, t_max: Scalar)
    requires
        !t.nan(),
        !t_min.nan(),
        !t_max.nan(),
    ensures
        inside(t, t_min, t_max) <==> t_min.below(t) && t.below(t_max),
{
}

/// Whatever the interval, a hit is one of the two roots, lies strictly
/// inside the interval, and is the far root only when the near one is
/// outside.
pub proof fn lemma_hit_inside_interval(roots: Roots, t_min: Scalar, t_max: Scalar)
    ensures
        match roots.first_inside(t_min, t_max) {
            Some(distance) => {
                &&& !roots.misses()
                &&& inside(distance, t_min, t_max)
                &&& distance == roots.near || (distance == roots.far && !inside(
                    roots.near,
                    t_min,
                    t_max,
                ))
            },
            None => roots.misses() || (!inside(roots.near, t_min, t_max) && !inside(
                roots.far,
                t_min,
                t_max,
            )),
        },
{
}

/// The scan finds nothing exactly when no primitive on its own is hit
/// beyond `t_min`.
pub proof fn lemma_no_hit_iff_all_miss(candidates: Seq<Roots>, t_min: Scalar)
    ensures
        closest_among(candidates, t_min) is None <==> forall|i: int|
            0 <= i < candidates.len() ==> (#[trigger] candidates[i]).first_inside(
                t_min,
                Scalar::infinity(),
            ) is None,
    decreases candidates.len(),
{
    if candidates.len() > 0 {
        let init = candidates.drop_last();
        lemma_no_hit_iff_all_miss(init, t_min);
        assert forall|i: int| 0 <= i < init.len() implies init[i] == candidates[i] by {}
        if closest_among(init, t_min) is None {
            if candidates.last().first_inside(t_min, Scalar::infinity()) is None {
                assert forall|i: int| 0 <= i < candidates.len() implies (
                #[trigger] candidates[i]).first_inside(t_min, Scalar::infinity()) is None by {
                    if i < init.len() {
                        assert(init[i] == candidates[i]);
                    }
                }
            }
        } else {
            let i = choose|i: int|
                0 <= i < init.len() && !((#[trigger] init[i]).first_inside(
                    t_min,
                    Scalar::infinity(),
                ) is None);
            assert(init[i] == candidates[i]);
        }
    }
}

/// A ray that no primitive meets beyond the minimum distance ends in the
/// background, at every depth but zero; with no bounce left it is exhausted.
pub proof fn lemma_miss_is_background(candidates: Seq<Roots>, depth: usize)
    requires
        forall|i: int|
            0 <= i < candidates.len() ==> (#[trigger] candidates[i]).first_inside(
                Scalar { bits: SHADOW_EPSILON_BITS },
                Scalar::infinity(),
            ) is None,
    ensures
        depth > 0 ==> step_of(candidates, depth) == PathStep::Background,
        depth == 0 ==> step_of(candidates, depth) == PathStep::Exhausted,
{
    lemma_no_hit_iff_all_miss(candidates, Scalar { bits: SHADOW_EPSILON_BITS });
}

/// With roots that are numbers in order, the scan returns the closest hit of
/// the whole scene: the distance at which its primitive is hit on its own, no
/// farther than any other primitive's hit, and strictly nearer than the hit of
/// every primitive before it.
pub proof fn lemma_closest_is_nearest(candidates: Seq<Roots>, t_min: Scalar)
    requires
        candidates.len() <= usize::MAX,
        forall|i: int| 0 <= i < candidates.len() ==> (#[trigger] candidates[i]).ordered(),
    ensures
        match closest_among(candidates, t_min) {
            Some(hit) => {
                &&& hit.primitive < candidates.len()
                &&& candidates[hit.primitive as int].first_inside(t_min, Scalar::infinity())
                    == Some(hit.distance)
                &&& forall|j: int|
                    0 <= j < candidates.len() ==> match (#[trigger] candidates[j]).first_inside(
                        t_min,
                        Scalar::infinity(),
                    ) {
                        Some(distance) => hit.distance.at_most(distance) && (j < hit.primitive
                            ==> hit.distance.below(distance)),
                        None => true,
                    }
            },
            None => forall|j: int|
                0 <= j < candidates.len() ==> (#[trigger] candidates[j]).first_inside(
                    t_min,
                    Scalar::infinity(),
                ) is None,
        },
    decreases candidates.len(),
{
    lemma_no_hit_iff_all_miss(candidates, t_min);
    if candidates.len() > 0 {
        let init = candidates.drop_last();
        let last = candidates.last();
        assert forall|i: int| 0 <= i < init.len() implies (#[trigger] init[i]).ordered() by {
            assert(init[i] == candidates[i]);
        }
        lemma_closest_is_nearest(init, t_min);
        let earlier = closest_among(init, t_min);
        assert(last == candidates[candidates.len() - 1]);
        assert(last.ordered());
        match earlier {
            Some(e) => {
                assert(init[e.primitive as int] == candidates[e.primitive as int]);
                match last.first_inside(t_min, e.distance) {
                    Some(d) => {
                        assert(last.first_inside(t_min, Scalar::infinity()) == Some(d));
                        assert forall|j: int| 0 <= j < candidates.len() implies match (
                        #[trigger] candidates[j]).first_inside(t_min, Scalar::infinity()) {
                            Some(distance) => d.at_most(distance) && (j < candidates.len() - 1
                                ==> d.below(distance)),
                            None => true,
                        } by {
                            if j < init.len() {
                                assert(init[j] == candidates[j]);
                            }
                        }
                    },
                    None => {
                        assert forall|j: int| 0 <= j < candidates.len() implies match (
                        #[trigger] candidates[j]).first_inside(t_min, Scalar::infinity()) {
                            Some(distance) => e.distance.at_most(distance) && (j < e.primitive
                                ==> e.distance.below(distance)),
                            None => true,
                        } by {
                            if j < init.len() {
                                assert(init[j] == candidates[j]);
                            }
                        }
                    },
                }
            },
            None => {
                assert forall|j: int| 0 <= j < init.len() implies (
                #[trigger] candidates[j]).first_inside(t_min, Scalar::infinity()) is None by {
                    assert(init[j] == candidates[j]);
                }
            },
        }
    }
}

} // verus!
