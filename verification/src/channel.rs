//! The channel boundary: states outside the channel are mirrored at its wall until they are
//! inside.

use vstd::prelude::*;
use crate::config::{BOUNDARY_REFLECTION_LIMIT, CHANNEL_NECK_PHASE, L_PERIOD};
use crate::double::Double;
use crate::formula::{
    atan_of, cos_of, floor_of, gives, lit, minus, nat_of, neg_of, num, over, plus, sin_of, times,
    Arithmetic, Calc, Expr, Term, FOUR, MINUS_ONE, ONE, PI, QUARTER, TAU, TWO,
};

verus! {

/// Corrections of the foot of a perpendicular at most.
pub const NEWTON_STEPS: usize = 5;

/// The pattern of 1e-10, the size below which a correction of the foot ends the search.
pub const NEWTON_EPSILON_BITS: u64 = 0x3ddb_7cdf_d9d7_bdbb;

/// The two walls of the channel.
#[derive(Clone, Copy, Debug, PartialEq, Eq, Structural)]
pub enum Wall {
    Upper,
    Lower,
}

/// Position and angle of the rod.
#[derive(Clone, Copy, Debug, PartialEq, Eq, Structural)]
pub struct Pose {
    pub x: Double,
    pub y: Double,
    pub phi: Double,
}

/// A state that was mirrored into the channel.
#[derive(Clone, Copy, Debug)]
pub struct BoundaryCorrectedState {
    pub x: Double,
    pub y: Double,
    pub phi: Double,
    /// Whether it was mirrored at all.
    pub reflected: bool,
}

impl BoundaryCorrectedState {
    /// The state without the mark.
    pub open spec fn pose(self) -> Pose {
        Pose { x: self.x, y: self.y, phi: self.phi }
    }
}

// ---- The shape of the channel ----

/// The bits of 1.12.
pub const MEAN_WIDTH: u64 = 0x3ff1_eb85_1eb8_51ec;

/// The phase of a place.
pub open spec fn phase_of(x: Double) -> Expr {
    times(lit(TAU), num(x))
}

/// Half the width of the channel: sin 2πx + sin(4πx) / 4 + 1.12.
pub open spec fn omega_of(x: Double) -> Expr {
    plus(
        plus(
            sin_of(phase_of(x)),
            times(lit(QUARTER), sin_of(times(lit(TWO), phase_of(x)))),
        ),
        lit(MEAN_WIDTH),
    )
}

/// The slope of the upper wall: 2π cos 2πx + π cos 4πx.
pub open spec fn omega_derivative_of(x: Double) -> Expr {
    plus(
        times(lit(TAU), cos_of(phase_of(x))),
        times(lit(PI), cos_of(times(lit(TWO), phase_of(x)))),
    )
}

/// The square of 2π.
pub open spec fn four_pi_squared() -> Expr {
    times(times(lit(FOUR), lit(PI)), lit(PI))
}

/// The curvature term of the upper wall: -4π² sin 2πx - 4π² sin 4πx.
pub open spec fn omega_second_derivative_of(x: Double) -> Expr {
    minus(
        times(neg_of(four_pi_squared()), sin_of(phase_of(x))),
        times(four_pi_squared(), sin_of(times(lit(TWO), phase_of(x)))),
    )
}

/// Whether `width` is half the width of the channel at `x`.
pub open spec fn omega_gives<K: Arithmetic>(k: &K, x: Double, width: Double) -> bool {
    gives(k, omega_of(x), width)
}

fn phase<K: Arithmetic>(c: &Calc<K>, x: Double) -> (t: Term)
    ensures
        t.of(c.k),
        t.expr@ == phase_of(x),
{
    c.times(c.lit(TAU), c.num(x))
}

fn omega_term<K: Arithmetic>(c: &Calc<K>, x: Double) -> (t: Term)
    ensures
        t.of(c.k),
        t.expr@ == omega_of(x),
{
    let a = phase(c, x);
    let second = c.times(c.lit(QUARTER), c.sin_of(c.times(c.lit(TWO), a)));
    c.plus(c.plus(c.sin_of(a), second), c.lit(MEAN_WIDTH))
}

fn omega_derivative_term<K: Arithmetic>(c: &Calc<K>, x: Double) -> (t: Term)
    ensures
        t.of(c.k),
        t.expr@ == omega_derivative_of(x),
{
    let a = phase(c, x);
    let second = c.times(c.lit(PI), c.cos_of(c.times(c.lit(TWO), a)));
    c.plus(c.times(c.lit(TAU), c.cos_of(a)), second)
}

fn omega_second_derivative_term<K: Arithmetic>(c: &Calc<K>, x: Double) -> (t: Term)
    ensures
        t.of(c.k),
        t.expr@ == omega_second_derivative_of(x),
{
    let a = phase(c, x);
    let factor = c.times(c.times(c.lit(FOUR), c.lit(PI)), c.lit(PI));
    let first = c.times(c.neg_of(factor), c.sin_of(a));
    c.minus(first, c.times(factor, c.sin_of(c.times(c.lit(TWO), a))))
}

/// Half the width of the channel.
pub fn omega<K: Arithmetic>(k: &K, x: Double) -> (width: Double)
    ensures
        omega_gives(k, x, width),
{
    omega_term(&Calc::new(k), x).value
}

/// The slope of the upper wall.
pub fn omega_derivative<K: Arithmetic>(k: &K, x: Double) -> (slope: Double)
    ensures
        gives(k, omega_derivative_of(x), slope),
{
    omega_derivative_term(&Calc::new(k), x).value
}

/// The curvature term of the upper wall.
pub fn omega_second_derivative<K: Arithmetic>(k: &K, x: Double) -> (curvature: Double)
    ensures
        gives(k, omega_second_derivative_of(x), curvature),
{
    omega_second_derivative_term(&Calc::new(k), x).value
}

/// Whether a section of the channel is the bulge that `anchor_x` lies in: from one neck to the
/// next.
pub open spec fn channel_section_bounds_gives<K: Arithmetic>(
    k: &K,
    anchor_x: Double,
    section: (Double, Double),
) -> bool {
    &&& gives(
        k,
        plus(
            floor_of(minus(num(anchor_x), lit(CHANNEL_NECK_PHASE))),
            lit(CHANNEL_NECK_PHASE),
        ),
        section.0,
    )
    &&& gives(k, plus(num(section.0), lit(L_PERIOD)), section.1)
}

/// The bulge of the channel that `anchor_x` lies in.
pub fn channel_section_bounds<K: Arithmetic>(k: &K, anchor_x: Double) -> (section: (
    Double,
    Double,
))
    ensures
        channel_section_bounds_gives(k, anchor_x, section),
{
    let c = Calc::new(k);
    let neck = c.lit(CHANNEL_NECK_PHASE);
    let low = c.plus(c.floor_of(c.minus(c.num(anchor_x), neck)), neck).value;
    let high = c.plus(c.num(low), c.lit(L_PERIOD)).value;
    (low, high)
}

impl Wall {
    /// The bits of 1 for the upper wall, and of -1 for the lower one.
    pub open spec fn sign_bits(self) -> u64 {
        match self {
            Wall::Upper => ONE,
            Wall::Lower => MINUS_ONE,
        }
    }

    fn sign(self) -> (bits: u64)
        ensures
            bits == self.sign_bits(),
    {
        match self {
            Wall::Upper => ONE,
            Wall::Lower => MINUS_ONE,
        }
    }
}

/// How far a wall at `x` is above a point.
pub open spec fn wall_gap(py: Double, wall: Wall, x: Double) -> Expr {
    minus(omega_of(x), times(lit(wall.sign_bits()), num(py)))
}

/// The step of Newton's method for the foot of the perpendicular from a point to a wall.
pub open spec fn newton_delta_of(px: Double, py: Double, wall: Wall, x: Double) -> Expr {
    over(
        minus(
            plus(times(omega_derivative_of(x), wall_gap(py, wall, x)), num(x)),
            num(px),
        ),
        plus(
            plus(
                times(omega_second_derivative_of(x), wall_gap(py, wall, x)),
                times(omega_derivative_of(x), omega_derivative_of(x)),
            ),
            lit(ONE),
        ),
    )
}

/// Whether `d` is the correction of a foot.
pub open spec fn wall_foot_newton_delta_gives<K: Arithmetic>(
    k: &K,
    px: Double,
    py: Double,
    wall: Wall,
    x: Double,
    d: Double,
) -> bool {
    gives(k, newton_delta_of(px, py, wall, x), d)
}

/// The correction that brings `x` nearer to the foot of the perpendicular from a point to a wall.
pub fn wall_foot_newton_delta<K: Arithmetic>(
    k: &K,
    px: Double,
    py: Double,
    wall: Wall,
    x: Double,
) -> (d: Double)
    ensures
        wall_foot_newton_delta_gives(k, px, py, wall, x, d),
{
    let c = Calc::new(k);
    let gap = c.minus(omega_term(&c, x), c.times(c.lit(wall.sign()), c.num(py)));
    let slope = omega_derivative_term(&c, x);
    let curvature = omega_second_derivative_term(&c, x);
    let upper = c.minus(c.plus(c.times(slope, gap), c.num(x)), c.num(px));
    let lower = c.plus(c.plus(c.times(curvature, gap), c.times(slope, slope)), c.lit(ONE));
    c.over(upper, lower).value
}

/// Whether `image` is the mirror image of a pose at the tangent of a wall in the point above
/// `foot_x`: the position is mirrored at that point, the angle at the tangent.
pub open spec fn mirror_at_foot_gives<K: Arithmetic>(
    k: &K,
    pose: Pose,
    wall: Wall,
    foot_x: Double,
    image: Pose,
) -> bool {
    &&& gives(k, minus(times(lit(TWO), num(foot_x)), num(pose.x)), image.x)
    &&& gives(
        k,
        minus(
            times(lit(TWO), times(lit(wall.sign_bits()), omega_of(foot_x))),
            num(pose.y),
        ),
        image.y,
    )
    &&& gives(
        k,
        minus(
            times(
                lit(TWO),
                atan_of(times(lit(wall.sign_bits()), omega_derivative_of(foot_x))),
            ),
            num(pose.phi),
        ),
        image.phi,
    )
}

/// The mirror image of a pose at the tangent of a wall in the point above `foot_x`.
pub fn mirror_at_foot<K: Arithmetic>(k: &K, pose: Pose, wall: Wall, foot_x: Double) -> (image: Pose)
    ensures
        mirror_at_foot_gives(k, pose, wall, foot_x, image),
{
    let c = Calc::new(k);
    let sign = c.lit(wall.sign());
    let two = c.lit(TWO);
    let foot_y = c.times(sign, omega_term(&c, foot_x));
    let slope = c.times(sign, omega_derivative_term(&c, foot_x));
    Pose {
        x: c.minus(c.times(two, c.num(foot_x)), c.num(pose.x)).value,
        y: c.minus(c.times(two, foot_y), c.num(pose.y)).value,
        phi: c.minus(c.times(two, c.atan_of(slope)), c.num(pose.phi)).value,
    }
}

/// Whether `height` is the height of the upper wall at a wall point.
pub open spec fn wall_sample_gives<K: Arithmetic>(
    k: &K,
    index: usize,
    wall_dx: Double,
    height: Double,
) -> bool {
    exists|x: Double| #[trigger]
        gives(k, times(nat_of(index as u64), num(wall_dx)), x) && omega_gives(k, x, height)
}

/// The height of the upper wall at a wall point.
pub fn wall_sample<K: Arithmetic>(k: &K, index: usize, wall_dx: Double) -> (height: Double)
    ensures
        wall_sample_gives(k, index, wall_dx, height),
{
    let c = Calc::new(k);
    let x = c.times(c.nat_of(index as u64), c.num(wall_dx)).value;
    assert(gives(k, times(nat_of(index as u64), num(wall_dx)), x));
    omega(k, x)
}

// ---- Inside and outside ----

/// The wall that a point at height `y` lies beyond, where the channel is `width` wide on each
/// side.
pub open spec fn wall_crossed(y: Double, width: Double) -> Option<Wall> {
    if width.below(y) {
        Some(Wall::Upper)
    } else if y.below(width.negated()) {
        Some(Wall::Lower)
    } else {
        None
    }
}

/// The wall that a point at height `y` lies beyond.
pub fn boundary_wall_sign(y: Double, width: Double) -> (wall: Option<Wall>)
    ensures
        wall == wall_crossed(y, width),
{
    if width.lt(y) {
        Some(Wall::Upper)
    } else if y.lt(width.neg()) {
        Some(Wall::Lower)
    } else {
        None
    }
}

/// A point that lies beyond a wall lies beyond one only, and a point is inside exactly when its
/// distance from the middle is not above the width, or the two cannot be compared.
pub proof fn law_wall_crossed(y: Double, width: Double)
    requires
        !y.nan(),
        !width.nan(),
        0 <= width.value(),
    ensures
        wall_crossed(y, width) == Some(Wall::Upper) <==> y.value() > width.value(),
        wall_crossed(y, width) == Some(Wall::Lower) <==> y.value() < -width.value(),
        wall_crossed(y, width) is None <==> -width.value() <= y.value() <= width.value(),
{
}

// ---- The foot of the perpendicular ----

/// The size below which a correction ends the search.
pub open spec fn newton_epsilon() -> Double {
    Double { bits: NEWTON_EPSILON_BITS }
}

/// Whether a correction is large enough to be applied.
pub open spec fn worth_correcting(d: Double) -> bool {
    newton_epsilon().below(d.absolute())
}

/// Whether the search goes from `x` to `next`.
pub open spec fn foot_corrected<K: Arithmetic>(
    k: &K,
    pose: Pose,
    wall: Wall,
    low: Double,
    high: Double,
    x: Double,
    next: Double,
) -> bool {
    exists|d: Double, moved: Double|
        {
            &&& #[trigger] wall_foot_newton_delta_gives(k, pose.x, pose.y, wall, x, d)
            &&& worth_correcting(d)
            &&& #[trigger] gives(k, minus(num(x), num(d)), moved)
            &&& next == moved.clamped(low, high)
        }
}

/// Whether the search ends at `x` because its correction is too small.
pub open spec fn foot_settled<K: Arithmetic>(k: &K, pose: Pose, wall: Wall, x: Double) -> bool {
    exists|d: Double|
        {
            &&& #[trigger] wall_foot_newton_delta_gives(k, pose.x, pose.y, wall, x, d)
            &&& !worth_correcting(d)
        }
}

/// A search for the foot: it starts at the anchor, is corrected step by step inside the section,
/// and ends when a correction is too small or after the last step.
pub open spec fn foot_search<K: Arithmetic>(
    k: &K,
    pose: Pose,
    wall: Wall,
    anchor_x: Double,
    low: Double,
    high: Double,
    steps: Seq<Double>,
) -> bool {
    &&& 1 <= steps.len() <= NEWTON_STEPS + 1
    &&& steps[0] == anchor_x.clamped(low, high)
    &&& forall|i: int|
        0 <= i < steps.len() - 1 ==> foot_corrected(
            k,
            pose,
            wall,
            low,
            high,
            #[trigger] steps[i],
            steps[i + 1],
        )
    &&& steps.len() == NEWTON_STEPS + 1 || foot_settled(k, pose, wall, steps.last())
}

/// Searches the foot of the perpendicular from a point to a wall, inside a section of the channel.
pub fn perpendicular_foot_x<K: Arithmetic>(
    k: &K,
    pose: Pose,
    wall: Wall,
    anchor_x: Double,
    low: Double,
    high: Double,
) -> (foot_x: Double)
    ensures
        exists|steps: Seq<Double>| #[trigger]
            foot_search(k, pose, wall, anchor_x, low, high, steps) && foot_x == steps.last(),
        low.at_most(high) && !foot_x.nan() ==> low.at_most(foot_x) && foot_x.at_most(high),
{
    let c = Calc::new(k);
    let mut x = anchor_x.clamp(low, high);
    let ghost mut steps: Seq<Double> = seq![x];
    let mut count: usize = 0;
    while count < NEWTON_STEPS
        invariant
            c.k == k,
            count <= NEWTON_STEPS,
            steps.len() == count + 1,
            steps.last() == x,
            steps[0] == anchor_x.clamped(low, high),
            forall|i: int|
                0 <= i < steps.len() - 1 ==> foot_corrected(
                    k,
                    pose,
                    wall,
                    low,
                    high,
                    #[trigger] steps[i],
                    steps[i + 1],
                ),
            low.at_most(high) && !x.nan() ==> low.at_most(x) && x.at_most(high),
        decreases NEWTON_STEPS - count,
    {
        let d = wall_foot_newton_delta(k, pose.x, pose.y, wall, x);
        assert(wall_foot_newton_delta_gives(k, pose.x, pose.y, wall, x, d));
        if !(Double { bits: NEWTON_EPSILON_BITS }).lt(d.abs()) {
            assert(foot_settled(k, pose, wall, x));
            assert(foot_search(k, pose, wall, anchor_x, low, high, steps));
            return x;
        }
        let moved = c.minus(c.num(x), c.num(d)).value;
        assert(gives(k, minus(num(x), num(d)), moved));
        let next = moved.clamp(low, high);
        proof {
            assert(foot_corrected(k, pose, wall, low, high, x, next));
            steps = steps.push(next);
        }
        x = next;
        count = count + 1;
    }
    assert(foot_search(k, pose, wall, anchor_x, low, high, steps));
    x
}

// ---- Reflection ----

/// Whether `image` is the mirror image of `pose` at a wall, in the foot that a search from
/// `anchor_x` found.
pub open spec fn mirrored<K: Arithmetic>(
    k: &K,
    pose: Pose,
    wall: Wall,
    anchor_x: Double,
    image: Pose,
) -> bool {
    exists|section: (Double, Double), steps: Seq<Double>|
        {
            &&& #[trigger] channel_section_bounds_gives(k, anchor_x, section)
            &&& #[trigger] foot_search(k, pose, wall, anchor_x, section.0, section.1, steps)
            &&& mirror_at_foot_gives(k, pose, wall, steps.last(), image)
        }
}

/// Whether a pose lies beyond a wall and `next` is its mirror image there.
pub open spec fn reflected_once<K: Arithmetic>(
    k: &K,
    anchor_x: Double,
    pose: Pose,
    next: Pose,
) -> bool {
    exists|width: Double|
        {
            &&& #[trigger] omega_gives(k, pose.x, width)
            &&& wall_crossed(pose.y, width) matches Some(wall)
            &&& mirrored(k, pose, wall, anchor_x, next)
        }
}

/// Whether a pose lies inside the channel.
pub open spec fn inside<K: Arithmetic>(k: &K, pose: Pose) -> bool {
    exists|width: Double|
        #[trigger] omega_gives(k, pose.x, width) && wall_crossed(pose.y, width) is None
}

/// The way of a pose into the channel: it is mirrored while it lies beyond a wall, and ends inside
/// or after the last reflection.
pub open spec fn reflection_path<K: Arithmetic>(
    k: &K,
    anchor_x: Double,
    path: Seq<Pose>,
) -> bool {
    &&& 1 <= path.len() <= BOUNDARY_REFLECTION_LIMIT + 1
    &&& forall|i: int|
        0 <= i < path.len() - 1 ==> reflected_once(k, anchor_x, #[trigger] path[i], path[i + 1])
    &&& path.len() == BOUNDARY_REFLECTION_LIMIT + 1 || inside(k, path.last())
}

/// Whether a state comes out of the reflection of `start`.
#[verifier::opaque]
pub open spec fn reflection_outcome<K: Arithmetic>(
    k: &K,
    start: Pose,
    anchor_x: Double,
    state: BoundaryCorrectedState,
) -> bool {
    exists|path: Seq<Pose>|
        {
            &&& #[trigger] reflection_path(k, anchor_x, path)
            &&& path[0] == start
            &&& path.last() == state.pose()
            &&& state.reflected == (path.len() > 1)
        }
}

/// Mirrors a state once, at the given wall.
pub fn reflect_state_at_wall<K: Arithmetic>(
    k: &K,
    pose: Pose,
    wall: Wall,
    anchor_x: Double,
) -> (image: Pose)
    ensures
        mirrored(k, pose, wall, anchor_x, image),
{
    let section = channel_section_bounds(k, anchor_x);
    assert(channel_section_bounds_gives(k, anchor_x, section));
    let foot_x = perpendicular_foot_x(k, pose, wall, anchor_x, section.0, section.1);
    mirror_at_foot(k, pose, wall, foot_x)
}

/// Brings a state back into the channel by reflections at its walls; the feet are searched from
/// `anchor_x`, where the rod came from.
pub fn reflect_state_into_channel<K: Arithmetic>(
    k: &K,
    x: Double,
    y: Double,
    phi: Double,
    anchor_x: Double,
) -> (state: BoundaryCorrectedState)
    ensures
        reflection_outcome(k, Pose { x, y, phi }, anchor_x, state),
{
    reveal(reflection_outcome);
    let start = Pose { x, y, phi };
    let mut pose = start;
    let mut reflected = false;
    let ghost mut path: Seq<Pose> = seq![start];
    let mut count: usize = 0;
    while count < BOUNDARY_REFLECTION_LIMIT
        invariant
            count <= BOUNDARY_REFLECTION_LIMIT,
            path.len() == count + 1,
            path[0] == start,
            path.last() == pose,
            reflected == (count > 0),
            start == (Pose { x, y, phi }),
            forall|i: int|
                0 <= i < path.len() - 1 ==> reflected_once(
                    k,
                    anchor_x,
                    #[trigger] path[i],
                    path[i + 1],
                ),
        decreases BOUNDARY_REFLECTION_LIMIT - count,
    {
        let width = omega(k, pose.x);
        assert(omega_gives(k, pose.x, width));
        match boundary_wall_sign(pose.y, width) {
            None => {
                reveal(reflection_outcome);
                assert(inside(k, pose));
                assert(reflection_path(k, anchor_x, path));
                return BoundaryCorrectedState { x: pose.x, y: pose.y, phi: pose.phi, reflected };
            },
            Some(wall) => {
                let image = reflect_state_at_wall(k, pose, wall, anchor_x);
                proof {
                    assert(reflected_once(k, anchor_x, pose, image));
                    path = path.push(image);
                }
                pose = image;
                reflected = true;
            },
        }
        count = count + 1;
    }
    assert(reflection_path(k, anchor_x, path));
    BoundaryCorrectedState { x: pose.x, y: pose.y, phi: pose.phi, reflected }
}

/// A state that no width puts outside the channel is left as it is.
pub proof fn law_inside_state_stays<K: Arithmetic>(
    k: &K,
    start: Pose,
    anchor_x: Double,
    state: BoundaryCorrectedState,
)
    requires
        reflection_outcome(k, start, anchor_x, state),
        forall|width: Double|
            #[trigger] omega_gives(k, start.x, width) ==> wall_crossed(start.y, width)
                is None,
    ensures
        state.pose() == start,
        !state.reflected,
{
    reveal(reflection_outcome);
    let path = choose|path: Seq<Pose>|
        {
            &&& #[trigger] reflection_path(k, anchor_x, path)
            &&& path[0] == start
            &&& path.last() == state.pose()
            &&& state.reflected == (path.len() > 1)
        };
    if path.len() > 1 {
        assert(reflected_once(k, anchor_x, path[0], path[1]));
    }
}

/// A state comes out of the reflection inside the channel, unless it was mirrored as often as the
/// limit allows. One that was not mirrored is left as it is.
pub proof fn law_reflection_ends_inside<K: Arithmetic>(
    k: &K,
    start: Pose,
    anchor_x: Double,
    state: BoundaryCorrectedState,
)
    requires
        reflection_outcome(k, start, anchor_x, state),
    ensures
        !state.reflected ==> state.pose() == start && inside(k, start),
        inside(k, state.pose()) || exists|path: Seq<Pose>|
            {
                &&& #[trigger] reflection_path(k, anchor_x, path)
                &&& path[0] == start
                &&& path.last() == state.pose()
                &&& path.len() == BOUNDARY_REFLECTION_LIMIT + 1
            },
{
    reveal(reflection_outcome);
    let path = choose|path: Seq<Pose>|
        {
            &&& #[trigger] reflection_path(k, anchor_x, path)
            &&& path[0] == start
            &&& path.last() == state.pose()
            &&& state.reflected == (path.len() > 1)
        };
    assert(reflection_path(k, anchor_x, path));
}

// ---- Wall points ----

/// The heights of the upper wall at its points in one period. The lower wall is its mirror image.
pub fn wall_y_samples<K: Arithmetic>(k: &K, n_wall: usize, wall_dx: Double) -> (samples: Vec<
    Double,
>)
    ensures
        samples.len() == n_wall,
        forall|i: int|
            0 <= i < n_wall ==> wall_sample_gives(k, i as usize, wall_dx, #[trigger] samples@[i]),
{
    let mut samples: Vec<Double> = Vec::new();
    let mut i: usize = 0;
    while i < n_wall
        invariant
            i <= n_wall,
            samples.len() == i,
            forall|j: int|
                0 <= j < i ==> wall_sample_gives(k, j as usize, wall_dx, #[trigger] samples@[j]),
        decreases n_wall - i,
    {
        let sample = wall_sample(k, i, wall_dx);
        samples.push(sample);
        i = i + 1;
    }
    samples
}

/// The remainder that lies between 0 and the modulus, also for values below zero.
pub fn positive_mod(value: i64, modulus: i64) -> (r: i64)
    requires
        modulus > 0,
    ensures
        r == value as int % modulus as int,
        0 <= r < modulus,
{
    let r: i64 = value % modulus;
    proof {
        if value < 0 {
            let m = modulus as int;
            let a = -(value as int);
            let (quotient, rest) = (a / m, a % m);
            vstd::arithmetic::div_mod::lemma_fundamental_div_mod(a, m);
            assert(value == (-quotient) * m - rest && value == (-quotient - 1) * m + (m - rest))
                by (nonlinear_arith)
                requires
                    a == m * quotient + rest,
                    value == -a,
            ;
            if rest == 0 {
                vstd::arithmetic::div_mod::lemma_fundamental_div_mod_converse(
                    value as int,
                    m,
                    -quotient,
                    0,
                );
            } else {
                vstd::arithmetic::div_mod::lemma_fundamental_div_mod_converse(
                    value as int,
                    m,
                    -quotient - 1,
                    m - rest,
                );
            }
        }
    }
    if r < 0 {
        r + modulus
    } else {
        r
    }
}

/// The sample that holds the height of wall point `k`.
pub fn wall_index(k: i64, n_wall: usize) -> (index: usize)
    requires
        0 < n_wall <= i64::MAX,
    ensures
        index == k as int % n_wall as int,
        index < n_wall,
{
    positive_mod(k, n_wall as i64) as usize
}

/// Wall points one period apart share their sample.
pub proof fn law_wall_index_is_periodic(k: int, n_wall: int, periods: int)
    requires
        0 < n_wall,
    ensures
        (k + periods * n_wall) % n_wall == k % n_wall,
{
    vstd::arithmetic::div_mod::lemma_mod_multiples_vanish(periods, k, n_wall);
    assert(n_wall * periods + k == k + periods * n_wall) by (nonlinear_arith);
}

} // verus!
