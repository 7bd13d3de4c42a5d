//! What forces do to a rod, for every arithmetic that rounds without turning the order of numbers:
//! a force moves a rod along itself, and a force on a point turns the rod along itself.

use vstd::prelude::*;
use crate::channel::Pose;
use crate::double::Double;
use crate::formula::{
    binary_gives, cos_of, gives, law_steady_is_single_valued, minus, num, plus, sin_of, steady,
    times, Arithmetic, BinaryOp, Expr,
};
use crate::simulation::{
    add_point_force_gives, point_offset, step_increment_gives, GeneralizedForce, LabTransport,
    Normals, Rod, StepIncrement, WallForce,
};

verus! {

/// Whether a value is a number that is not below zero.
pub open spec fn from_zero(a: Double) -> bool {
    !a.nan() && a.value() >= 0
}

/// Whether a value is a number that is not above zero.
pub open spec fn to_zero(a: Double) -> bool {
    !a.nan() && a.value() <= 0
}

/// Whether rounding does not turn the order of numbers: what comes of no number is no number,
/// products have the sign of their operands, adding what is not negative does not lower a sum, and
/// larger operands give no smaller results. All this holds of IEEE 754.
pub open spec fn respects_order<K: Arithmetic>(k: &K) -> bool {
    &&& forall|op: BinaryOp, a: Double, b: Double, r: Double| #[trigger]
        binary_gives(k, op, a, b, r) && !r.nan() ==> !a.nan() && !b.nan()
    &&& forall|a: Double, b: Double, r: Double| #[trigger]
        binary_gives(k, BinaryOp::Product, a, b, r) && !r.nan() ==> {
            &&& from_zero(a) && from_zero(b) ==> from_zero(r)
            &&& to_zero(a) && to_zero(b) ==> from_zero(r)
            &&& from_zero(a) && to_zero(b) ==> to_zero(r)
            &&& to_zero(a) && from_zero(b) ==> to_zero(r)
        }
    &&& forall|a: Double, b: Double, r: Double| #[trigger]
        binary_gives(k, BinaryOp::Sum, a, b, r) && !r.nan() ==> {
            &&& from_zero(a) ==> b.at_most(r)
            &&& to_zero(a) ==> r.at_most(b)
            &&& from_zero(b) ==> a.at_most(r)
            &&& to_zero(b) ==> r.at_most(a)
        }
    &&& forall|a: Double, b: Double, r: Double| #[trigger]
        binary_gives(k, BinaryOp::Difference, a, b, r) && !r.nan() ==> {
            &&& from_zero(b) ==> r.at_most(a)
            &&& to_zero(b) ==> a.at_most(r)
            &&& from_zero(a) && to_zero(b) ==> from_zero(r)
            &&& to_zero(a) && from_zero(b) ==> to_zero(r)
        }
    &&& forall|a: Double, b: Double, r: Double, a2: Double, b2: Double, r2: Double| #[trigger]
        binary_gives(k, BinaryOp::Sum, a, b, r) && #[trigger] binary_gives(
            k,
            BinaryOp::Sum,
            a2,
            b2,
            r2,
        ) && !r.nan() && !r2.nan() && a.at_most(a2) && b.at_most(b2) ==> r.at_most(r2)
    &&& forall|a: Double, b: Double, r: Double, a2: Double, b2: Double, r2: Double| #[trigger]
        binary_gives(k, BinaryOp::Product, a, b, r) && #[trigger] binary_gives(
            k,
            BinaryOp::Product,
            a2,
            b2,
            r2,
        ) && !r.nan() && !r2.nan() && ((a == a2 && from_zero(a) && b.at_most(b2)) || (b == b2
            && from_zero(b) && a.at_most(a2))) ==> r.at_most(r2)
}

pub(crate) proof fn lemma_parts<K: Arithmetic>(
    k: &K,
    op: BinaryOp,
    a: Expr,
    b: Expr,
    x: Double,
) -> (r: (Double, Double))
    requires
        gives(k, Expr::Binary(op, Box::new(a), Box::new(b)), x),
    ensures
        gives(k, a, r.0),
        gives(k, b, r.1),
        binary_gives(k, op, r.0, r.1, x),
{
    reveal_with_fuel(gives, 2);
    let (p, q): (Double, Double) = choose|p: Double, q: Double|
        gives(k, a, p) && gives(k, b, q) && #[trigger] binary_gives(k, op, p, q, x);
    (p, q)
}

pub(crate) proof fn lemma_number<K: Arithmetic>(k: &K, x: Double, v: Double)
    requires
        gives(k, num(x), v),
    ensures
        v == x,
{
    reveal_with_fuel(gives, 2);
}

/// The parts of a drift with its noise: the two products, their sum, and the drift.
proof fn lemma_drift_parts<K: Arithmetic>(
    k: &K,
    a: Double,
    fx: Double,
    b: Double,
    fy: Double,
    dt: Double,
    noise: Double,
    moved: Double,
) -> (r: (Double, Double, Double, Double))
    requires
        gives(
            k,
            plus(
                times(plus(times(num(a), num(fx)), times(num(b), num(fy))), num(dt)),
                num(noise),
            ),
            moved,
        ),
    ensures
        binary_gives(k, BinaryOp::Product, a, fx, r.0),
        binary_gives(k, BinaryOp::Product, b, fy, r.1),
        binary_gives(k, BinaryOp::Sum, r.0, r.1, r.2),
        binary_gives(k, BinaryOp::Product, r.2, dt, r.3),
        binary_gives(k, BinaryOp::Sum, r.3, noise, moved),
{
    let first = times(num(a), num(fx));
    let second = times(num(b), num(fy));
    let (drift, n) = lemma_parts(
        k,
        BinaryOp::Sum,
        times(plus(first, second), num(dt)),
        num(noise),
        moved,
    );
    lemma_number(k, noise, n);
    let (rate, d) = lemma_parts(k, BinaryOp::Product, plus(first, second), num(dt), drift);
    lemma_number(k, dt, d);
    let (p, q) = lemma_parts(k, BinaryOp::Sum, first, second, rate);
    let (a1, fx1) = lemma_parts(k, BinaryOp::Product, num(a), num(fx), p);
    let (b1, fy1) = lemma_parts(k, BinaryOp::Product, num(b), num(fy), q);
    lemma_number(k, a, a1);
    lemma_number(k, fx, fx1);
    lemma_number(k, b, b1);
    lemma_number(k, fy, fy1);
    (p, q, rate, drift)
}

/// A force along x alone moves a rod along x in its own direction: not to the left of where the
/// noise puts it if the force is to the right, and not to the right if it is to the left. The same
/// holds along y, and a torque turns the rod in its own sense.
pub proof fn law_force_moves_along<K: Arithmetic>(
    k: &K,
    rod: Rod,
    transport: LabTransport,
    force: GeneralizedForce,
    normals: Normals,
    increment: StepIncrement,
)
    requires
        respects_order(k),
        step_increment_gives(k, rod, transport, force, normals, increment),
        from_zero(rod.physics.delta_t),
    ensures
        !increment.dx.nan() && from_zero(transport.dxx) && from_zero(force.force_x)
            && force.force_y.value() == 0 ==> transport.noise_x.at_most(increment.dx),
        !increment.dx.nan() && from_zero(transport.dxx) && to_zero(force.force_x)
            && force.force_y.value() == 0 ==> increment.dx.at_most(transport.noise_x),
        !increment.dy.nan() && from_zero(transport.dyy) && from_zero(force.force_y)
            && force.force_x.value() == 0 ==> transport.noise_y.at_most(increment.dy),
        !increment.dy.nan() && from_zero(transport.dyy) && to_zero(force.force_y)
            && force.force_x.value() == 0 ==> increment.dy.at_most(transport.noise_y),
        !increment.dphi.nan() && from_zero(rod.diffusion.d_r) && from_zero(force.torque)
            && normals.r.value() == 0 ==> from_zero(increment.dphi),
        !increment.dphi.nan() && from_zero(rod.diffusion.d_r) && to_zero(force.torque)
            && normals.r.value() == 0 ==> to_zero(increment.dphi),
{
    let dt = rod.physics.delta_t;
    let (p, q, rate, drift) = lemma_drift_parts(
        k,
        transport.dxx,
        force.force_x,
        transport.dxy,
        force.force_y,
        dt,
        transport.noise_x,
        increment.dx,
    );
    let (p2, q2, rate2, drift2) = lemma_drift_parts(
        k,
        transport.dxy,
        force.force_x,
        transport.dyy,
        force.force_y,
        dt,
        transport.noise_y,
        increment.dy,
    );
    let lead = times(num(rod.diffusion.d_r), num(force.torque));
    let noise = times(num(rod.noise_scale.rot), num(normals.r));
    let (turn, shake) = lemma_parts(
        k,
        BinaryOp::Sum,
        times(lead, num(dt)),
        noise,
        increment.dphi,
    );
    let (spin, d) = lemma_parts(k, BinaryOp::Product, lead, num(dt), turn);
    let (dr, torque) = lemma_parts(
        k,
        BinaryOp::Product,
        num(rod.diffusion.d_r),
        num(force.torque),
        spin,
    );
    let (rot, r) = lemma_parts(
        k,
        BinaryOp::Product,
        num(rod.noise_scale.rot),
        num(normals.r),
        shake,
    );
    lemma_number(k, dt, d);
    lemma_number(k, rod.diffusion.d_r, dr);
    lemma_number(k, force.torque, torque);
    lemma_number(k, rod.noise_scale.rot, rot);
    lemma_number(k, normals.r, r);
    if !increment.dx.nan() {
        assert(!drift.nan() && !rate.nan() && !p.nan() && !q.nan());
    }
    if !increment.dy.nan() {
        assert(!drift2.nan() && !rate2.nan() && !p2.nan() && !q2.nan());
    }
    if !increment.dphi.nan() {
        assert(!turn.nan() && !shake.nan() && !spin.nan());
    }
}

/// The larger the force along x, the farther a rod is moved along x; the same holds along y, and of
/// the torque and the angle.
pub proof fn law_motion_grows_with_force<K: Arithmetic>(
    k: &K,
    rod: Rod,
    transport: LabTransport,
    a: GeneralizedForce,
    b: GeneralizedForce,
    normals: Normals,
    by_a: StepIncrement,
    by_b: StepIncrement,
)
    requires
        steady(k),
        respects_order(k),
        step_increment_gives(k, rod, transport, a, normals, by_a),
        step_increment_gives(k, rod, transport, b, normals, by_b),
        from_zero(rod.physics.delta_t),
    ensures
        !by_a.dx.nan() && !by_b.dx.nan() && from_zero(transport.dxx) && a.force_x.at_most(b.force_x)
            && a.force_y == b.force_y ==> by_a.dx.at_most(by_b.dx),
        !by_a.dy.nan() && !by_b.dy.nan() && from_zero(transport.dyy) && a.force_y.at_most(b.force_y)
            && a.force_x == b.force_x ==> by_a.dy.at_most(by_b.dy),
        !by_a.dphi.nan() && !by_b.dphi.nan() && from_zero(rod.diffusion.d_r) && a.torque.at_most(
            b.torque,
        ) ==> by_a.dphi.at_most(by_b.dphi),
{
    law_steady_is_single_valued(k);
    let dt = rod.physics.delta_t;
    let xa = lemma_drift_parts(
        k,
        transport.dxx,
        a.force_x,
        transport.dxy,
        a.force_y,
        dt,
        transport.noise_x,
        by_a.dx,
    );
    let xb = lemma_drift_parts(
        k,
        transport.dxx,
        b.force_x,
        transport.dxy,
        b.force_y,
        dt,
        transport.noise_x,
        by_b.dx,
    );
    let ya = lemma_drift_parts(
        k,
        transport.dxy,
        a.force_x,
        transport.dyy,
        a.force_y,
        dt,
        transport.noise_y,
        by_a.dy,
    );
    let yb = lemma_drift_parts(
        k,
        transport.dxy,
        b.force_x,
        transport.dyy,
        b.force_y,
        dt,
        transport.noise_y,
        by_b.dy,
    );
    if !by_a.dx.nan() && !by_b.dx.nan() && from_zero(transport.dxx) && a.force_x.at_most(b.force_x)
        && a.force_y == b.force_y {
        assert(xa.1 == xb.1);
        assert(!xa.3.nan() && !xb.3.nan() && !xa.2.nan() && !xb.2.nan());
        assert(xa.0.at_most(xb.0));
        assert(xa.2.at_most(xb.2));
        assert(xa.3.at_most(xb.3));
    }
    if !by_a.dy.nan() && !by_b.dy.nan() && from_zero(transport.dyy) && a.force_y.at_most(b.force_y)
        && a.force_x == b.force_x {
        assert(ya.0 == yb.0);
        assert(!ya.3.nan() && !yb.3.nan() && !ya.2.nan() && !yb.2.nan());
        assert(ya.1.at_most(yb.1));
        assert(ya.2.at_most(yb.2));
        assert(ya.3.at_most(yb.3));
    }
    let noise = times(num(rod.noise_scale.rot), num(normals.r));
    let lead_a = times(num(rod.diffusion.d_r), num(a.torque));
    let lead_b = times(num(rod.diffusion.d_r), num(b.torque));
    let (turn_a, shake_a) = lemma_parts(
        k,
        BinaryOp::Sum,
        times(lead_a, num(dt)),
        noise,
        by_a.dphi,
    );
    let (turn_b, shake_b) = lemma_parts(
        k,
        BinaryOp::Sum,
        times(lead_b, num(dt)),
        noise,
        by_b.dphi,
    );
    let (spin_a, dt_a) = lemma_parts(k, BinaryOp::Product, lead_a, num(dt), turn_a);
    let (spin_b, dt_b) = lemma_parts(k, BinaryOp::Product, lead_b, num(dt), turn_b);
    let (dr_a, torque_a) = lemma_parts(
        k,
        BinaryOp::Product,
        num(rod.diffusion.d_r),
        num(a.torque),
        spin_a,
    );
    let (dr_b, torque_b) = lemma_parts(
        k,
        BinaryOp::Product,
        num(rod.diffusion.d_r),
        num(b.torque),
        spin_b,
    );
    lemma_number(k, dt, dt_a);
    lemma_number(k, dt, dt_b);
    lemma_number(k, rod.diffusion.d_r, dr_a);
    lemma_number(k, rod.diffusion.d_r, dr_b);
    lemma_number(k, a.torque, torque_a);
    lemma_number(k, b.torque, torque_b);
    if !by_a.dphi.nan() && !by_b.dphi.nan() && from_zero(rod.diffusion.d_r) && a.torque.at_most(
        b.torque,
    ) {
        assert(shake_a == shake_b);
        assert(!turn_a.nan() && !turn_b.nan() && !spin_a.nan() && !spin_b.nan());
        assert(spin_a.at_most(spin_b));
        assert(turn_a.at_most(turn_b));
    }
}

/// A force on a point turns the rod so that the point moves along the force. For a point ahead of
/// the centre on a rod that points to the right, a force down does not raise the torque and a force
/// up does not lower it; on a rod that points up, a force to the right does not raise it and a force
/// to the left does not lower it.
pub proof fn law_force_turns_along<K: Arithmetic>(
    k: &K,
    sum: GeneralizedForce,
    pose: Pose,
    particle_dx: Double,
    j: i32,
    force: WallForce,
    after: GeneralizedForce,
    offset: Double,
    cosine: Double,
    sine: Double,
)
    requires
        steady(k),
        respects_order(k),
        add_point_force_gives(k, sum, pose, particle_dx, j, force, after),
        gives(k, point_offset(particle_dx, j), offset),
        gives(k, cos_of(num(pose.phi)), cosine),
        gives(k, sin_of(num(pose.phi)), sine),
        from_zero(offset),
        !after.torque.nan(),
    ensures
        from_zero(cosine) && force.force_x.value() == 0 && to_zero(force.force_y)
            ==> after.torque.at_most(sum.torque),
        from_zero(cosine) && force.force_x.value() == 0 && from_zero(force.force_y)
            ==> sum.torque.at_most(after.torque),
        from_zero(sine) && force.force_y.value() == 0 && from_zero(force.force_x)
            ==> after.torque.at_most(sum.torque),
        from_zero(sine) && force.force_y.value() == 0 && to_zero(force.force_x)
            ==> sum.torque.at_most(after.torque),
{
    law_steady_is_single_valued(k);
    let c = cos_of(num(pose.phi));
    let s = sin_of(num(pose.phi));
    let up = times(c, num(force.force_y));
    let along = times(s, num(force.force_x));
    let (torque, share) = lemma_parts(
        k,
        BinaryOp::Sum,
        num(sum.torque),
        times(point_offset(particle_dx, j), minus(up, along)),
        after.torque,
    );
    lemma_number(k, sum.torque, torque);
    let (o, lever) = lemma_parts(
        k,
        BinaryOp::Product,
        point_offset(particle_dx, j),
        minus(up, along),
        share,
    );
    let (p, q) = lemma_parts(k, BinaryOp::Difference, up, along, lever);
    let (c1, fy) = lemma_parts(k, BinaryOp::Product, c, num(force.force_y), p);
    let (s1, fx) = lemma_parts(k, BinaryOp::Product, s, num(force.force_x), q);
    lemma_number(k, force.force_y, fy);
    lemma_number(k, force.force_x, fx);
    assert(o == offset && c1 == cosine && s1 == sine);
    assert(!share.nan() && !lever.nan() && !p.nan() && !q.nan());
    assert(force.force_x.value() == 0 ==> from_zero(q) && to_zero(q));
    assert(force.force_y.value() == 0 ==> from_zero(p) && to_zero(p));
}

} // verus!
