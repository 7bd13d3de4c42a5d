//! Symmetries of the model. They hold where the operations treat signs alike, as those of IEEE 754
//! do: a number and its negative are told apart by their sign only.

use vstd::prelude::*;
use crate::channel::{
    channel_section_bounds_gives, foot_corrected, foot_search, foot_settled, inside,
    mirror_at_foot_gives, mirrored, newton_delta_of, omega_derivative_of, omega_gives, omega_of,
    omega_second_derivative_of, reflected_once, reflection_outcome, reflection_path, wall_crossed,
    wall_gap, BoundaryCorrectedState, Pose, Wall,
};
use crate::config::Physics;
use crate::double::{law_equal_numbers_share_bits, Double, SIGN_BIT};
use crate::formula::{
    atan_of, binary_gives, cos_of, gives, int_of, law_steady_is_single_valued, lit, minus, num,
    plus, sin_of, single_valued, steady, times, unary_gives, Arithmetic, BinaryOp, Expr, UnaryOp,
    MINUS_ONE, ONE, TWO,
};
use crate::repeat::lemma_wall_force;
use crate::simulation::{
    add_external_force_gives, add_point_force_gives, field_torque, force_outcome, point_added,
    point_offset, rod_point_gives, rod_sum, wall_force_outcome, GeneralizedForce, RodPoint,
    VisualParams, WallForce,
};

verus! {

/// Whether one number is the negative of another; the sign of a zero does not count, and no number
/// answers to no number.
pub open spec fn opposite(a: Double, b: Double) -> bool {
    &&& a.nan() == b.nan()
    &&& !a.nan() ==> b.value() == -a.value()
}

/// Whether products with 1 and -1 are the number itself and its negative, and products, differences
/// and arctangents of opposite numbers are opposite.
pub open spec fn keeps_signs<K: Arithmetic>(k: &K) -> bool {
    &&& forall|b: Double, r: Double| #[trigger]
        binary_gives(k, BinaryOp::Product, Double { bits: ONE }, b, r) ==> if b.nan() {
            r.nan()
        } else {
            r == b
        }
    &&& forall|b: Double, r: Double| #[trigger]
        binary_gives(k, BinaryOp::Product, Double { bits: MINUS_ONE }, b, r) ==> if b.nan() {
            r.nan()
        } else {
            r == b.negated()
        }
    &&& forall|a: Double, b: Double, b2: Double, r: Double, r2: Double| #[trigger]
        binary_gives(k, BinaryOp::Product, a, b, r) && #[trigger] binary_gives(
            k,
            BinaryOp::Product,
            a,
            b2,
            r2,
        ) && opposite(b, b2) ==> opposite(r, r2)
    &&& forall|a: Double, a2: Double, b: Double, b2: Double, r: Double, r2: Double| #[trigger]
        binary_gives(k, BinaryOp::Difference, a, b, r) && #[trigger] binary_gives(
            k,
            BinaryOp::Difference,
            a2,
            b2,
            r2,
        ) && opposite(a, a2) && opposite(b, b2) ==> opposite(r, r2)
    &&& forall|a: Double, a2: Double, r: Double, r2: Double| #[trigger]
        unary_gives(k, UnaryOp::Arctangent, a, r) && #[trigger] unary_gives(
            k,
            UnaryOp::Arctangent,
            a2,
            r2,
        ) && opposite(a, a2) ==> opposite(r, r2)
}

/// Whether no place of the channel has a negative width.
pub open spec fn widths_from_zero<K: Arithmetic>(k: &K) -> bool {
    forall|x: Double, width: Double| #[trigger]
        omega_gives(k, x, width) && !width.nan() ==> 0 <= width.value()
}

// ---- Formulas with the same values ----

/// Whether two formulas have no different values.
spec fn agree<K: Arithmetic>(k: &K, a: Expr, b: Expr) -> bool {
    forall|x: Double, y: Double| #[trigger] gives(k, a, x) && #[trigger] gives(k, b, y) ==> x == y
}

/// Whether the values of two formulas are opposite.
pub open spec fn differ_in_sign<K: Arithmetic>(k: &K, a: Expr, b: Expr) -> bool {
    forall|x: Double, y: Double| #[trigger]
        gives(k, a, x) && #[trigger] gives(k, b, y) ==> opposite(x, y)
}

proof fn lemma_agree_binary<K: Arithmetic>(
    k: &K,
    op: BinaryOp,
    a: Expr,
    b: Expr,
    a2: Expr,
    b2: Expr,
)
    requires
        steady(k),
        agree(k, a, a2),
        agree(k, b, b2),
    ensures
        agree(
            k,
            Expr::Binary(op, Box::new(a), Box::new(b)),
            Expr::Binary(op, Box::new(a2), Box::new(b2)),
        ),
{
    let e = Expr::Binary(op, Box::new(a), Box::new(b));
    let e2 = Expr::Binary(op, Box::new(a2), Box::new(b2));
    assert forall|x: Double, y: Double| #[trigger]
        gives(k, e, x) && #[trigger] gives(k, e2, y) implies x == y by {
        reveal_with_fuel(gives, 2);
        let (p, q): (Double, Double) = choose|p: Double, q: Double|
            gives(k, a, p) && gives(k, b, q) && #[trigger] binary_gives(k, op, p, q, x);
        let (p2, q2): (Double, Double) = choose|p2: Double, q2: Double|
            gives(k, a2, p2) && gives(k, b2, q2) && #[trigger] binary_gives(k, op, p2, q2, y);
        assert(p == p2 && q == q2);
    }
}

proof fn lemma_signs_of_product<K: Arithmetic>(k: &K, a: Expr, b: Expr, b2: Expr)
    requires
        steady(k),
        single_valued(k),
        keeps_signs(k),
        differ_in_sign(k, b, b2),
    ensures
        differ_in_sign(k, times(a, b), times(a, b2)),
{
    assert forall|x: Double, y: Double| #[trigger]
        gives(k, times(a, b), x) && #[trigger] gives(k, times(a, b2), y) implies opposite(x, y) by {
        reveal_with_fuel(gives, 2);
        let (p, q): (Double, Double) = choose|p: Double, q: Double|
            gives(k, a, p) && gives(k, b, q) && #[trigger] binary_gives(
                k,
                BinaryOp::Product,
                p,
                q,
                x,
            );
        let (p2, q2): (Double, Double) = choose|p2: Double, q2: Double|
            gives(k, a, p2) && gives(k, b2, q2) && #[trigger] binary_gives(
                k,
                BinaryOp::Product,
                p2,
                q2,
                y,
            );
        assert(p == p2);
        assert(opposite(q, q2));
    }
}

proof fn lemma_signs_of_difference<K: Arithmetic>(k: &K, a: Expr, b: Expr, a2: Expr, b2: Expr)
    requires
        keeps_signs(k),
        differ_in_sign(k, a, a2),
        differ_in_sign(k, b, b2),
    ensures
        differ_in_sign(k, minus(a, b), minus(a2, b2)),
{
    assert forall|x: Double, y: Double| #[trigger]
        gives(k, minus(a, b), x) && #[trigger] gives(k, minus(a2, b2), y) implies opposite(
        x,
        y,
    ) by {
        reveal_with_fuel(gives, 2);
        let (p, q): (Double, Double) = choose|p: Double, q: Double|
            gives(k, a, p) && gives(k, b, q) && #[trigger] binary_gives(
                k,
                BinaryOp::Difference,
                p,
                q,
                x,
            );
        let (p2, q2): (Double, Double) = choose|p2: Double, q2: Double|
            gives(k, a2, p2) && gives(k, b2, q2) && #[trigger] binary_gives(
                k,
                BinaryOp::Difference,
                p2,
                q2,
                y,
            );
        assert(opposite(p, p2));
        assert(opposite(q, q2));
    }
}

proof fn lemma_signs_of_arctangent<K: Arithmetic>(k: &K, a: Expr, a2: Expr)
    requires
        keeps_signs(k),
        differ_in_sign(k, a, a2),
    ensures
        differ_in_sign(k, atan_of(a), atan_of(a2)),
{
    assert forall|x: Double, y: Double| #[trigger]
        gives(k, atan_of(a), x) && #[trigger] gives(k, atan_of(a2), y) implies opposite(x, y) by {
        reveal_with_fuel(gives, 2);
        let p = choose|p: Double|
            gives(k, a, p) && #[trigger] unary_gives(k, UnaryOp::Arctangent, p, x);
        let p2 = choose|p2: Double|
            gives(k, a2, p2) && #[trigger] unary_gives(k, UnaryOp::Arctangent, p2, y);
        assert(opposite(p, p2));
    }
}

proof fn lemma_signs_of_numbers<K: Arithmetic>(k: &K, a: Double, b: Double)
    requires
        opposite(a, b),
    ensures
        differ_in_sign(k, num(a), num(b)),
{
    reveal_with_fuel(gives, 2);
}

// ---- The two walls ----

/// The wall on the other side.
pub open spec fn other_wall(wall: Wall) -> Wall {
    match wall {
        Wall::Upper => Wall::Lower,
        Wall::Lower => Wall::Upper,
    }
}

/// Whether a pose is the mirror image of another at the middle of the channel.
pub open spec fn mirror_image(a: Pose, b: Pose) -> bool {
    &&& a.x == b.x
    &&& opposite(a.y, b.y)
    &&& opposite(a.phi, b.phi)
}

proof fn lemma_signed_value<K: Arithmetic>(k: &K, bits: u64, e: Expr, x: Double)
    requires
        keeps_signs(k),
        bits == ONE || bits == MINUS_ONE,
        gives(k, times(lit(bits), e), x),
    ensures
        exists|y: Double| #[trigger]
            gives(k, e, y) && if y.nan() {
                x.nan()
            } else {
                x == if bits == ONE {
                    y
                } else {
                    y.negated()
                }
            },
{
    reveal_with_fuel(gives, 2);
    assert(ONE != MINUS_ONE);
    let (p, y): (Double, Double) = choose|p: Double, y: Double|
        gives(k, lit(bits), p) && gives(k, e, y) && #[trigger] binary_gives(
            k,
            BinaryOp::Product,
            p,
            y,
            x,
        );
    assert(p == (Double { bits }));
    assert(gives(k, e, y));
}

proof fn lemma_gap<K: Arithmetic>(k: &K, y: Double, wall: Wall, x: Double)
    requires
        steady(k),
        single_valued(k),
        keeps_signs(k),
        !y.nan(),
    ensures
        agree(k, wall_gap(y, wall, x), wall_gap(y.negated(), other_wall(wall), x)),
{
    let a = times(lit(wall.sign_bits()), num(y));
    let b = times(lit(other_wall(wall).sign_bits()), num(y.negated()));
    assert forall|p: Double, q: Double| #[trigger]
        gives(k, a, p) && #[trigger] gives(k, b, q) implies p == q by {
        lemma_signed_value(k, wall.sign_bits(), num(y), p);
        lemma_signed_value(k, other_wall(wall).sign_bits(), num(y.negated()), q);
        reveal_with_fuel(gives, 2);
        assert(y.negated().negated() == y);
    }
    lemma_agree_binary(k, BinaryOp::Difference, omega_of(x), a, omega_of(x), b);
}

proof fn lemma_newton_delta<K: Arithmetic>(k: &K, px: Double, y: Double, wall: Wall, x: Double)
    requires
        steady(k),
        single_valued(k),
        keeps_signs(k),
        !y.nan(),
    ensures
        agree(
            k,
            newton_delta_of(px, y, wall, x),
            newton_delta_of(px, y.negated(), other_wall(wall), x),
        ),
{
    let gap = wall_gap(y, wall, x);
    let gap2 = wall_gap(y.negated(), other_wall(wall), x);
    lemma_gap(k, y, wall, x);
    let slope = omega_derivative_of(x);
    let curvature = omega_second_derivative_of(x);
    lemma_agree_binary(k, BinaryOp::Product, slope, gap, slope, gap2);
    lemma_agree_binary(
        k,
        BinaryOp::Sum,
        times(slope, gap),
        num(x),
        times(slope, gap2),
        num(x),
    );
    lemma_agree_binary(
        k,
        BinaryOp::Difference,
        plus(times(slope, gap), num(x)),
        num(px),
        plus(times(slope, gap2), num(x)),
        num(px),
    );
    lemma_agree_binary(k, BinaryOp::Product, curvature, gap, curvature, gap2);
    let square = times(slope, slope);
    lemma_agree_binary(
        k,
        BinaryOp::Sum,
        times(curvature, gap),
        square,
        times(curvature, gap2),
        square,
    );
    lemma_agree_binary(
        k,
        BinaryOp::Sum,
        plus(times(curvature, gap), square),
        lit(ONE),
        plus(times(curvature, gap2), square),
        lit(ONE),
    );
    lemma_agree_binary(
        k,
        BinaryOp::Quotient,
        minus(plus(times(slope, gap), num(x)), num(px)),
        plus(plus(times(curvature, gap), square), lit(ONE)),
        minus(plus(times(slope, gap2), num(x)), num(px)),
        plus(plus(times(curvature, gap2), square), lit(ONE)),
    );
}

/// Whether two poses are mirror images whose heights differ in their sign bit only, and are numbers.
spec fn exact_image(a: Pose, b: Pose) -> bool {
    &&& a.x == b.x
    &&& !a.y.nan()
    &&& b.y == a.y.negated()
}

proof fn lemma_foot_prefix<K: Arithmetic>(
    k: &K,
    pose: Pose,
    image: Pose,
    wall: Wall,
    anchor_x: Double,
    low: Double,
    high: Double,
    a: Seq<Double>,
    b: Seq<Double>,
    n: int,
)
    requires
        steady(k),
        single_valued(k),
        keeps_signs(k),
        exact_image(pose, image),
        foot_search(k, pose, wall, anchor_x, low, high, a),
        foot_search(k, image, other_wall(wall), anchor_x, low, high, b),
        0 <= n < a.len(),
        n < b.len(),
    ensures
        a[n] == b[n],
    decreases n,
{
    if n > 0 {
        let i = n - 1;
        lemma_foot_prefix(k, pose, image, wall, anchor_x, low, high, a, b, i);
        assert(foot_corrected(k, pose, wall, low, high, a[i], a[i + 1]));
        assert(foot_corrected(k, image, other_wall(wall), low, high, b[i], b[i + 1]));
        lemma_newton_delta(k, pose.x, pose.y, wall, a[i]);
    }
}

proof fn lemma_foot_lens<K: Arithmetic>(
    k: &K,
    pose: Pose,
    image: Pose,
    wall: Wall,
    anchor_x: Double,
    low: Double,
    high: Double,
    a: Seq<Double>,
    b: Seq<Double>,
)
    requires
        steady(k),
        single_valued(k),
        keeps_signs(k),
        exact_image(pose, image),
        foot_search(k, pose, wall, anchor_x, low, high, a),
        foot_search(k, image, other_wall(wall), anchor_x, low, high, b),
    ensures
        a.len() == b.len(),
        a.last() == b.last(),
{
    if a.len() < b.len() {
        let n = a.len() - 1;
        lemma_foot_prefix(k, pose, image, wall, anchor_x, low, high, a, b, n);
        lemma_newton_delta(k, pose.x, pose.y, wall, a[n]);
        assert(foot_settled(k, pose, wall, a.last()));
        assert(foot_corrected(k, image, other_wall(wall), low, high, b[n], b[n + 1]));
    } else if b.len() < a.len() {
        let n = b.len() - 1;
        lemma_foot_prefix(k, pose, image, wall, anchor_x, low, high, a, b, n);
        lemma_newton_delta(k, pose.x, pose.y, wall, a[n]);
        assert(foot_settled(k, image, other_wall(wall), b.last()));
        assert(foot_corrected(k, pose, wall, low, high, a[n], a[n + 1]));
    } else {
        lemma_foot_prefix(k, pose, image, wall, anchor_x, low, high, a, b, a.len() - 1);
    }
}

proof fn lemma_signed_by_wall<K: Arithmetic>(k: &K, wall: Wall, e: Expr)
    requires
        single_valued(k),
        keeps_signs(k),
    ensures
        differ_in_sign(
            k,
            times(lit(wall.sign_bits()), e),
            times(lit(other_wall(wall).sign_bits()), e),
        ),
{
    let a = times(lit(wall.sign_bits()), e);
    let b = times(lit(other_wall(wall).sign_bits()), e);
    assert forall|x: Double, y: Double| #[trigger]
        gives(k, a, x) && #[trigger] gives(k, b, y) implies opposite(x, y) by {
        lemma_signed_value(k, wall.sign_bits(), e, x);
        lemma_signed_value(k, other_wall(wall).sign_bits(), e, y);
        assert(ONE != MINUS_ONE);
    }
}

proof fn lemma_mirror_at_foot<K: Arithmetic>(
    k: &K,
    pose: Pose,
    image: Pose,
    wall: Wall,
    foot_x: Double,
    a: Pose,
    b: Pose,
)
    requires
        steady(k),
        single_valued(k),
        keeps_signs(k),
        mirror_image(pose, image),
        mirror_at_foot_gives(k, pose, wall, foot_x, a),
        mirror_at_foot_gives(k, image, other_wall(wall), foot_x, b),
    ensures
        mirror_image(a, b),
{
    let sign = lit(wall.sign_bits());
    let sign2 = lit(other_wall(wall).sign_bits());
    let (w, s) = (omega_of(foot_x), omega_derivative_of(foot_x));
    lemma_signed_by_wall(k, wall, w);
    lemma_signed_by_wall(k, wall, s);
    lemma_signs_of_product(k, lit(TWO), times(sign, w), times(sign2, w));
    lemma_signs_of_numbers(k, pose.y, image.y);
    lemma_signs_of_difference(
        k,
        times(lit(TWO), times(sign, w)),
        num(pose.y),
        times(lit(TWO), times(sign2, w)),
        num(image.y),
    );
    lemma_signs_of_arctangent(k, times(sign, s), times(sign2, s));
    lemma_signs_of_product(k, lit(TWO), atan_of(times(sign, s)), atan_of(times(sign2, s)));
    lemma_signs_of_numbers(k, pose.phi, image.phi);
    lemma_signs_of_difference(
        k,
        times(lit(TWO), atan_of(times(sign, s))),
        num(pose.phi),
        times(lit(TWO), atan_of(times(sign2, s))),
        num(image.phi),
    );
}

proof fn lemma_crossed(a: Double, b: Double, width: Double)
    requires
        opposite(a, b),
        width.nan() || 0 <= width.value(),
    ensures
        wall_crossed(b, width) == (match wall_crossed(a, width) {
            Some(wall) => Some(other_wall(wall)),
            None => None::<Wall>,
        }),
        wall_crossed(a, width) is Some ==> !a.nan() && b == a.negated(),
{
    assert(width.negated().nan() == width.nan());
    assert(width.negated().value() == -width.value());
    if wall_crossed(a, width) is Some {
        let n = a.negated();
        assert(n.nan() == a.nan() && n.value() == -a.value());
        assert(b.same_number(n));
        law_equal_numbers_share_bits(b, n);
        assert(a.value() != 0);
    }
}

proof fn lemma_reflected_once<K: Arithmetic>(
    k: &K,
    anchor_x: Double,
    pose: Pose,
    image: Pose,
    a: Pose,
    b: Pose,
)
    requires
        steady(k),
        single_valued(k),
        keeps_signs(k),
        widths_from_zero(k),
        mirror_image(pose, image),
        reflected_once(k, anchor_x, pose, a),
        reflected_once(k, anchor_x, image, b),
    ensures
        mirror_image(a, b),
{
    let width = choose|width: Double|
        {
            &&& #[trigger] omega_gives(k, pose.x, width)
            &&& wall_crossed(pose.y, width) matches Some(wall)
            &&& mirrored(k, pose, wall, anchor_x, a)
        };
    let wall = wall_crossed(pose.y, width)->0;
    lemma_crossed(pose.y, image.y, width);
    let width2 = choose|width2: Double|
        {
            &&& #[trigger] omega_gives(k, image.x, width2)
            &&& wall_crossed(image.y, width2) matches Some(wall2)
            &&& mirrored(k, image, wall2, anchor_x, b)
        };
    assert(width == width2);
    let (section, steps): ((Double, Double), Seq<Double>) = choose|
        section: (Double, Double),
        steps: Seq<Double>,
    |
        {
            &&& #[trigger] channel_section_bounds_gives(k, anchor_x, section)
            &&& #[trigger] foot_search(k, pose, wall, anchor_x, section.0, section.1, steps)
            &&& mirror_at_foot_gives(k, pose, wall, steps.last(), a)
        };
    let (section2, steps2): ((Double, Double), Seq<Double>) = choose|
        section: (Double, Double),
        steps: Seq<Double>,
    |
        {
            &&& #[trigger] channel_section_bounds_gives(k, anchor_x, section)
            &&& #[trigger] foot_search(
                k,
                image,
                other_wall(wall),
                anchor_x,
                section.0,
                section.1,
                steps,
            )
            &&& mirror_at_foot_gives(k, image, other_wall(wall), steps.last(), b)
        };
    assert(section == section2);
    lemma_foot_lens(k, pose, image, wall, anchor_x, section.0, section.1, steps, steps2);
    lemma_mirror_at_foot(k, pose, image, wall, steps.last(), a, b);
}

/// A pose and its mirror image are inside the channel together.
proof fn lemma_outside_together<K: Arithmetic>(
    k: &K,
    anchor_x: Double,
    pose: Pose,
    image: Pose,
    next: Pose,
)
    requires
        single_valued(k),
        widths_from_zero(k),
        mirror_image(pose, image),
        reflected_once(k, anchor_x, pose, next),
    ensures
        !inside(k, image),
{
    let width = choose|width: Double|
        {
            &&& #[trigger] omega_gives(k, pose.x, width)
            &&& wall_crossed(pose.y, width) matches Some(wall)
            &&& mirrored(k, pose, wall, anchor_x, next)
        };
    lemma_crossed(pose.y, image.y, width);
    if inside(k, image) {
        let width2 = choose|width2: Double|
            #[trigger] omega_gives(k, image.x, width2) && wall_crossed(image.y, width2) is None;
        assert(width == width2);
    }
}

proof fn lemma_path_prefix<K: Arithmetic>(
    k: &K,
    anchor_x: Double,
    a: Seq<Pose>,
    b: Seq<Pose>,
    n: int,
)
    requires
        steady(k),
        single_valued(k),
        keeps_signs(k),
        widths_from_zero(k),
        reflection_path(k, anchor_x, a),
        reflection_path(k, anchor_x, b),
        mirror_image(a[0], b[0]),
        0 <= n < a.len(),
        n < b.len(),
    ensures
        mirror_image(a[n], b[n]),
    decreases n,
{
    if n > 0 {
        let i = n - 1;
        lemma_path_prefix(k, anchor_x, a, b, i);
        assert(reflected_once(k, anchor_x, a[i], a[i + 1]));
        assert(reflected_once(k, anchor_x, b[i], b[i + 1]));
        lemma_reflected_once(k, anchor_x, a[i], b[i], a[n], b[n]);
    }
}

/// The lower wall is the mirror image of the upper one: the mirror image of a state is brought into
/// the channel as the mirror image of what the state is brought to.
pub proof fn law_reflection_is_symmetric<K: Arithmetic>(
    k: &K,
    start: Pose,
    image: Pose,
    anchor_x: Double,
    a: BoundaryCorrectedState,
    b: BoundaryCorrectedState,
)
    requires
        steady(k),
        keeps_signs(k),
        widths_from_zero(k),
        mirror_image(start, image),
        reflection_outcome(k, start, anchor_x, a),
        reflection_outcome(k, image, anchor_x, b),
    ensures
        mirror_image(a.pose(), b.pose()),
        a.reflected == b.reflected,
{
    law_steady_is_single_valued(k);
    reveal(reflection_outcome);
    let path_a = choose|path: Seq<Pose>|
        {
            &&& #[trigger] reflection_path(k, anchor_x, path)
            &&& path[0] == start
            &&& path.last() == a.pose()
            &&& a.reflected == (path.len() > 1)
        };
    let path_b = choose|path: Seq<Pose>|
        {
            &&& #[trigger] reflection_path(k, anchor_x, path)
            &&& path[0] == image
            &&& path.last() == b.pose()
            &&& b.reflected == (path.len() > 1)
        };
    if path_a.len() < path_b.len() {
        let n = path_a.len() - 1;
        lemma_path_prefix(k, anchor_x, path_a, path_b, n);
        assert(reflected_once(k, anchor_x, path_b[n], path_b[n + 1]));
        assert(opposite(path_b[n].y, path_a[n].y));
        lemma_outside_together(k, anchor_x, path_b[n], path_a[n], path_b[n + 1]);
    } else if path_b.len() < path_a.len() {
        let n = path_b.len() - 1;
        lemma_path_prefix(k, anchor_x, path_a, path_b, n);
        assert(reflected_once(k, anchor_x, path_a[n], path_a[n + 1]));
        lemma_outside_together(k, anchor_x, path_a[n], path_b[n], path_a[n + 1]);
    } else {
        lemma_path_prefix(k, anchor_x, path_a, path_b, path_a.len() - 1);
    }
}

// ---- The two ends of a rod ----

/// Whether two values are the same number, whatever the sign of a zero, or both no number.
pub open spec fn alike(a: Double, b: Double) -> bool {
    &&& a.nan() == b.nan()
    &&& !a.nan() ==> a.value() == b.value()
}

/// Whether an integer and its negative become opposite numbers, products change sign with their
/// first operand and keep it when both operands change theirs, a product with zero is zero, and
/// adding a zero to anything but the negative zero changes nothing.
pub open spec fn turns_signs<K: Arithmetic>(k: &K) -> bool {
    &&& forall|i: i64, j: i64, r: Double, r2: Double| #[trigger]
        call_ensures(K::of_signed, (k, i), r) && #[trigger] call_ensures(K::of_signed, (k, j), r2)
            && j == -i ==> opposite(r, r2)
    &&& forall|a: Double, a2: Double, b: Double, r: Double, r2: Double| #[trigger]
        binary_gives(k, BinaryOp::Product, a, b, r) && #[trigger] binary_gives(
            k,
            BinaryOp::Product,
            a2,
            b,
            r2,
        ) && opposite(a, a2) ==> opposite(r, r2)
    &&& forall|a: Double, a2: Double, b: Double, b2: Double, r: Double, r2: Double| #[trigger]
        binary_gives(k, BinaryOp::Product, a, b, r) && #[trigger] binary_gives(
            k,
            BinaryOp::Product,
            a2,
            b2,
            r2,
        ) && opposite(a, a2) && opposite(b, b2) ==> alike(r, r2)
    &&& forall|a: Double, b: Double, r: Double| #[trigger]
        binary_gives(k, BinaryOp::Product, a, b, r) && a.magnitude() == 0 && b.finite()
            ==> r.magnitude() == 0
    &&& forall|a: Double, b: Double, r: Double| #[trigger]
        binary_gives(k, BinaryOp::Sum, a, b, r) && sums_with_zero(a) && b.magnitude() == 0 ==> r
            == a
}

/// Whether a value is a number and not the negative zero.
pub open spec fn sums_with_zero(a: Double) -> bool {
    !a.nan() && a.bits != SIGN_BIT
}

/// Whether two angles point in opposite directions.
pub open spec fn half_turn<K: Arithmetic>(k: &K, phi: Double, psi: Double) -> bool {
    &&& differ_in_sign(k, cos_of(num(phi)), cos_of(num(psi)))
    &&& differ_in_sign(k, sin_of(num(phi)), sin_of(num(psi)))
}

/// Whether a rod at `b` is the rod at `a` with head and tail swapped.
pub open spec fn turned_around<K: Arithmetic>(k: &K, a: Pose, b: Pose) -> bool {
    &&& a.x == b.x
    &&& a.y == b.y
    &&& half_turn(k, a.phi, b.phi)
}

/// Whether the way from the centre of a rod to its point `j` is a number.
pub open spec fn point_is_placed<K: Arithmetic>(
    k: &K,
    pose: Pose,
    particle_dx: Double,
    j: i32,
) -> bool {
    let offset = point_offset(particle_dx, j);
    &&& forall|v: Double| #[trigger]
        gives(k, times(offset, cos_of(num(pose.phi))), v) ==> !v.nan()
    &&& forall|v: Double| #[trigger]
        gives(k, times(offset, sin_of(num(pose.phi))), v) ==> !v.nan()
}

/// Whether `after` is a sum with one force and one torque added.
pub open spec fn share_added<K: Arithmetic>(
    k: &K,
    sum: GeneralizedForce,
    force: WallForce,
    torque: Double,
    after: GeneralizedForce,
) -> bool {
    &&& gives(k, plus(num(sum.force_x), num(force.force_x)), after.force_x)
    &&& gives(k, plus(num(sum.force_y), num(force.force_y)), after.force_y)
    &&& gives(k, plus(num(sum.torque), num(torque)), after.torque)
}

/// Whether two steps of two sums add the same force and the same torque.
pub open spec fn same_share<K: Arithmetic>(
    k: &K,
    sum: GeneralizedForce,
    after: GeneralizedForce,
    sum2: GeneralizedForce,
    after2: GeneralizedForce,
) -> bool {
    exists|force: WallForce, torque: Double, torque2: Double|
        {
            &&& #[trigger] share_added(k, sum, force, torque, after)
            &&& #[trigger] share_added(k, sum2, force, torque2, after2)
            &&& alike(torque, torque2)
        }
}

proof fn lemma_last_operand<K: Arithmetic>(k: &K, op: BinaryOp, a: Double, b: Expr, x: Double) -> (v:
    Double)
    requires
        gives(k, Expr::Binary(op, Box::new(num(a)), Box::new(b)), x),
    ensures
        gives(k, b, v),
        binary_gives(k, op, a, v, x),
        gives(k, Expr::Binary(op, Box::new(num(a)), Box::new(num(v))), x),
{
    reveal_with_fuel(gives, 2);
    let (p, q): (Double, Double) = choose|p: Double, q: Double|
        gives(k, num(a), p) && gives(k, b, q) && #[trigger] binary_gives(k, op, p, q, x);
    assert(gives(k, num(q), q));
    q
}

proof fn lemma_products_alike<K: Arithmetic>(
    k: &K,
    a: Expr,
    b: Expr,
    a2: Expr,
    b2: Expr,
    x: Double,
    y: Double,
)
    requires
        turns_signs(k),
        differ_in_sign(k, a, a2),
        differ_in_sign(k, b, b2),
        gives(k, times(a, b), x),
        gives(k, times(a2, b2), y),
    ensures
        alike(x, y),
{
    reveal_with_fuel(gives, 2);
    let (p, q): (Double, Double) = choose|p: Double, q: Double|
        gives(k, a, p) && gives(k, b, q) && #[trigger] binary_gives(k, BinaryOp::Product, p, q, x);
    let (p2, q2): (Double, Double) = choose|p2: Double, q2: Double|
        gives(k, a2, p2) && gives(k, b2, q2) && #[trigger] binary_gives(
            k,
            BinaryOp::Product,
            p2,
            q2,
            y,
        );
    assert(opposite(p, p2));
    assert(opposite(q, q2));
}

proof fn lemma_signs_of_first_factor<K: Arithmetic>(k: &K, a: Expr, a2: Expr, b: Double)
    requires
        turns_signs(k),
        differ_in_sign(k, a, a2),
    ensures
        differ_in_sign(k, times(a, num(b)), times(a2, num(b))),
{
    assert forall|x: Double, y: Double| #[trigger]
        gives(k, times(a, num(b)), x) && #[trigger] gives(k, times(a2, num(b)), y) implies opposite(
        x,
        y,
    ) by {
        reveal_with_fuel(gives, 2);
        let (p, q): (Double, Double) = choose|p: Double, q: Double|
            gives(k, a, p) && gives(k, num(b), q) && #[trigger] binary_gives(
                k,
                BinaryOp::Product,
                p,
                q,
                x,
            );
        let (p2, q2): (Double, Double) = choose|p2: Double, q2: Double|
            gives(k, a2, p2) && gives(k, num(b), q2) && #[trigger] binary_gives(
                k,
                BinaryOp::Product,
                p2,
                q2,
                y,
            );
        assert(opposite(p, p2));
    }
}

proof fn lemma_offsets<K: Arithmetic>(k: &K, particle_dx: Double, j: i32, j2: i32)
    requires
        turns_signs(k),
        j2 == -j,
    ensures
        differ_in_sign(k, point_offset(particle_dx, j), point_offset(particle_dx, j2)),
{
    let a = int_of(j as i64);
    let b = int_of(j2 as i64);
    assert forall|x: Double, y: Double| #[trigger]
        gives(k, a, x) && #[trigger] gives(k, b, y) implies opposite(x, y) by {
        reveal_with_fuel(gives, 2);
        assert(call_ensures(K::of_signed, (k, j as i64), x));
        assert(call_ensures(K::of_signed, (k, j2 as i64), y));
    }
    lemma_signs_of_first_factor(k, a, b, particle_dx);
}

/// Equal ways from one place lead to one place.
proof fn lemma_same_place<K: Arithmetic>(
    k: &K,
    from: Double,
    way: Expr,
    way2: Expr,
    x: Double,
    y: Double,
)
    requires
        steady(k),
        turns_signs(k),
        sums_with_zero(from),
        gives(k, plus(num(from), way), x),
        gives(k, plus(num(from), way2), y),
        forall|v: Double| #[trigger] gives(k, way, v) ==> !v.nan(),
        forall|v: Double, v2: Double| #[trigger]
            gives(k, way, v) && #[trigger] gives(k, way2, v2) ==> alike(v, v2),
    ensures
        x == y,
{
    let v = lemma_last_operand(k, BinaryOp::Sum, from, way, x);
    let v2 = lemma_last_operand(k, BinaryOp::Sum, from, way2, y);
    assert(v.same_number(v2));
    law_equal_numbers_share_bits(v, v2);
    if v.bits == v2.bits {
        assert(v == v2);
    }
}

proof fn lemma_points_meet<K: Arithmetic>(
    k: &K,
    particle_dx: Double,
    j: i32,
    j2: i32,
    pose: Pose,
    turned: Pose,
    point: RodPoint,
    point2: RodPoint,
)
    requires
        steady(k),
        turns_signs(k),
        turned_around(k, pose, turned),
        sums_with_zero(pose.x),
        sums_with_zero(pose.y),
        point_is_placed(k, pose, particle_dx, j),
        j2 == -j,
        rod_point_gives(k, pose, particle_dx, j, point),
        rod_point_gives(k, turned, particle_dx, j2, point2),
    ensures
        point == point2,
{
    let a = point_offset(particle_dx, j);
    let a2 = point_offset(particle_dx, j2);
    lemma_offsets(k, particle_dx, j, j2);
    let along = cos_of(num(pose.phi));
    let along2 = cos_of(num(turned.phi));
    let up = sin_of(num(pose.phi));
    let up2 = sin_of(num(turned.phi));
    assert forall|v: Double, v2: Double| #[trigger]
        gives(k, times(a, along), v) && #[trigger] gives(k, times(a2, along2), v2) implies alike(
        v,
        v2,
    ) by {
        lemma_products_alike(k, a, along, a2, along2, v, v2);
    }
    assert forall|v: Double, v2: Double| #[trigger]
        gives(k, times(a, up), v) && #[trigger] gives(k, times(a2, up2), v2) implies alike(
        v,
        v2,
    ) by {
        lemma_products_alike(k, a, up, a2, up2, v, v2);
    }
    lemma_same_place(k, pose.x, times(a, along), times(a2, along2), point.x, point2.x);
    lemma_same_place(k, pose.y, times(a, up), times(a2, up2), point.y, point2.y);
}

/// Point `j` of a rod lies where point `-j` of the rod with head and tail swapped lies, and both add
/// the same force and the same torque.
pub proof fn law_point_of_turned_rod<K: Arithmetic>(
    k: &K,
    physics: Physics,
    wall_y: Seq<Double>,
    j: i32,
    j2: i32,
    pose: Pose,
    turned: Pose,
    sum: GeneralizedForce,
    after: GeneralizedForce,
    sum2: GeneralizedForce,
    after2: GeneralizedForce,
)
    requires
        steady(k),
        keeps_signs(k),
        turns_signs(k),
        turned_around(k, pose, turned),
        sums_with_zero(pose.x),
        sums_with_zero(pose.y),
        point_is_placed(k, pose, physics.particle_dx, j),
        j2 == -j,
        point_added(k, physics, wall_y, j, pose, sum, after),
        point_added(k, physics, wall_y, j2, turned, sum2, after2),
    ensures
        same_share(k, sum, after, sum2, after2),
{
    law_steady_is_single_valued(k);
    let dx = physics.particle_dx;
    let (point, force): (RodPoint, WallForce) = choose|point: RodPoint, force: WallForce|
        {
            &&& #[trigger] rod_point_gives(k, pose, dx, j, point)
            &&& #[trigger] wall_force_outcome(k, physics, wall_y, point, force)
            &&& add_point_force_gives(k, sum, pose, dx, j, force, after)
        };
    let (point2, force2): (RodPoint, WallForce) = choose|point2: RodPoint, force2: WallForce|
        {
            &&& #[trigger] rod_point_gives(k, turned, dx, j2, point2)
            &&& #[trigger] wall_force_outcome(k, physics, wall_y, point2, force2)
            &&& add_point_force_gives(k, sum2, turned, dx, j2, force2, after2)
        };
    lemma_points_meet(k, dx, j, j2, pose, turned, point, point2);
    lemma_wall_force(k, physics, wall_y, point, force, force2);
    let c = cos_of(num(pose.phi));
    let c2 = cos_of(num(turned.phi));
    let s = sin_of(num(pose.phi));
    let s2 = sin_of(num(turned.phi));
    lemma_signs_of_first_factor(k, c, c2, force.force_y);
    lemma_signs_of_first_factor(k, s, s2, force.force_x);
    let lever = minus(times(c, num(force.force_y)), times(s, num(force.force_x)));
    let lever2 = minus(times(c2, num(force.force_y)), times(s2, num(force.force_x)));
    lemma_signs_of_difference(
        k,
        times(c, num(force.force_y)),
        times(s, num(force.force_x)),
        times(c2, num(force.force_y)),
        times(s2, num(force.force_x)),
    );
    lemma_offsets(k, dx, j, j2);
    let a = point_offset(dx, j);
    let a2 = point_offset(dx, j2);
    let torque = lemma_last_operand(
        k,
        BinaryOp::Sum,
        sum.torque,
        times(a, lever),
        after.torque,
    );
    let torque2 = lemma_last_operand(
        k,
        BinaryOp::Sum,
        sum2.torque,
        times(a2, lever2),
        after2.torque,
    );
    lemma_products_alike(k, a, lever, a2, lever2, torque, torque2);
    assert(share_added(k, sum, force, torque, after));
    assert(share_added(k, sum2, force, torque2, after2));
}

/// Whether the factors of the torque of the field on a rod are finite.
pub open spec fn field_is_finite<K: Arithmetic>(k: &K, params: VisualParams, phi: Double) -> bool {
    &&& forall|v: Double| #[trigger] gives(k, cos_of(num(phi)), v) ==> v.finite()
    &&& forall|v: Double| #[trigger]
        gives(k, minus(lit(ONE), times(num(params.delta), sin_of(num(phi)))), v) ==> v.finite()
}

/// Whether `after` is a sum with the external force added and a torque of zero.
pub open spec fn only_force_added<K: Arithmetic>(
    k: &K,
    sum: GeneralizedForce,
    params: VisualParams,
    after: GeneralizedForce,
) -> bool {
    &&& gives(k, plus(num(params.f), num(sum.force_x)), after.force_x)
    &&& after.force_y == sum.force_y
    &&& exists|zero: Double|
        zero.magnitude() == 0 && #[trigger] gives(k, plus(num(sum.torque), num(zero)), after.torque)
}

proof fn lemma_no_field<K: Arithmetic>(
    k: &K,
    sum: GeneralizedForce,
    params: VisualParams,
    pose: Pose,
    after: GeneralizedForce,
)
    requires
        turns_signs(k),
        params.gamma.magnitude() == 0,
        field_is_finite(k, params, pose.phi),
        add_external_force_gives(k, sum, params, pose, after),
    ensures
        only_force_added(k, sum, params, after),
{
    let torque = lemma_last_operand(
        k,
        BinaryOp::Sum,
        sum.torque,
        field_torque(params, pose.phi),
        after.torque,
    );
    let lead = times(num(params.gamma), cos_of(num(pose.phi)));
    let rest = minus(lit(ONE), times(num(params.delta), sin_of(num(pose.phi))));
    assert(torque.magnitude() == 0) by {
        reveal_with_fuel(gives, 2);
        let (p, q): (Double, Double) = choose|p: Double, q: Double|
            gives(k, lead, p) && gives(k, rest, q) && #[trigger] binary_gives(
                k,
                BinaryOp::Product,
                p,
                q,
                torque,
            );
        let cosine = lemma_last_operand(
            k,
            BinaryOp::Product,
            params.gamma,
            cos_of(num(pose.phi)),
            p,
        );
        assert(cosine.finite());
        assert(p.magnitude() == 0);
    }
    assert(gives(k, plus(num(sum.torque), num(torque)), after.torque));
}

/// Whether two sums over the 2m + 1 points of a rod add the same shares, one in the opposite order
/// of the other.
pub open spec fn same_shares_reversed<K: Arithmetic>(
    k: &K,
    m: int,
    sums: Seq<GeneralizedForce>,
    sums2: Seq<GeneralizedForce>,
) -> bool {
    forall|i: int|
        0 <= i <= 2 * m ==> same_share(
            k,
            #[trigger] sums[i],
            sums[i + 1],
            sums2[2 * m - i],
            sums2[2 * m - i + 1],
        )
}

/// A rod without a dipole has no head and no tail: with the two swapped, the forces and the torques
/// that the sum over its points adds are the same, in the opposite order, and the field adds no
/// torque. What is left between the two results is the rounding of the sums.
pub proof fn law_turned_rod_feels_the_same<K: Arithmetic>(
    k: &K,
    params: VisualParams,
    physics: Physics,
    wall_y: Seq<Double>,
    pose: Pose,
    turned: Pose,
    force: GeneralizedForce,
    force2: GeneralizedForce,
)
    requires
        steady(k),
        keeps_signs(k),
        turns_signs(k),
        turned_around(k, pose, turned),
        sums_with_zero(pose.x),
        sums_with_zero(pose.y),
        forall|j: i32|
            -params.m <= j <= params.m ==> #[trigger] point_is_placed(
                k,
                pose,
                physics.particle_dx,
                j,
            ),
        params.m >= 0,
        params.gamma.magnitude() == 0,
        field_is_finite(k, params, pose.phi),
        field_is_finite(k, params, turned.phi),
        force_outcome(k, params, physics, wall_y, pose, force),
        force_outcome(k, params, physics, wall_y, turned, force2),
    ensures
        exists|sums: Seq<GeneralizedForce>, sums2: Seq<GeneralizedForce>|
            {
                &&& #[trigger] rod_sum(k, physics, wall_y, params.m as int, pose, sums)
                &&& #[trigger] rod_sum(k, physics, wall_y, params.m as int, turned, sums2)
                &&& sums.len() == 2 * params.m + 2
                &&& sums2.len() == 2 * params.m + 2
                &&& same_shares_reversed(k, params.m as int, sums, sums2)
                &&& only_force_added(k, sums.last(), params, force)
                &&& only_force_added(k, sums2.last(), params, force2)
            },
{
    let m = params.m as int;
    let sums = choose|sums: Seq<GeneralizedForce>|
        {
            &&& #[trigger] rod_sum(k, physics, wall_y, m, pose, sums)
            &&& sums.len() == 2 * m + 2
            &&& add_external_force_gives(k, sums.last(), params, pose, force)
        };
    let sums2 = choose|sums2: Seq<GeneralizedForce>|
        {
            &&& #[trigger] rod_sum(k, physics, wall_y, m, turned, sums2)
            &&& sums2.len() == 2 * m + 2
            &&& add_external_force_gives(k, sums2.last(), params, turned, force2)
        };
    assert forall|i: int| 0 <= i <= 2 * m implies same_share(
        k,
        #[trigger] sums[i],
        sums[i + 1],
        sums2[2 * m - i],
        sums2[2 * m - i + 1],
    ) by {
        let j = (i - m) as i32;
        let i2 = 2 * m - i;
        let j2 = (i2 - m) as i32;
        assert(point_is_placed(k, pose, physics.particle_dx, j));
        assert(point_added(k, physics, wall_y, j, pose, sums[i], sums[i + 1]));
        assert(point_added(k, physics, wall_y, j2, turned, sums2[i2], sums2[i2 + 1]));
        law_point_of_turned_rod(
            k,
            physics,
            wall_y,
            j,
            j2,
            pose,
            turned,
            sums[i],
            sums[i + 1],
            sums2[i2],
            sums2[i2 + 1],
        );
    }
    lemma_no_field(k, sums.last(), params, pose, force);
    lemma_no_field(k, sums2.last(), params, turned, force2);
    assert(same_shares_reversed(k, m, sums, sums2));
}

} // verus!
