//! What follows from a configuration, from the length of a rod and from a word of the generator, where
//! nothing is rounded.

use vstd::arithmetic::power2::{lemma2_to64, lemma2_to64_rest, lemma_pow2_adds};
use vstd::prelude::*;
use crate::algebra::{
    lemma_cube_of_product, lemma_grouped, lemma_last_two, lemma_positive_factor, lemma_quotient,
    lemma_sum_times, lemma_two_pairs,
};
use crate::bins::cuts;
use crate::config::{geometry_gives, rc2_gives, Geometry, FOUR_FIFTHS, L_PERIOD, MILLIONTH, SIX};
use crate::double::{weight, Double};
use crate::exact::{
    exact, law_exact_value, lemma_constants, lemma_digits, lemma_divisor, lemma_negated,
    lemma_order, lemma_sign, real_of, worth,
};
use crate::formula::{
    cbrt_of, gives, lit, ln_of, minus, nearest_of, num, over, plus, steady, times, unary_gives,
    Arithmetic, Expr, UnaryOp, HALF, ONE, QUARTER, THREE, TWO,
};
use crate::model::{
    aspect_ratio, delta_perp_of, end_correction, nu_parallel_of, nu_perp_of, tirado_terms_gives,
    TiradoTerms, FORTY,
};
use crate::rng::{inside_unit, uniform_formula, uniform_gives, UNIFORM_SCALE};
use crate::shape::{lemma_whole_part, whole, whole_of};

verus! {

// ---- The geometry ----

/// Whether rounding to a whole number gives one that is no more than a half away.
pub open spec fn rounds_to_whole<K: Arithmetic>(k: &K) -> bool {
    forall|a: Double, r: Double| #[trigger]
        call_ensures(K::nearest, (k, a), r) && a.finite() ==> {
            &&& r.finite()
            &&& whole(real_of(r))
            &&& -1real <= 2real * (real_of(r) - real_of(a)) <= 1real
        }
}

proof fn lemma_nearest<K: Arithmetic>(k: &K, a: Expr, r: Double)
    requires
        steady(k),
        rounds_to_whole(k),
        exact(k, nearest_of(a)),
        gives(k, nearest_of(a), r),
    ensures
        r.finite(),
        whole(real_of(r)),
        -1real <= 2real * (real_of(r) - worth(k, a)) <= 1real,
{
    law_exact_value(k, nearest_of(a), r);
    reveal_with_fuel(gives, 2);
    let p = choose|p: Double| gives(k, a, p) && #[trigger] unary_gives(k, UnaryOp::Nearest, p, r);
    law_exact_value(k, a, p);
}

/// Whether no length of a geometry is rounded.
pub open spec fn geometry_exact<K: Arithmetic>(
    k: &K,
    sigma: Double,
    delta_t: Double,
    time: Double,
    g: Geometry,
) -> bool {
    &&& exact(k, times(lit(QUARTER), num(sigma)))
    &&& exact(k, times(lit(FOUR_FIFTHS), num(sigma)))
    &&& exact(k, times(lit(SIX), num(g.particle_dx)))
    &&& exact(k, over(lit(L_PERIOD), num(g.wall_dx)))
    &&& exact(k, nearest_of(num(g.n_wall_exact)))
    &&& exact(k, minus(num(g.n_wall_exact), num(g.n_wall_rounded)))
    &&& exact(k, times(lit(MILLIONTH), num(g.n_wall_rounded)))
    &&& exact(k, nearest_of(over(num(time), num(delta_t))))
}

/// Wall points lie a quarter of sigma apart, the points of a rod four fifths of it, as near as a number
/// comes to that, and the reference rod has the length of six of these. The wall points that fit into a
/// period are counted to the nearest one. The steps take the time as nearly as whole steps can.
pub proof fn law_geometry<K: Arithmetic>(
    k: &K,
    sigma: Double,
    delta_t: Double,
    time: Double,
    g: Geometry,
)
    requires
        steady(k),
        rounds_to_whole(k),
        cuts(k),
        geometry_gives(k, sigma, delta_t, time, g),
        geometry_exact(k, sigma, delta_t, time, g),
        0real <= real_of(g.n_wall_exact) < 4294967296real,
        real_of(delta_t) > 0real,
        0real <= real_of(time) < 4294967296real * real_of(delta_t),
    ensures
        ({
            let off = real_of(g.n_wall_exact) - real_of(g.n_wall_rounded);
            let miss = 2real * (whole_of(g.max_steps as int) * real_of(delta_t) - real_of(time));
            let fifths = 5000000000000000real * real_of(Double { bits: FOUR_FIFTHS });
            let millions = 1000000000000000000000real * real_of(Double { bits: MILLIONTH });
            &&& 4real * real_of(g.wall_dx) == real_of(sigma)
            &&& real_of(g.particle_dx) == real_of(Double { bits: FOUR_FIFTHS }) * real_of(sigma)
            &&& 4000000000000000real <= fifths <= 4000000000000001real
            &&& real_of(g.diffusion_reference_length) == 6real * real_of(g.particle_dx)
            &&& real_of(g.n_wall_exact) * real_of(g.wall_dx) == 1real
            &&& real_of(g.n_wall_rounded) == whole_of(g.n_wall as int)
            &&& -1real <= 2real * off <= 1real
            &&& real_of(g.deviation) == if off < 0real {
                -off
            } else {
                off
            }
            &&& real_of(g.tolerance) == real_of(Double { bits: MILLIONTH }) * real_of(
                g.n_wall_rounded,
            )
            &&& 999999999999999real <= millions <= 1000000000000001real
            &&& -real_of(delta_t) <= miss <= real_of(delta_t)
        }),
{
    lemma_constants();
    lemma2_to64();
    lemma2_to64_rest();
    lemma_digits(Double { bits: SIX }, 0x18_0000_0000_0000, 50, 0x4_0000_0000_0000);
    lemma_digits(Double { bits: FOUR_FIFTHS }, 0x19_9999_9999_999a, 53, 0x20_0000_0000_0000);
    lemma_millionth();
    law_exact_value(k, times(lit(QUARTER), num(sigma)), g.wall_dx);
    law_exact_value(k, times(lit(FOUR_FIFTHS), num(sigma)), g.particle_dx);
    law_exact_value(k, times(lit(SIX), num(g.particle_dx)), g.diffusion_reference_length);
    lemma_divisor(k, lit(L_PERIOD), num(g.wall_dx), g.n_wall_exact);
    law_exact_value(k, times(lit(MILLIONTH), num(g.n_wall_rounded)), g.tolerance);
    let d = choose|d: Double| #[trigger]
        gives(k, minus(num(g.n_wall_exact), num(g.n_wall_rounded)), d) && g.deviation
            == d.absolute();
    law_exact_value(k, minus(num(g.n_wall_exact), num(g.n_wall_rounded)), d);
    lemma_negated(d);
    lemma_nearest(k, num(g.n_wall_exact), g.n_wall_rounded);
    let steps = choose|steps: Double| #[trigger]
        gives(k, nearest_of(over(num(time), num(delta_t))), steps) && call_ensures(
            K::to_unsigned,
            (k, steps),
            g.max_steps,
        );
    lemma_nearest(k, over(num(time), num(delta_t)), steps);
    let quarter = real_of(Double { bits: QUARTER });
    assert(real_of(g.wall_dx) == quarter * real_of(sigma)) by {
        reveal_with_fuel(worth, 2);
    }
    lemma_last_two(quarter, real_of(sigma), 4real);
    assert(real_of(g.particle_dx) == real_of(Double { bits: FOUR_FIFTHS }) * real_of(sigma)) by {
        reveal_with_fuel(worth, 2);
    }
    assert(real_of(g.diffusion_reference_length) == 6real * real_of(g.particle_dx)) by {
        reveal_with_fuel(worth, 2);
    }
    assert(real_of(g.tolerance) == real_of(Double { bits: MILLIONTH }) * real_of(
        g.n_wall_rounded,
    )) by {
        reveal_with_fuel(worth, 2);
    }
    assert(real_of(d) == real_of(g.n_wall_exact) - real_of(g.n_wall_rounded)) by {
        reveal_with_fuel(worth, 2);
    }
    assert(worth(k, num(g.n_wall_exact)) == real_of(g.n_wall_exact));
    lemma_at_least_zero(real_of(g.n_wall_rounded), real_of(g.n_wall_exact));
    lemma_whole_part(real_of(g.n_wall_rounded), g.n_wall as int);
    let dt = real_of(delta_t);
    let t = real_of(time);
    let share = t / dt;
    assert(worth(k, over(num(time), num(delta_t))) == share) by {
        reveal_with_fuel(worth, 2);
    }
    lemma_quotient(t, dt);
    lemma_positive_factor(share, dt);
    lemma_sum_times(share, 4294967296real, dt);
    lemma_positive_factor(share - 4294967296real, dt);
    lemma_at_least_zero(real_of(steps), share);
    lemma_whole_part(real_of(steps), g.max_steps as int);
    let off = 2real * (real_of(steps) - share);
    lemma_sum_times(real_of(steps), share, dt);
    lemma_grouped(2real, real_of(steps) - share, dt);
    lemma_sum_times(off, 1real, dt);
    lemma_positive_factor(off - 1real, dt);
    lemma_positive_factor(off + 1real, dt);
}

proof fn lemma_at_least_zero(r: real, a: real)
    requires
        whole(r),
        -1real <= 2real * (r - a),
        0real <= a,
    ensures
        0real <= r,
{
    let m = choose|m: int| #[trigger] whole_of(m) == r;
    assert(m > -1);
}

proof fn lemma_millionth()
    ensures
        999999999999999real <= 1000000000000000000000real * real_of(Double { bits: MILLIONTH })
            <= 1000000000000001real,
{
    lemma2_to64();
    lemma2_to64_rest();
    lemma_pow2_adds(61, 11);
    assert(0x2000_0000_0000_0000int * 0x800 == 0x1_0000_0000_0000_0000_00int);
    lemma_digits(
        Double { bits: MILLIONTH },
        0x10_c6f7_a0b5_ed8d,
        72,
        0x1_0000_0000_0000_0000_00,
    );
}

/// The cube of the square of the distance at which the repulsion ends is twice that of sigma, if the
/// cube root of 2 is one.
pub proof fn law_reach_of_walls<K: Arithmetic>(k: &K, sigma: Double, rc2: Double)
    requires
        steady(k),
        rc2_gives(k, sigma, rc2),
        exact(k, times(times(cbrt_of(lit(TWO)), num(sigma)), num(sigma))),
        ({
            let root = worth(k, cbrt_of(lit(TWO)));
            root * root * root == 2real
        }),
    ensures
        ({
            let square = real_of(sigma) * real_of(sigma);
            let reach = real_of(rc2);
            reach * reach * reach == 2real * (square * square * square)
        }),
{
    law_exact_value(k, times(times(cbrt_of(lit(TWO)), num(sigma)), num(sigma)), rc2);
    let root = worth(k, cbrt_of(lit(TWO)));
    let s = real_of(sigma);
    assert(real_of(rc2) == (root * s) * s) by {
        reveal_with_fuel(worth, 3);
    }
    lemma_grouped(root, s, s);
    lemma_cube_of_product(root, s * s);
}

// ---- The terms of a rod ----

proof fn lemma_one_squared(o: real, z: real)
    requires
        o == 1real,
    ensures
        z * (o * o) == z,
{
    assert(o * o == 1real) by (nonlinear_arith)
        requires
            o == 1real,
    ;
}

/// A quadratic in 1/p, times p squared.
proof fn lemma_end_correction<K: Arithmetic>(k: &K, l: Double, a: u64, b: u64, c: u64, less: bool)
    requires
        real_of(l) != 0real,
    ensures
        ({
            let p = 40real * real_of(l);
            let quadratic = real_of(Double { bits: a }) * (p * p) + real_of(Double { bits: b }) * p;
            let last = real_of(Double { bits: c });
            worth(k, end_correction(l, a, b, c, less)) * (p * p) == if less {
                quadratic - last
            } else {
                quadratic + last
            }
        }),
{
    lemma_constants();
    lemma2_to64();
    lemma2_to64_rest();
    lemma_digits(Double { bits: FORTY }, 0x14_0000_0000_0000, 47, 0x8000_0000_0000);
    let p = 40real * real_of(l);
    let q = 1real / p;
    let inv_p = over(lit(ONE), aspect_ratio(l));
    assert(worth(k, inv_p) == q) by {
        reveal_with_fuel(worth, 3);
    }
    let x = real_of(Double { bits: a });
    let y = real_of(Double { bits: b });
    let z = real_of(Double { bits: c });
    assert(worth(k, times(inv_p, inv_p)) == q * q) by {
        reveal_with_fuel(worth, 2);
    }
    let w = worth(k, end_correction(l, a, b, c, less));
    assert(w == if less {
        (x + y * q) - z * (q * q)
    } else {
        (x + y * q) + z * (q * q)
    }) by {
        reveal_with_fuel(worth, 4);
    }
    lemma_quotient(1real, p);
    let square = p * p;
    lemma_sum_times(x + y * q, z * (q * q), square);
    lemma_sum_times(x, y * q, square);
    lemma_two_pairs(y, q, p, p);
    lemma_grouped(y, p, q * p);
    lemma_grouped(z, q * q, square);
    lemma_two_pairs(q, q, p, p);
    assert((y * q) * square == y * p);
    lemma_one_squared(q * p, z);
    assert((z * (q * q)) * square == z);
}

/// Whether no term of a rod is rounded.
pub open spec fn terms_exact<K: Arithmetic>(k: &K, l: Double) -> bool {
    &&& exact(k, ln_of(aspect_ratio(l)))
    &&& exact(k, nu_parallel_of(l))
    &&& exact(k, delta_perp_of(l))
    &&& exact(
        k,
        plus(
            plus(
                times(lit(THREE), ln_of(aspect_ratio(l))),
                times(lit(TWO), nu_parallel_of(l)),
            ),
            nu_perp_of(l),
        ),
    )
}

/// The terms of a rod. With p = 40 l, the corrections times p squared are -0.207 p^2 + 0.980 p - 0.133
/// along the rod, 0.839 p^2 + 0.185 p + 0.233 across it and -0.630 p^2 + 0.917 p - 0.050 for its
/// rotation; the denominator is three logarithms of p, two corrections along the rod and one across it.
pub proof fn law_terms_of_rod<K: Arithmetic>(k: &K, l: Double, terms: TiradoTerms)
    requires
        steady(k),
        tirado_terms_gives(k, l, terms),
        terms_exact(k, l),
        real_of(l) != 0real,
    ensures
        ({
            let p = 40real * real_of(l);
            let across = real_of(terms.denominator) - 3real * real_of(terms.log_p) - 2real
                * real_of(terms.nu_parallel);
            &&& exists|q: Double| #[trigger]
                call_ensures(K::logarithm, (k, q), terms.log_p) && real_of(q) == p
            &&& real_of(terms.nu_parallel) * (p * p) == real_of(
                Double { bits: 0xbfca_7ef9_db22_d0e5 },
            ) * (p * p) + real_of(Double { bits: 0x3fef_5c28_f5c2_8f5c }) * p - real_of(
                Double { bits: 0x3fc1_0624_dd2f_1aa0 },
            )
            &&& across * (p * p) == real_of(Double { bits: 0x3fea_d916_872b_020c }) * (p * p)
                + real_of(Double { bits: 0x3fc7_ae14_7ae1_47ae }) * p + real_of(
                Double { bits: 0x3fcd_d2f1_a9fb_e76d },
            )
            &&& real_of(terms.delta_perp) * (p * p) == real_of(
                Double { bits: 0xbfe4_28f5_c28f_5c29 },
            ) * (p * p) + real_of(Double { bits: 0x3fed_5810_624d_d2f2 }) * p - real_of(
                Double { bits: 0x3fa9_9999_9999_999a },
            )
        }),
{
    lemma_constants();
    lemma2_to64();
    lemma2_to64_rest();
    lemma_digits(Double { bits: FORTY }, 0x14_0000_0000_0000, 47, 0x8000_0000_0000);
    let log_form = ln_of(aspect_ratio(l));
    let sum = plus(
        plus(times(lit(THREE), log_form), times(lit(TWO), nu_parallel_of(l))),
        nu_perp_of(l),
    );
    law_exact_value(k, log_form, terms.log_p);
    law_exact_value(k, nu_parallel_of(l), terms.nu_parallel);
    law_exact_value(k, delta_perp_of(l), terms.delta_perp);
    law_exact_value(k, sum, terms.denominator);
    let q = choose|q: Double|
        gives(k, aspect_ratio(l), q) && #[trigger] unary_gives(
            k,
            UnaryOp::Logarithm,
            q,
            terms.log_p,
        );
    assert(gives(k, aspect_ratio(l), q) && unary_gives(k, UnaryOp::Logarithm, q, terms.log_p)) by {
        reveal_with_fuel(gives, 2);
    }
    assert(exact(k, aspect_ratio(l)));
    law_exact_value(k, aspect_ratio(l), q);
    assert(worth(k, aspect_ratio(l)) == 40real * real_of(l)) by {
        reveal_with_fuel(worth, 2);
    }
    assert(call_ensures(K::logarithm, (k, q), terms.log_p));
    assert(worth(k, sum) == (3real * worth(k, log_form) + 2real * worth(k, nu_parallel_of(l)))
        + worth(k, nu_perp_of(l))) by {
        reveal_with_fuel(worth, 4);
    }
    lemma_end_correction(
        k,
        l,
        0xbfca_7ef9_db22_d0e5,
        0x3fef_5c28_f5c2_8f5c,
        0x3fc1_0624_dd2f_1aa0,
        true,
    );
    lemma_end_correction(
        k,
        l,
        0x3fea_d916_872b_020c,
        0x3fc7_ae14_7ae1_47ae,
        0x3fcd_d2f1_a9fb_e76d,
        false,
    );
    lemma_end_correction(
        k,
        l,
        0xbfe4_28f5_c28f_5c29,
        0x3fed_5810_624d_d2f2,
        0x3fa9_9999_9999_999a,
        true,
    );
}

// ---- Uniform numbers ----

/// The uniform number of a word is the middle of one of 2^53 equal parts between 0 and 1, the one that
/// the upper 53 bits of the word number.
pub proof fn law_uniform_of_word<K: Arithmetic>(k: &K, word: u64, u: Double)
    requires
        steady(k),
        uniform_gives(k, word, u),
        exact(k, uniform_formula(word)),
    ensures
        real_of(u) * 18014398509481984real == (2 * (word / 2048) + 1) as real,
{
    lemma_constants();
    lemma2_to64();
    lemma2_to64_rest();
    lemma_pow2_adds(52, 969);
    lemma_digits(Double { bits: UNIFORM_SCALE }, 1, 53, 0x20_0000_0000_0000);
    let v = choose|v: Double| #[trigger]
        gives(k, uniform_formula(word), v) && u == inside_unit(v);
    law_exact_value(k, uniform_formula(word), v);
    assert(word >> 11 == word / 2048) by (bit_vector);
    let n = ((word / 2048) as int) as real;
    let half = real_of(Double { bits: HALF });
    let scale = real_of(Double { bits: UNIFORM_SCALE });
    assert(real_of(v) == (n + half) * scale) by {
        reveal_with_fuel(worth, 3);
    }
    lemma_grouped(n + half, scale, 18014398509481984real);
    let parts = scale * 18014398509481984real;
    let m = n + half;
    assert(m * parts == m * 2real) by (nonlinear_arith)
        requires
            parts == 2real,
    ;
    assert(real_of(v) * 18014398509481984real == (2 * (word / 2048) + 1) as real);
    assert(0real < real_of(v) < 1real);
    lemma_order(v, Double { bits: ONE });
    lemma_sign(v);
    assert((Double { bits: 0 }).value() == 0) by {
        assert(weight(0) == 0);
    }
}

} // verus!
