//! Rotary positions leave the first position as it is. Of the sine and the cosine
//! this asks what they are at zero.
use crate::float::{lemma_code, lemma_magnitude_increases, lemma_round_exact, of_int, F32, ONE_CODE};
use crate::int8_grid::{lemma_zero_product, same_number};
use crate::llm::{is_angle, is_rope, rope_via, rotated, RopeType};
use crate::math::{is_cos, is_inv_freq, is_sin, Math};
use crate::optim::lemma_times_one;
use crate::quant::all_finite;
use crate::rounding::lemma_round_at_most;
use vstd::arithmetic::power2::{lemma2_to64, lemma_pow2_pos, pow2};
use vstd::prelude::*;

verus! {

/// The sine of zero is zero, and its cosine is one.
pub open spec fn angles_start_at_zero<M: Math>(m: &M) -> bool {
    &&& forall|x: F32, y: F32| #[trigger] is_sin(m, x, y) && x.zero_spec() ==> y.zero_spec()
    &&& forall|x: F32, y: F32|
        #[trigger] is_cos(m, x, y) && x.zero_spec() ==> y == F32 { bits: ONE_CODE }
}

/// Frequencies of this base are finite.
pub open spec fn frequencies_are_finite<M: Math>(m: &M, base: F32, rope_dim: usize) -> bool {
    forall|i: usize, f: F32| #[trigger] is_inv_freq(m, base, i, rope_dim, f) ==> f.finite_spec()
}

/// Adding zero, or to zero, leaves a number.
pub(crate) proof fn lemma_plus_zero(a: F32, z: F32)
    requires
        a.finite_spec(),
        z.zero_spec(),
    ensures
        same_number(a.add_spec(z), a),
        same_number(z.add_spec(a), a),
        same_number(a.sub_spec(z), a),
{
    reveal(F32::add_spec);
    lemma_code(0, 0);
    lemma2_to64();
    if a.code_spec() > 0 {
        lemma_magnitude_increases(0, a.code_spec());
    }
    lemma_round_exact(a.code_spec());
}

/// A turn by nothing leaves both channels of a pair.
proof fn lemma_no_turn(a: F32, b: F32, s: F32, c: F32)
    requires
        a.finite_spec(),
        b.finite_spec(),
        s.zero_spec(),
        c == (F32 { bits: ONE_CODE }),
    ensures
        same_number(a.mul_spec(c).sub_spec(b.mul_spec(s)), a),
        same_number(a.mul_spec(s).add_spec(b.mul_spec(c)), b),
{
    lemma_times_one(a);
    lemma_times_one(b);
    lemma_times_zero(a, s);
    lemma_times_zero(b, s);
    lemma_plus_zero(a, b.mul_spec(s));
    lemma_plus_zero(b, a.mul_spec(s));
}

/// A finite number times zero is zero.
pub(crate) proof fn lemma_times_zero(a: F32, z: F32)
    requires
        a.finite_spec(),
        z.zero_spec(),
    ensures
        a.mul_spec(z).zero_spec(),
{
    reveal(F32::mul_spec);
    lemma_code(0, 0);
    lemma2_to64();
    lemma_pow2_pos(149);
    assert(a.mag() * z.mag() == 0) by (nonlinear_arith)
        requires
            z.mag() == 0,
    ;
    lemma_round_at_most(0, pow2(149) as int, 0);
}

/// Angles at the first position are zero.
proof fn lemma_first_angle<M: Math>(
    m: &M,
    base: F32,
    i: int,
    rope_dim: usize,
    s: F32,
    c: F32,
)
    requires
        angles_start_at_zero(m),
        frequencies_are_finite(m, base, rope_dim),
        is_angle(m, base, i, rope_dim, 0, s, c),
    ensures
        s.zero_spec(),
        c == (F32 { bits: ONE_CODE }),
{
    reveal(of_int);
    lemma_code(0, 0);
    lemma2_to64();
    lemma_round_exact(0);
    let f = choose|f: F32|
        #[trigger] is_inv_freq(m, base, i as usize, rope_dim, f) && is_sin(
            m,
            of_int(0).mul_spec(f),
            s,
        ) && is_cos(m, of_int(0).mul_spec(f), c);
    assert(0 * pow2(149) == 0) by (nonlinear_arith);
    assert(of_int(0).zero_spec());
    lemma_zero_product(of_int(0), f);
}

/// At the first position, rotary positions leave every finite number as it is, but
/// for the sign of zeros.
pub proof fn the_first_position_is_not_turned<M: Math>(
    m: &M,
    x: Seq<F32>,
    y: Seq<F32>,
    n_heads: int,
    head_dim: int,
    rope_dim: usize,
    base: F32,
    rope_type: RopeType,
    p: int,
)
    requires
        angles_start_at_zero(m),
        frequencies_are_finite(m, base, rope_dim),
        is_rope(m, x, y, n_heads, head_dim, rope_dim, 0, base, rope_type),
        x.len() == n_heads * head_dim,
        rope_dim <= head_dim,
        rope_dim % 2 == 0,
        all_finite(x),
        0 <= p < x.len(),
    ensures
        y.len() == x.len(),
        same_number(y[p], x[p]),
{
    let (sines, cosines) = choose|sines: Seq<F32>, cosines: Seq<F32>|
        rope_via(
            m,
            x,
            y,
            sines,
            cosines,
            n_heads,
            head_dim,
            rope_dim,
            0,
            base,
            rope_type,
        );
    assert(y[p] == rotated(x, sines, cosines, head_dim, rope_dim as int, rope_type, p));
    let half = rope_dim as int / 2;
    assert(n_heads >= 0 && head_dim > 0) by (nonlinear_arith)
        requires
            0 <= p < n_heads * head_dim,
            head_dim >= 0,
    ;
    let h = p / head_dim;
    let d = p % head_dim;
    assert(0 <= h < n_heads && 0 <= d < head_dim && p == h * head_dim + d) by (nonlinear_arith)
        requires
            h == p / head_dim,
            d == p % head_dim,
            0 <= p < n_heads * head_dim,
            head_dim > 0,
    ;
    assert(h * head_dim + head_dim <= n_heads * head_dim) by (nonlinear_arith)
        requires
            h + 1 <= n_heads,
            head_dim > 0,
    ;
    if d < rope_dim {
        let k = match rope_type {
            RopeType::Norm => d / 2,
            RopeType::Neox => if d < half {
                d
            } else {
                d - half
            },
        };
        let u = h * half + k;
        assert(0 <= u < n_heads * half) by (nonlinear_arith)
            requires
                u == h * half + k,
                0 <= k < half,
                0 <= h < n_heads,
        ;
        lemma_first_angle(m, base, u % half, rope_dim, sines[u], cosines[u]);
        let other = match rope_type {
            RopeType::Norm => if d % 2 == 0 {
                p + 1
            } else {
                p - 1
            },
            RopeType::Neox => if d < half {
                p + half
            } else {
                p - half
            },
        };
        assert(0 <= other < x.len());
        assert(x[p].finite_spec() && x[other].finite_spec());
        lemma_no_turn(x[p], x[other], sines[u], cosines[u]);
        lemma_no_turn(x[other], x[p], sines[u], cosines[u]);
    }
}

} // verus!
