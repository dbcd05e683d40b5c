//! A rotation and the rotation back leave every channel, up to rounding. Of the
//! sine and the cosine this asks that their squares sum to one, nearly.
use crate::float::{
    lemma_code, lemma_magnitude_increases, lemma_round_exists, magnitude, round, F32, INF_CODE,
};
use crate::llm::{rotated, turned, RopeType};
use crate::quant::all_finite;
use crate::rounding::{lemma_miss, lemma_round_at_most};
use vstd::arithmetic::power2::{lemma2_to64, lemma_pow2_pos, pow2};
use vstd::prelude::*;

verus! {

/// Sine and cosine lie on the unit circle, up to the 2^20th part.
pub open spec fn on_circle(s: F32, c: F32) -> bool {
    let one = pow2(149) as int;
    let gap = c.units() * c.units() + s.units() * s.units() - one * one;
    &&& s.finite_spec()
    &&& c.finite_spec()
    &&& s.mag() <= one
    &&& c.mag() <= one
    &&& -(one * one) <= gap * 0x10_0000 <= one * one
}

/// Every sine lies on the unit circle with its cosine.
pub open spec fn on_circles(sines: Seq<F32>, cosines: Seq<F32>) -> bool {
    &&& sines.len() == cosines.len()
    &&& forall|u: int| 0 <= u < sines.len() ==> on_circle(#[trigger] sines[u], cosines[u])
}

/// The channel that is turned together with channel `p`.
pub open spec fn partner(head_dim: int, rope_dim: int, rope_type: RopeType, p: int) -> int {
    let half = rope_dim / 2;
    let d = p % head_dim;
    match rope_type {
        RopeType::Norm => if d % 2 == 0 {
            p + 1
        } else {
            p - 1
        },
        RopeType::Neox => if d < half {
            p + half
        } else {
            p - half
        },
    }
}

/// A number moved by at most 28 parts in 2^24 of itself and its partner, and three
/// times the least magnitude.
pub open spec fn barely_moved(v: F32, origin: F32, other: F32) -> bool {
    let gap = v.units() - origin.units();
    let most = 28 * (origin.mag() + other.mag()) + 0x300_0000;
    -most <= gap * 0x100_0000 <= most
}

proof fn lemma_magnitude(x: F32)
    requires
        x.finite_spec(),
    ensures
        x.mag() >= 0,
{
    lemma_code(0, 0);
    lemma2_to64();
    if x.code_spec() > 0 {
        lemma_magnitude_increases(0, x.code_spec());
    }
}

/// A product with a number of at most one is rounded by little, and does not grow.
#[verifier::rlimit(60)]
#[verifier::spinoff_prover]
proof fn lemma_product(x: F32, c: F32)
    requires
        x.finite_spec(),
        c.finite_spec(),
        c.mag() <= pow2(149),
    ensures
        ({
            let r = x.mul_spec(c);
            let one = pow2(149) as int;
            let most = (x.mag() + 0x80_0000) * one;
            &&& r.finite_spec()
            &&& 0 <= r.mag() <= x.mag()
            &&& -most <= (r.units() * one - x.units() * c.units()) * 0x100_0000 <= most
        }),
{
    reveal(F32::mul_spec);
    lemma_magnitude(x);
    lemma_magnitude(c);
    lemma_pow2_pos(149);
    let p = pow2(149) as int;
    let a = x.mag();
    let b = c.mag();
    let num = a * b;
    assert(0 <= num <= a * p) by (nonlinear_arith)
        requires
            num == a * b,
            a >= 0,
            0 <= b <= p,
    ;
    lemma_round_at_most(num, p, x.code_spec());
    lemma_round_exists(num, p);
    let k = round(num, p);
    lemma_miss(num, p, k);
    let r = x.mul_spec(c);
    assert(r.code_spec() == k);
    lemma_magnitude(r);
    if k < x.code_spec() {
        lemma_magnitude_increases(k, x.code_spec());
    }
    let most = (a + 0x80_0000) * p;
    assert(num + 0x80_0000 * p <= most) by (nonlinear_arith)
        requires
            num <= a * p,
            most == (a + 0x80_0000) * p,
    ;
    let gap = r.mag() * p - num;
    assert(-most <= gap * 0x100_0000 <= most);
    let sum = r.units() * p - x.units() * c.units();
    assert(sum == gap || sum == -gap) by {
        assert(-r.mag() * p == -(r.mag() * p)) by (nonlinear_arith);
        assert(-a * -b == a * b) by (nonlinear_arith);
        assert(-a * b == -(a * b)) by (nonlinear_arith);
        assert(a * -b == -(a * b)) by (nonlinear_arith);
    }
}

/// The size of an integer.
spec fn size(x: int) -> int {
    if x < 0 {
        -x
    } else {
        x
    }
}

/// A sum is rounded by little.
proof fn lemma_sum(a: F32, b: F32)
    requires
        a.finite_spec(),
        b.finite_spec(),
        a.add_spec(b).finite_spec(),
    ensures
        size(a.add_spec(b).units() - (a.units() + b.units())) * 0x100_0000 <= size(
            a.units() + b.units(),
        ),
{
    reveal(F32::add_spec);
    lemma_code(0, 0);
    lemma2_to64();
    let n = a.units() + b.units();
    lemma_round_exists(size(n), 1);
    let c = round(size(n), 1);
    if n != 0 {
        assert(c < INF_CODE);
        lemma_miss(size(n), 1, c);
        assert(magnitude(c) * 1 == magnitude(c)) by (nonlinear_arith);
    }
}

/// The number with its sign turned.
proof fn lemma_negated(x: F32)
    requires
        x.finite_spec(),
    ensures
        x.negated().finite_spec(),
        x.negated().units() == -x.units(),
        x.negated().mag() == x.mag(),
{
}

/// What rounding does to a sum of two products.
#[verifier::rlimit(60)]
#[verifier::spinoff_prover]
proof fn lemma_rounded_sum(u: int, v: int, x: int, y: int, r: int, m: int, n: int, p: int)
    requires
        p > 0,
        size(u) <= m,
        size(v) <= n,
        -((m + 0x80_0000) * p) <= (u * p - x) * 0x100_0000 <= (m + 0x80_0000) * p,
        -((n + 0x80_0000) * p) <= (v * p - y) * 0x100_0000 <= (n + 0x80_0000) * p,
        size(r - (u + v)) * 0x100_0000 <= size(u + v),
    ensures
        size(r) <= 2 * (m + n),
        -((2 * (m + n) + 0x100_0000) * p) <= (r * p - (x + y)) * 0x100_0000 <= (2 * (m + n)
            + 0x100_0000) * p,
{
    let e = (r - (u + v)) * 0x100_0000;
    let k = m + n;
    assert(-(k * p) <= e * p <= k * p) by (nonlinear_arith)
        requires
            -k <= e <= k,
            p > 0,
    ;
    let rp = r * p;
    let up = u * p;
    let vp = v * p;
    assert(e * p == (rp - up - vp) * 0x100_0000) by (nonlinear_arith)
        requires
            e == (r - (u + v)) * 0x100_0000,
            rp == r * p,
            up == u * p,
            vp == v * p,
    ;
    let mp = m * p;
    let np = n * p;
    assert((m + 0x80_0000) * p == mp + 0x80_0000 * p && (n + 0x80_0000) * p == np + 0x80_0000 * p
        && (2 * (m + n) + 0x100_0000) * p == 2 * mp + 2 * np + 0x100_0000 * p && k * p == mp + np)
        by (nonlinear_arith)
        requires
            mp == m * p,
            np == n * p,
            k == m + n,
    ;
}

/// The first channel of a turned pair.
proof fn lemma_first(a: F32, b: F32, s: F32, c: F32)
    requires
        a.finite_spec(),
        b.finite_spec(),
        s.finite_spec(),
        c.finite_spec(),
        s.mag() <= pow2(149),
        c.mag() <= pow2(149),
        a.mul_spec(c).sub_spec(b.mul_spec(s)).finite_spec(),
    ensures
        ({
            let r = a.mul_spec(c).sub_spec(b.mul_spec(s));
            let one = pow2(149) as int;
            let most = (2 * (a.mag() + b.mag()) + 0x100_0000) * one;
            &&& r.mag() <= 2 * (a.mag() + b.mag())
            &&& -most <= (r.units() * one - (a.units() * c.units() - b.units() * s.units()))
                * 0x100_0000 <= most
        }),
{
    lemma_pow2_pos(149);
    let p = pow2(149) as int;
    lemma_product(a, c);
    lemma_product(b, s);
    let u = a.mul_spec(c);
    let v = b.mul_spec(s);
    lemma_negated(v);
    lemma_sum(u, v.negated());
    let r = u.sub_spec(v);
    let x = a.units() * c.units();
    let y = b.units() * s.units();
    assert(-v.units() * p == -(v.units() * p)) by (nonlinear_arith);
    lemma_rounded_sum(u.units(), -v.units(), x, -y, r.units(), a.mag(), b.mag(), p);
}

/// The second channel of a turned pair.
proof fn lemma_second(a: F32, b: F32, s: F32, c: F32)
    requires
        a.finite_spec(),
        b.finite_spec(),
        s.finite_spec(),
        c.finite_spec(),
        s.mag() <= pow2(149),
        c.mag() <= pow2(149),
        a.mul_spec(s).add_spec(b.mul_spec(c)).finite_spec(),
    ensures
        ({
            let r = a.mul_spec(s).add_spec(b.mul_spec(c));
            let one = pow2(149) as int;
            let most = (2 * (a.mag() + b.mag()) + 0x100_0000) * one;
            &&& r.mag() <= 2 * (a.mag() + b.mag())
            &&& -most <= (r.units() * one - (a.units() * s.units() + b.units() * c.units()))
                * 0x100_0000 <= most
        }),
{
    lemma_pow2_pos(149);
    let p = pow2(149) as int;
    lemma_product(a, s);
    lemma_product(b, c);
    let u = a.mul_spec(s);
    let v = b.mul_spec(c);
    lemma_sum(u, v);
    let r = u.add_spec(v);
    lemma_rounded_sum(
        u.units(),
        v.units(),
        a.units() * s.units(),
        b.units() * c.units(),
        r.units(),
        a.mag(),
        b.mag(),
        p,
    );
}

/// A bound of a product.
proof fn lemma_bounded_product(x: int, y: int, m: int, n: int)
    requires
        -m <= x <= m,
        -n <= y <= n,
    ensures
        -(m * n) <= x * y <= m * n,
{
    assert(-(m * n) <= x * y && x * y <= m * n) by (nonlinear_arith)
        requires
            -m <= x <= m,
            -n <= y <= n,
    ;
}

/// The misses of a turn and of the turn back add up.
#[verifier::rlimit(60)]
#[verifier::spinoff_prover]
proof fn lemma_back(a: int, b: int, s: int, c: int, a1: int, b1: int, a2: int, n: int, p: int)
    requires
        p > 0,
        -p <= s <= p,
        -p <= c <= p,
        -n <= a <= n,
        -(p * p) <= (c * c + s * s - p * p) * 0x10_0000 <= p * p,
        -((2 * n + 0x100_0000) * p) <= (a1 * p - (a * c - b * s)) * 0x100_0000 <= (2 * n
            + 0x100_0000) * p,
        -((2 * n + 0x100_0000) * p) <= (b1 * p - (a * s + b * c)) * 0x100_0000 <= (2 * n
            + 0x100_0000) * p,
        -((8 * n + 0x100_0000) * p) <= (a2 * p - (a1 * c + b1 * s)) * 0x100_0000 <= (8 * n
            + 0x100_0000) * p,
    ensures
        -(28 * n + 0x300_0000) <= (a2 - a) * 0x100_0000 <= 28 * n + 0x300_0000,
{
    let pp = p * p;
    let e1 = (a1 * p - (a * c - b * s)) * 0x100_0000;
    let e2 = (b1 * p - (a * s + b * c)) * 0x100_0000;
    let e3 = (a2 * p - (a1 * c + b1 * s)) * 0x100_0000;
    let e4 = (c * c + s * s - pp) * 0x100_0000;
    let k = (2 * n + 0x100_0000) * p;
    let l = (8 * n + 0x100_0000) * p;
    lemma_bounded_product(e1, c, k, p);
    lemma_bounded_product(e2, s, k, p);
    lemma_bounded_product(e3, p, l, p);
    lemma_bounded_product(a, e4, n, 16 * pp);
    let gap = (a2 - a) * 0x100_0000;
    let (x, y) = (a * c - b * s, a * s + b * c);
    assert(x * c + y * s == a * (c * c + s * s)) by (nonlinear_arith)
        requires
            x == a * c - b * s,
            y == a * s + b * c,
    ;
    let (t1, t2) = (a1 * p - x, b1 * p - y);
    let t3 = a2 * p - (a1 * c + b1 * s);
    let t4 = c * c + s * s - pp;
    assert((a2 - a) * pp == t3 * p + t1 * c + t2 * s + a * t4) by {
        let z = a1 * c + b1 * s;
        assert(z * p == (a1 * p) * c + (b1 * p) * s) by (nonlinear_arith)
            requires
                z == a1 * c + b1 * s,
        ;
        assert(t3 * p == a2 * pp - z * p) by (nonlinear_arith)
            requires
                t3 == a2 * p - z,
                pp == p * p,
        ;
        assert(t1 * c == (a1 * p) * c - x * c) by (nonlinear_arith)
            requires
                t1 == a1 * p - x,
        ;
        assert(t2 * s == (b1 * p) * s - y * s) by (nonlinear_arith)
            requires
                t2 == b1 * p - y,
        ;
        assert(a * t4 == a * (c * c + s * s) - a * pp) by (nonlinear_arith)
            requires
                t4 == c * c + s * s - pp,
        ;
        assert((a2 - a) * pp == a2 * pp - a * pp) by (nonlinear_arith);
    }
    assert(e1 * c == (t1 * c) * 0x100_0000) by (nonlinear_arith)
        requires
            e1 == t1 * 0x100_0000,
    ;
    assert(e2 * s == (t2 * s) * 0x100_0000) by (nonlinear_arith)
        requires
            e2 == t2 * 0x100_0000,
    ;
    assert(e3 * p == (t3 * p) * 0x100_0000) by (nonlinear_arith)
        requires
            e3 == t3 * 0x100_0000,
    ;
    assert(a * e4 == (a * t4) * 0x100_0000) by (nonlinear_arith)
        requires
            e4 == t4 * 0x100_0000,
    ;
    assert(gap * pp == ((a2 - a) * pp) * 0x100_0000) by (nonlinear_arith)
        requires
            gap == (a2 - a) * 0x100_0000,
    ;
    let most = 28 * n + 0x300_0000;
    assert(k * p + k * p + l * p + n * (16 * pp) == most * pp) by (nonlinear_arith)
        requires
            k == (2 * n + 0x100_0000) * p,
            l == (8 * n + 0x100_0000) * p,
            pp == p * p,
            most == 28 * n + 0x300_0000,
    ;
    assert(-(most * pp) <= gap * pp <= most * pp);
    assert(pp > 0) by (nonlinear_arith)
        requires
            pp == p * p,
            p > 0,
    ;
    assert(-most <= gap <= most) by (nonlinear_arith)
        requires
            -(most * pp) <= gap * pp <= most * pp,
            pp > 0,
    ;
}

/// A turn of a pair and the turn back.
#[verifier::rlimit(60)]
#[verifier::spinoff_prover]
proof fn lemma_pair(a: F32, b: F32, s: F32, c: F32, a1: F32, b1: F32, a2: F32, b2: F32)
    requires
        a.finite_spec(),
        b.finite_spec(),
        on_circle(s, c),
        a1 == a.mul_spec(c).sub_spec(b.mul_spec(s)),
        b1 == a.mul_spec(s).add_spec(b.mul_spec(c)),
        a2 == a1.mul_spec(c).sub_spec(b1.mul_spec(s.negated())),
        b2 == a1.mul_spec(s.negated()).add_spec(b1.mul_spec(c)),
        a1.finite_spec(),
        b1.finite_spec(),
    ensures
        a2.finite_spec() ==> barely_moved(a2, a, b),
        b2.finite_spec() ==> barely_moved(b2, b, a),
{
    let p = pow2(149) as int;
    lemma_pow2_pos(149);
    lemma_magnitude(a);
    lemma_magnitude(b);
    lemma_magnitude(a1);
    lemma_magnitude(b1);
    lemma_magnitude(s);
    lemma_magnitude(c);
    lemma_negated(s);
    lemma_first(a, b, s, c);
    lemma_second(a, b, s, c);
    let n = a.mag() + b.mag();
    let (xa, xb, xs, xc) = (a.units(), b.units(), s.units(), c.units());
    let (ya, yb) = (a1.units(), b1.units());
    let n1 = a1.mag() + b1.mag();
    assert((2 * n1 + 0x100_0000) * p <= (8 * n + 0x100_0000) * p) by (nonlinear_arith)
        requires
            n1 <= 4 * n,
            p > 0,
    ;
    assert(yb * -xs == -(yb * xs)) by (nonlinear_arith);
    assert(ya * -xs == -(ya * xs)) by (nonlinear_arith);
    if a2.finite_spec() {
        lemma_first(a1, b1, s.negated(), c);
        lemma_back(xa, xb, xs, xc, ya, yb, a2.units(), n, p);
    }
    if b2.finite_spec() {
        lemma_second(a1, b1, s.negated(), c);
        assert(xa * -xs == -(xa * xs)) by (nonlinear_arith);
        assert(xb * -xs == -(xb * xs)) by (nonlinear_arith);
        assert(-xs * -xs == xs * xs) by (nonlinear_arith);
        lemma_back(xb, xa, -xs, xc, yb, ya, b2.units(), n, p);
    }
}

/// The places of the two channels that turn together with channel `p` among them,
/// and of their sine.
proof fn lemma_pair_of(
    n_heads: int,
    head_dim: int,
    rope_dim: int,
    rope_type: RopeType,
    p: int,
) -> (r: (int, int, int))
    requires
        0 <= p < n_heads * head_dim,
        0 <= rope_dim <= head_dim,
        rope_dim % 2 == 0,
        p % head_dim < rope_dim,
    ensures
        ({
            let (i, j, u) = r;
            let half = rope_dim / 2;
            let h = p / head_dim;
            &&& 0 <= i < j < n_heads * head_dim
            &&& i / head_dim == h
            &&& j / head_dim == h
            &&& 0 <= i % head_dim < rope_dim
            &&& 0 <= j % head_dim < rope_dim
            &&& 0 <= u < n_heads * half
            &&& partner(head_dim, rope_dim, rope_type, i) == j
            &&& partner(head_dim, rope_dim, rope_type, j) == i
            &&& p == i || p == j
            &&& u == h * half + match rope_type {
                RopeType::Norm => (i % head_dim) / 2,
                RopeType::Neox => i % head_dim,
            }
            &&& match rope_type {
                RopeType::Norm => (i % head_dim) % 2 == 0 && j % head_dim == i % head_dim + 1,
                RopeType::Neox => i % head_dim < half && j % head_dim == i % head_dim + half,
            }
        }),
{
    let half = rope_dim / 2;
    assert(head_dim > 0) by (nonlinear_arith)
        requires
            0 <= p < n_heads * head_dim,
            head_dim >= 0,
    ;
    let h = p / head_dim;
    let d = p % head_dim;
    assert(0 <= h < n_heads && 0 <= d < head_dim && p == h * head_dim + d) by (nonlinear_arith)
        requires
            h == p / head_dim,
            d == p % head_dim,
            0 <= p < n_heads * head_dim,
            head_dim > 0,
    ;
    assert(h * head_dim + head_dim <= n_heads * head_dim) by (nonlinear_arith)
        requires
            h + 1 <= n_heads,
            head_dim > 0,
    ;
    let first = match rope_type {
        RopeType::Norm => d - d % 2,
        RopeType::Neox => if d < half {
            d
        } else {
            d - half
        },
    };
    let k = match rope_type {
        RopeType::Norm => first / 2,
        RopeType::Neox => first,
    };
    let second = match rope_type {
        RopeType::Norm => first + 1,
        RopeType::Neox => first + half,
    };
    let i = h * head_dim + first;
    let j = h * head_dim + second;
    lemma_place(h, first, head_dim);
    lemma_place(h, second, head_dim);
    let u = h * half + k;
    assert(0 <= u < n_heads * half) by (nonlinear_arith)
        requires
            u == h * half + k,
            0 <= k < half,
            0 <= h < n_heads,
    ;
    (i, j, u)
}

/// A row that is turned by sines and cosines, and turned back by the same, is the
/// row again, up to rounding: a channel moves by at most 28 parts in 2^24 of its
/// pair. Channels that do not turn stay as they are.
pub proof fn turning_back_undoes_a_turn(
    x: Seq<F32>,
    sines: Seq<F32>,
    cosines: Seq<F32>,
    n_heads: int,
    head_dim: int,
    rope_dim: int,
    rope_type: RopeType,
    p: int,
)
    requires
        x.len() == n_heads * head_dim,
        0 <= rope_dim <= head_dim,
        rope_dim % 2 == 0,
        sines.len() == n_heads * (rope_dim / 2),
        on_circles(sines, cosines),
        all_finite(x),
        all_finite(turned(x, sines, cosines, head_dim, rope_dim, rope_type)),
        0 <= p < x.len(),
    ensures
        ({
            let y = turned(x, sines, cosines, head_dim, rope_dim, rope_type);
            let back = sines.map_values(|s: F32| s.negated());
            let z = turned(y, back, cosines, head_dim, rope_dim, rope_type);
            if p % head_dim >= rope_dim {
                z[p] == x[p]
            } else {
                z[p].finite_spec() ==> barely_moved(
                    z[p],
                    x[p],
                    x[partner(head_dim, rope_dim, rope_type, p)],
                )
            }
        }),
{
    let y = turned(x, sines, cosines, head_dim, rope_dim, rope_type);
    let back = sines.map_values(|s: F32| s.negated());
    let z = turned(y, back, cosines, head_dim, rope_dim, rope_type);
    if p % head_dim < rope_dim {
        let (i, j, u) = lemma_pair_of(n_heads, head_dim, rope_dim, rope_type, p);
        assert(on_circle(sines[u], cosines[u]));
        assert(x[i].finite_spec() && x[j].finite_spec());
        assert(y[i].finite_spec() && y[j].finite_spec());
        assert(y[i] == rotated(x, sines, cosines, head_dim, rope_dim, rope_type, i));
        assert(y[j] == rotated(x, sines, cosines, head_dim, rope_dim, rope_type, j));
        assert(z[i] == rotated(y, back, cosines, head_dim, rope_dim, rope_type, i));
        assert(z[j] == rotated(y, back, cosines, head_dim, rope_dim, rope_type, j));
        lemma_pair(x[i], x[j], sines[u], cosines[u], y[i], y[j], z[i], z[j]);
    }
}

/// Where a channel of a head lies.
pub(crate) proof fn lemma_place(h: int, d: int, head_dim: int)
    requires
        h >= 0,
        0 <= d < head_dim,
    ensures
        (h * head_dim + d) / head_dim == h,
        (h * head_dim + d) % head_dim == d,
{
    assert((h * head_dim + d) / head_dim == h && (h * head_dim + d) % head_dim == d)
        by (nonlinear_arith)
        requires
            0 <= d < head_dim,
    ;
}

/// A pair keeps the square of its length: it moves by at most 26 parts in 2^24 of
/// the square of the sum of both magnitudes, and by what counts only among the
/// least magnitudes.
pub open spec fn same_length(a1: F32, b1: F32, a: F32, b: F32) -> bool {
    let n = a.mag() + b.mag();
    let gap = a1.units() * a1.units() + b1.units() * b1.units() - (a.units() * a.units() + b.units()
        * b.units());
    let most = 26 * (n * n) + 0x800_0000 * n + 0x200_0000;
    -most <= gap * 0x100_0000 <= most
}

/// The square of a number and a small part.
#[verifier::rlimit(60)]
#[verifier::spinoff_prover]
proof fn lemma_square(x: int, t: int, n: int, p: int)
    requires
        p > 0,
        n >= 0,
        -(n * p) <= x <= n * p,
        -((2 * n + 0x100_0000) * p) <= t * 0x100_0000 <= (2 * n + 0x100_0000) * p,
    ensures
        ({
            let most = 5 * ((n * n) * (p * p)) + 0x200_0004 * (n * (p * p)) + 0x100_0000 * (p * p);
            -most <= ((x + t) * (x + t) - x * x) * 0x100_0000 <= most
        }),
{
    let np = n * p;
    let k = (2 * n + 0x100_0000) * p;
    let e = t * 0x100_0000;
    let xe = x * e;
    let te = t * e;
    lemma_bounded_product(x, e, np, k);
    lemma_bounded_product(e, e, k, k);
    assert(te * 0x100_0000 == e * e) by (nonlinear_arith)
        requires
            te == t * e,
            e == t * 0x100_0000,
    ;
    let square = (x + t) * (x + t) - x * x;
    assert(square * 0x100_0000 == 2 * xe + te) by (nonlinear_arith)
        requires
            square == (x + t) * (x + t) - x * x,
            xe == x * e,
            te == t * e,
            e == t * 0x100_0000,
    ;
    let pp = p * p;
    let npp = n * pp;
    let nnpp = (n * n) * pp;
    assert(np * k == 2 * nnpp + 0x100_0000 * npp) by (nonlinear_arith)
        requires
            np == n * p,
            k == (2 * n + 0x100_0000) * p,
            nnpp == (n * n) * pp,
            npp == n * pp,
            pp == p * p,
    ;
    assert(k * k == 4 * nnpp + 0x400_0000 * npp + 0x1_0000_0000_0000 * pp) by (nonlinear_arith)
        requires
            k == (2 * n + 0x100_0000) * p,
            nnpp == (n * n) * pp,
            npp == n * pp,
            pp == p * p,
    ;
    assert(nnpp >= 0 && npp >= 0 && pp >= 0 && te * 0x100_0000 >= 0) by (nonlinear_arith)
        requires
            nnpp == (n * n) * pp,
            npp == n * pp,
            pp == p * p,
            n >= 0,
            te * 0x100_0000 == e * e,
    ;
}

/// The squares of both parts of a turn sum to the product of the two sums of
/// squares.
proof fn lemma_turned_squares(a: int, b: int, s: int, c: int)
    ensures
        (a * c - b * s) * (a * c - b * s) + (a * s + b * c) * (a * s + b * c) == (a * a + b * b) * (c
            * c + s * s),
{
    let (ac, bs, at, bc) = (a * c, b * s, a * s, b * c);
    assert((ac - bs) * (ac - bs) == ac * ac - 2 * (ac * bs) + bs * bs) by (nonlinear_arith);
    assert((at + bc) * (at + bc) == at * at + 2 * (at * bc) + bc * bc) by (nonlinear_arith);
    assert(ac * bs == at * bc) by (nonlinear_arith)
        requires
            ac == a * c,
            bs == b * s,
            at == a * s,
            bc == b * c,
    ;
    let (aa, bb, cc, ss) = (a * a, b * b, c * c, s * s);
    assert(ac * ac == aa * cc) by (nonlinear_arith)
        requires
            ac == a * c,
            aa == a * a,
            cc == c * c,
    ;
    assert(bs * bs == bb * ss) by (nonlinear_arith)
        requires
            bs == b * s,
            bb == b * b,
            ss == s * s,
    ;
    assert(at * at == aa * ss) by (nonlinear_arith)
        requires
            at == a * s,
            aa == a * a,
            ss == s * s,
    ;
    assert(bc * bc == bb * cc) by (nonlinear_arith)
        requires
            bc == b * c,
            bb == b * b,
            cc == c * c,
    ;
    assert((aa + bb) * (cc + ss) == aa * cc + aa * ss + bb * cc + bb * ss) by (nonlinear_arith);
}

/// The squares of a turned pair.
#[verifier::rlimit(60)]
#[verifier::spinoff_prover]
proof fn lemma_lengths(a: int, b: int, s: int, c: int, a1: int, b1: int, p: int)
    requires
        p > 0,
        -p <= s <= p,
        -p <= c <= p,
        -(p * p) <= (c * c + s * s - p * p) * 0x10_0000 <= p * p,
        ({
            let n = size(a) + size(b);
            let most = (2 * n + 0x100_0000) * p;
            &&& -most <= (a1 * p - (a * c - b * s)) * 0x100_0000 <= most
            &&& -most <= (b1 * p - (a * s + b * c)) * 0x100_0000 <= most
        }),
    ensures
        ({
            let n = size(a) + size(b);
            let most = 26 * (n * n) + 0x800_0000 * n + 0x200_0000;
            -most <= (a1 * a1 + b1 * b1 - (a * a + b * b)) * 0x100_0000 <= most
        }),
{
    let n = size(a) + size(b);
    let (x, y) = (a * c - b * s, a * s + b * c);
    let (t1, t2) = (a1 * p - x, b1 * p - y);
    let pp = p * p;
    let (sa, sb) = (size(a), size(b));
    assert(n * p == sa * p + sb * p) by (nonlinear_arith)
        requires
            n == sa + sb,
    ;
    lemma_bounded_product(a, c, sa, p);
    lemma_bounded_product(b, s, sb, p);
    lemma_bounded_product(a, s, sa, p);
    lemma_bounded_product(b, c, sb, p);
    lemma_square(x, t1, n, p);
    lemma_square(y, t2, n, p);
    let both = a * a + b * b;
    let t4 = c * c + s * s - pp;
    let e4 = t4 * 0x100_0000;
    let nn = n * n;
    assert(0 <= both <= nn) by (nonlinear_arith)
        requires
            both == a * a + b * b,
            nn == n * n,
            n == sa + sb,
            sa >= 0,
            sb >= 0,
            a == sa || a == -sa,
            b == sb || b == -sb,
    ;
    lemma_bounded_product(both, e4, nn, 16 * pp);
    lemma_turned_squares(a, b, s, c);
    assert(both * t4 == both * (c * c + s * s) - both * pp) by (nonlinear_arith)
        requires
            t4 == c * c + s * s - pp,
    ;
    assert(both * e4 == (both * t4) * 0x100_0000) by (nonlinear_arith)
        requires
            e4 == t4 * 0x100_0000,
    ;
    let turned_square = a1 * a1 + b1 * b1;
    let gap = (turned_square - both) * 0x100_0000;
    assert(turned_square * pp == (x + t1) * (x + t1) + (y + t2) * (y + t2)) by (nonlinear_arith)
        requires
            turned_square == a1 * a1 + b1 * b1,
            x + t1 == a1 * p,
            y + t2 == b1 * p,
            pp == p * p,
    ;
    assert(gap * pp == (turned_square * pp - both * pp) * 0x100_0000) by (nonlinear_arith)
        requires
            gap == (turned_square - both) * 0x100_0000,
    ;
    let most = 26 * nn + 0x800_0000 * n + 0x200_0000;
    let (nnpp, npp) = (nn * pp, n * pp);
    assert(most * pp == 26 * nnpp + 0x800_0000 * npp + 0x200_0000 * pp && nn * (16 * pp) == 16
        * nnpp && npp >= 0 && pp > 0) by (nonlinear_arith)
        requires
            most == 26 * nn + 0x800_0000 * n + 0x200_0000,
            nnpp == nn * pp,
            npp == n * pp,
            pp == p * p,
            p > 0,
            n >= 0,
    ;
    assert(-(most * pp) <= gap * pp <= most * pp);
    assert(-most <= gap <= most) by (nonlinear_arith)
        requires
            -(most * pp) <= gap * pp <= most * pp,
            pp > 0,
    ;
}

/// A turn keeps the length of every pair of channels, up to rounding.
pub proof fn turns_keep_lengths(
    x: Seq<F32>,
    sines: Seq<F32>,
    cosines: Seq<F32>,
    n_heads: int,
    head_dim: int,
    rope_dim: int,
    rope_type: RopeType,
    p: int,
)
    requires
        x.len() == n_heads * head_dim,
        0 <= rope_dim <= head_dim,
        rope_dim % 2 == 0,
        sines.len() == n_heads * (rope_dim / 2),
        on_circles(sines, cosines),
        all_finite(x),
        all_finite(turned(x, sines, cosines, head_dim, rope_dim, rope_type)),
        0 <= p < x.len(),
        p % head_dim < rope_dim,
    ensures
        ({
            let y = turned(x, sines, cosines, head_dim, rope_dim, rope_type);
            let q = partner(head_dim, rope_dim, rope_type, p);
            same_length(y[p], y[q], x[p], x[q])
        }),
{
    let y = turned(x, sines, cosines, head_dim, rope_dim, rope_type);
    let (i, j, u) = lemma_pair_of(n_heads, head_dim, rope_dim, rope_type, p);
    assert(on_circle(sines[u], cosines[u]));
    assert(x[i].finite_spec() && x[j].finite_spec());
    assert(y[i].finite_spec() && y[j].finite_spec());
    assert(y[i] == rotated(x, sines, cosines, head_dim, rope_dim, rope_type, i));
    assert(y[j] == rotated(x, sines, cosines, head_dim, rope_dim, rope_type, j));
    let (a, b, s, c) = (x[i], x[j], sines[u], cosines[u]);
    lemma_pow2_pos(149);
    lemma_magnitude(a);
    lemma_magnitude(b);
    lemma_magnitude(s);
    lemma_magnitude(c);
    lemma_first(a, b, s, c);
    lemma_second(a, b, s, c);
    lemma_lengths(
        a.units(),
        b.units(),
        s.units(),
        c.units(),
        y[i].units(),
        y[j].units(),
        pow2(149) as int,
    );
}

} // verus!
