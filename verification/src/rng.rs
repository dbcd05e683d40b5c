//! Seeded xorshift64* generator: deterministic and free of dependencies.
use crate::float::{
    lemma_code, lemma_magnitude_increases, lemma_round_exact, lemma_round_exists, lemma_round_unique,
    magnitude, nearest, of_int, round, F32,
};
use crate::half::lemma_small_times_power;
use crate::math::{is_cos, is_ln, Math};
use vstd::arithmetic::power2::{lemma2_to64, lemma_pow2_adds, lemma_pow2_pos, pow2};
use vstd::prelude::*;

verus! {

/// State used in place of a zero seed, which would lock the generator at zero.
pub const ZERO_SEED_REPLACEMENT: u64 = 0x9E3779B97F4A7C15;

/// Output multiplier of the generator.
pub const OUTPUT_MULTIPLIER: u64 = 0x2545F4914F6CDD1D;

/// A xorshift64* generator.
pub struct Rng {
    state: u64,
}

/// The state that follows `x`: three shift-and-xor steps.
pub open spec fn xorshift(x: u64) -> u64 {
    let a = x ^ (x << 13u64);
    let b = a ^ (a >> 7u64);
    b ^ (b << 17u64)
}

/// The number drawn from the state that a step has just reached.
pub open spec fn scramble(x: u64) -> u64 {
    x.wrapping_mul(OUTPUT_MULTIPLIER)
}

/// The state reached from `x` after `n` steps.
pub open spec fn state_after(x: u64, n: nat) -> u64
    decreases n,
{
    if n == 0 {
        x
    } else {
        xorshift(state_after(x, (n - 1) as nat))
    }
}

impl View for Rng {
    type V = u64;

    /// The raw state.
    closed spec fn view(&self) -> u64 {
        self.state
    }
}

impl Rng {
    /// A generator seeded with `seed`; zero stands for a fixed nonzero seed.
    pub fn new(seed: u64) -> (r: Self)
        ensures
            r@ == if seed == 0 { ZERO_SEED_REPLACEMENT } else { seed },
    {
        let actual_seed: u64 = if seed == 0 { ZERO_SEED_REPLACEMENT } else { seed };
        Self { state: actual_seed }
    }

    /// The raw state, from which `from_state` resumes the sequence.
    pub fn state(&self) -> (s: u64)
        ensures
            s == self@,
    {
        self.state
    }

    /// A generator in the given state.
    pub fn from_state(state: u64) -> (r: Self)
        ensures
            r@ == state,
    {
        Self { state }
    }

    /// The next 64 random bits.
    pub fn next_u64(&mut self) -> (v: u64)
        ensures
            final(self)@ == xorshift(old(self)@),
            v == scramble(final(self)@),
    {
        let mut x: u64 = self.state;
        x = x ^ (x << 13u64);
        x = x ^ (x >> 7u64);
        x = x ^ (x << 17u64);
        self.state = x;
        let v: u64 = x.wrapping_mul(OUTPUT_MULTIPLIER);
        v
    }

    /// A number from zero up to one, without it.
    pub fn next_f32(&mut self) -> (r: F32)
        ensures
            final(self)@ == xorshift(old(self)@),
            r == unit_of(scramble(final(self)@)),
    {
        let v: u64 = self.next_u64();
        let top: u64 = v >> 40u64;
        F32::from_u64(top).div(F32 { bits: 0x4b80_0000 })
    }

    /// A standard normal number, by the Box-Muller transform.
    pub fn next_normal<M: Math>(&mut self, m: &M) -> (r: F32)
        ensures
            final(self)@ == state_after(old(self)@, 2),
            is_normal(
                m,
                unit_of(scramble(xorshift(old(self)@))),
                unit_of(scramble(final(self)@)),
                r,
            ),
    {
        reveal_with_fuel(state_after, 3);
        let u1: F32 = self.next_f32().max(F32 { bits: 0x33d6_bf95 });
        let u2: F32 = self.next_f32();
        let l: F32 = m.ln(u1);
        let c: F32 = m.cos((F32 { bits: 0x40c9_0fdb }).mul(u2));
        assert(is_ln(m, u1, l));
        assert(is_cos(m, (F32 { bits: 0x40c9_0fdb }).mul_spec(u2), c));
        (F32 { bits: 0xc000_0000 }).mul(l).sqrt().mul(c)
    }

    /// The numbers below `n` in random order, each once.
    pub fn shuffled_indices(&mut self, n: usize) -> (p: Vec<usize>)
        ensures
            p@ == shuffled(old(self)@, n as nat),
            is_permutation(p@, n as int),
            final(self)@ == state_after(
                old(self)@,
                (if n == 0 {
                    0
                } else {
                    n - 1
                }) as nat,
            ),
    {
        let ghost start = self@;
        let mut p: Vec<usize> = Vec::new();
        let mut k: usize = 0;
        while k < n
            invariant
                k <= n,
                p@ == in_order(k as nat),
            decreases n - k,
        {
            p.push(k);
            assert(p@ =~= in_order((k + 1) as nat));
            k = k + 1;
        }
        proof {
            lemma_in_order(n as nat);
        }
        if n == 0 {
            return p;
        }
        let mut i: usize = n - 1;
        while i > 0
            invariant
                i < n,
                p@.len() == n,
                is_permutation(p@, n as int),
                shuffled(start, n as nat) == swaps(p@, self@, i as nat),
                self@ == state_after(start, (n - 1 - i) as nat),
            decreases i,
        {
            let v: u64 = self.next_u64();
            let j: usize = (v % (i as u64 + 1)) as usize;
            let a: usize = p[i];
            let b: usize = p[j];
            let ghost before = p@;
            p.set(i, b);
            p.set(j, a);
            proof {
                assert(p@ =~= exchanged(before, i as int, j as int));
                lemma_exchanged(before, n as int, i as int, j as int);
            }
            i = i - 1;
        }
        p
    }
}

/// The number that 64 random bits give: the upper 24 over 2^24.
pub open spec fn unit_of(v: u64) -> F32 {
    of_int((v >> 40u64) as int).div_spec(F32 { bits: 0x4b80_0000 })
}

/// `r` is the normal number of two uniform ones.
pub open spec fn is_normal<M: Math>(m: &M, u1: F32, u2: F32, r: F32) -> bool {
    exists|l: F32, c: F32|
        {
            &&& #[trigger] is_ln(m, u1.max_spec(F32 { bits: 0x33d6_bf95 }), l)
            &&& #[trigger] is_cos(m, (F32 { bits: 0x40c9_0fdb }).mul_spec(u2), c)
            &&& r == (F32 { bits: 0xc000_0000 }).mul_spec(l).sqrt_spec().mul_spec(c)
        }
}

/// The numbers below `n`, in order.
pub open spec fn in_order(n: nat) -> Seq<usize> {
    Seq::new(n, |i: int| i as usize)
}

/// Each number below `n` once.
pub open spec fn is_permutation(p: Seq<usize>, n: int) -> bool {
    &&& p.len() == n
    &&& forall|i: int| 0 <= i < n ==> #[trigger] p[i] < n
    &&& forall|i: int, j: int| 0 <= i < j < n ==> #[trigger] p[i] != #[trigger] p[j]
    &&& forall|v: usize| v < n ==> #[trigger] p.contains(v)
}

/// Two places exchanged.
pub open spec fn exchanged(p: Seq<usize>, i: int, j: int) -> Seq<usize> {
    p.update(i, p[j]).update(j, p[i])
}

/// The places from `i` down, each exchanged with a random one up to it.
pub open spec fn swaps(p: Seq<usize>, state: u64, i: nat) -> Seq<usize>
    decreases i,
{
    if i == 0 {
        p
    } else {
        let next = xorshift(state);
        swaps(exchanged(p, i as int, scramble(next) as int % (i + 1) as int), next, (i - 1) as nat)
    }
}

/// The numbers below `n` in the random order of a state.
pub open spec fn shuffled(state: u64, n: nat) -> Seq<usize> {
    swaps(
        in_order(n),
        state,
        (if n == 0 {
            0
        } else {
            n - 1
        }) as nat,
    )
}

proof fn lemma_in_order(n: nat)
    requires
        n <= usize::MAX,
    ensures
        is_permutation(in_order(n), n as int),
{
    let p = in_order(n);
    assert forall|v: usize| v < n implies #[trigger] p.contains(v) by {
        assert(p[v as int] == v);
    }
}

proof fn lemma_exchanged(p: Seq<usize>, n: int, i: int, j: int)
    requires
        is_permutation(p, n),
        0 <= i < n,
        0 <= j < n,
    ensures
        is_permutation(exchanged(p, i, j), n),
{
    let q = exchanged(p, i, j);
    assert forall|a: int, b: int| 0 <= a < b < n implies #[trigger] q[a] != #[trigger] q[b] by {
        let a2 = if a == i { j } else if a == j { i } else { a };
        let b2 = if b == i { j } else if b == j { i } else { b };
        assert(q[a] == p[a2] && q[b] == p[b2]);
        if a2 < b2 {
            assert(p[a2] != p[b2]);
        } else {
            assert(p[b2] != p[a2]);
        }
    }
    assert forall|v: usize| v < n implies #[trigger] q.contains(v) by {
        assert(p.contains(v));
        let k = choose|k: int| 0 <= k < p.len() && p[k] == v;
        let k2 = if k == i { j } else if k == j { i } else { k };
        assert(q[k2] == v);
    }
}

proof fn lemma_swaps(p: Seq<usize>, n: int, state: u64, i: nat)
    requires
        is_permutation(p, n),
        i < n,
    ensures
        is_permutation(swaps(p, state, i), n),
    decreases i,
{
    if i > 0 {
        let next = xorshift(state);
        let j = scramble(next) as int % (i + 1) as int;
        lemma_exchanged(p, n, i as int, j);
        lemma_swaps(exchanged(p, i as int, j), n, next, (i - 1) as nat);
    }
}

/// Whatever the state, a random order of the numbers below `n` holds each once: an
/// epoch that draws its windows in that order draws each one once.
pub proof fn shuffles_are_permutations(state: u64, n: nat)
    requires
        n <= usize::MAX,
    ensures
        is_permutation(shuffled(state, n), n as int),
{
    lemma_in_order(n);
    if n > 0 {
        lemma_swaps(in_order(n), n as int, state, (n - 1) as nat);
    }
}


/// A quotient does not depend on a common factor.
proof fn lemma_common_factor(num: int, den: int, t: int, c: int)
    requires
        t > 0,
        nearest(num, den, c),
    ensures
        nearest(num * t, den * t, c),
{
    let lo = magnitude(c - 1) + magnitude(c);
    let hi = magnitude(c) + magnitude(c + 1);
    assert(lo * den < 2 * num ==> lo * (den * t) < 2 * (num * t)) by (nonlinear_arith)
        requires
            t > 0,
    ;
    assert(lo * den == 2 * num ==> lo * (den * t) == 2 * (num * t)) by (nonlinear_arith);
    assert(2 * num < hi * den ==> 2 * (num * t) < hi * (den * t)) by (nonlinear_arith)
        requires
            t > 0,
    ;
    assert(2 * num == hi * den ==> 2 * (num * t) == hi * (den * t)) by (nonlinear_arith);
}

/// A uniform number is not negative and less than one, whatever the bits: it is the
/// number of the upper 24 bits, in steps of 2^-24.
pub proof fn uniform_numbers_are_in_the_unit_interval(v: u64)
    ensures
        unit_of(v).finite_spec(),
        !unit_of(v).neg_spec(),
        unit_of(v).lt_spec(F32 { bits: 0x3f80_0000 }),
        unit_of(v).mag() == (v as int / 0x100_0000_0000) * pow2(125),
{
    let k = (v >> 40u64) as int;
    assert((v >> 40u64) == v / 0x100_0000_0000) by (bit_vector);
    assert((v >> 40u64) < 0x100_0000) by (bit_vector);
    lemma2_to64();
    reveal(of_int);
    reveal(F32::div_spec);
    let scale = F32 { bits: 0x4b80_0000 };
    // The divisor is 2^24.
    assert(scale.mag() == 0x80_0000 * pow2(150));
    lemma_pow2_adds(23, 150);
    lemma_pow2_adds(24, 149);
    assert(scale.mag() == pow2(173));
    let x = of_int(k);
    if k == 0 {
        lemma_code(0, 0);
        assert(0 * pow2(149) == 0) by (nonlinear_arith);
        lemma_round_exact(0);
        assert(x.mag() * pow2(149) == 0) by (nonlinear_arith)
            requires
                x.mag() == 0,
        ;
        lemma_pow2_pos(173);
        assert((magnitude(0) + magnitude(1)) * pow2(173) > 0) by (nonlinear_arith)
            requires
                magnitude(0) == 0,
                magnitude(1) == 1,
                pow2(173) > 0,
        ;
        assert(nearest(0, pow2(173) as int, 0));
        lemma_round_unique(0, pow2(173) as int, 0);
        assert(0 * pow2(125) == 0) by (nonlinear_arith);
    } else {
        lemma_small_times_power(k, 149, 24);
        lemma_small_times_power(k, 125, 24);
        let c = round(k * pow2(125), 1);
        lemma_pow2_pos(125);
        assert(k * pow2(125) >= 0) by (nonlinear_arith)
            requires
                k >= 0,
                pow2(125) > 0,
        ;
        lemma_round_exists(k * pow2(125), 1);
        lemma_pow2_pos(173);
        lemma_pow2_adds(125, 173);
        lemma_pow2_adds(149, 149);
        lemma_common_factor(k * pow2(125), 1, pow2(173) as int, c);
        assert(k * pow2(125) * pow2(173) == k * pow2(149) * pow2(149)) by (nonlinear_arith)
            requires
                pow2(125) * pow2(173) == pow2(298),
                pow2(149) * pow2(149) == pow2(298),
        ;
        lemma_round_unique(x.mag() * pow2(149), scale.mag(), c);
        // Below the magnitude of one.
        let one = F32 { bits: 0x3f80_0000 };
        assert(one.mag() == 0x80_0000 * pow2(126));
        lemma_pow2_adds(23, 126);
        lemma_pow2_adds(24, 125);
        assert(k * pow2(125) < pow2(149)) by (nonlinear_arith)
            requires
                k < 0x100_0000,
                pow2(149) == 0x100_0000 * pow2(125),
                pow2(125) > 0,
        ;
        if c >= one.code_spec() {
            if c > one.code_spec() {
                lemma_magnitude_increases(one.code_spec(), c);
            }
        }
    }
}

/// A generator that is set to the state of another goes on as the other does.
pub proof fn resumed_generators_agree(x: u64, taken: nat, more: nat)
    ensures
        state_after(state_after(x, taken), more) == state_after(x, taken + more),
    decreases more,
{
    if more > 0 {
        resumed_generators_agree(x, taken, (more - 1) as nat);
    }
}

} // verus!
