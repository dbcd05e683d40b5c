//! Blocks of GGUF tensors, made of numbers: the inverse of reading them.
use crate::bytes::{
    lemma_le16, lemma_le32, lemma_stands_split, push_bytes, push_u16, push_u32, put16, put32,
    signed, stands_at, unsigned, unsigned8,
};
use crate::error::{InferError, Result};
use crate::float::{lemma_magnitude_increases, magnitude, of_int, F32};
use crate::gguf_blocks::{
    bit_weight, block_bytes, block_elements, bytes_of, element_at, fifth_bit, half_at, is_known,
    is_whole, k_nibble, min_k4, nibble, q6_level, q6_scale, scale_k4, sub_min, sub_scale, GGML_F16,
    GGML_F32, GGML_Q4_0, GGML_Q4_1, GGML_Q4_K, GGML_Q5_K, GGML_Q6_K, GGML_Q8_0, GGML_Q8_1, QK, QK_K,
};
use crate::half::{f32_to_f16, f32_to_half, half_to_f32};
use crate::index::lemma_split;
use crate::quant::{abs_max, lemma_level_range, level_of, QKind, INT8_MAX_BITS};
use crate::text::with_number;
use vstd::arithmetic::power2::{lemma_pow2_pos, pow2};
use vstd::prelude::*;
use vstd::slice::slice_subrange;

verus! {

// ---------------------------------------------------------------------------
// Blocks of 32
// ---------------------------------------------------------------------------

/// One over a scale, or zero for a scale of zero.
pub open spec fn inverse_of(d: F32) -> F32 {
    if d.zero_spec() {
        F32 { bits: 0 }
    } else {
        F32 { bits: 0x3f80_0000 }.div_spec(d)
    }
}

/// The scale of a Q8 block: the largest magnitude over 127.
pub open spec fn q8_scale(b: Seq<F32>) -> F32 {
    abs_max(b).div_spec(F32 { bits: INT8_MAX_BITS })
}

/// The level of element `j` of a Q8 block.
pub open spec fn q8_level(b: Seq<F32>, j: int) -> int {
    level_of(b[j], inverse_of(q8_scale(b)), F32 { bits: INT8_MAX_BITS })
}

/// The bytes of the levels of a Q8 block.
pub open spec fn q8_bytes(b: Seq<F32>) -> Seq<u8> {
    Seq::new(32, |j: int| unsigned(q8_level(b, j), 0x100) as u8)
}

/// The sum of the first `n` levels of a Q8 block.
pub open spec fn q8_sum(b: Seq<F32>, n: nat) -> int
    decreases n,
{
    if n == 0 {
        0
    } else {
        q8_sum(b, (n - 1) as nat) + q8_level(b, n - 1)
    }
}

/// A Q8_0 block: scale and levels.
pub open spec fn q8_0_block(b: Seq<F32>) -> Seq<u8> {
    put16(f32_to_half(q8_scale(b)) as int) + q8_bytes(b)
}

/// A Q8_1 block: scale, scaled sum of the levels, levels.
pub open spec fn q8_1_block(b: Seq<F32>) -> Seq<u8> {
    put16(f32_to_half(q8_scale(b)) as int) + (put16(
        f32_to_half(q8_scale(b).mul_spec(of_int(q8_sum(b, 32)))) as int,
    ) + q8_bytes(b))
}

/// The first of the numbers of largest magnitude; zero if there is none.
pub open spec fn extreme(s: Seq<F32>) -> F32
    decreases s.len(),
{
    if s.len() == 0 {
        F32 { bits: 0 }
    } else {
        let m = extreme(s.drop_last());
        if m.abs_spec().lt_spec(s.last().abs_spec()) {
            s.last()
        } else {
            m
        }
    }
}

/// The scale of a Q4_0 block: the extreme number over -8.
pub open spec fn q4_0_scale(b: Seq<F32>) -> F32 {
    extreme(b).div_spec(F32 { bits: 0xc100_0000 })
}

/// The level of element `j` of a Q4_0 block.
pub open spec fn q4_0_level(b: Seq<F32>, j: int) -> int {
    b[j].mul_spec(inverse_of(q4_0_scale(b))).add_spec(F32 { bits: 0x4108_0000 }).int_spec(0, 15)
}

/// A Q4_0 block: scale, and 16 bytes of two levels.
pub open spec fn q4_0_block(b: Seq<F32>) -> Seq<u8> {
    put16(f32_to_half(q4_0_scale(b)) as int) + Seq::new(
        16,
        |j: int| (q4_0_level(b, j) + 16 * q4_0_level(b, j + 16)) as u8,
    )
}

/// The smallest number; infinity if there is none.
pub open spec fn lowest(s: Seq<F32>) -> F32
    decreases s.len(),
{
    if s.len() == 0 {
        F32 { bits: 0x7f80_0000 }
    } else {
        lowest(s.drop_last()).min_spec(s.last())
    }
}

/// The largest number; negative infinity if there is none.
pub open spec fn highest(s: Seq<F32>) -> F32
    decreases s.len(),
{
    if s.len() == 0 {
        F32 { bits: 0xff80_0000 }
    } else {
        highest(s.drop_last()).max_spec(s.last())
    }
}

/// The scale of a Q4_1 block: the range over 15.
pub open spec fn q4_1_scale(b: Seq<F32>) -> F32 {
    highest(b).sub_spec(lowest(b)).div_spec(F32 { bits: 0x4170_0000 })
}

/// The level of element `j` of a Q4_1 block.
pub open spec fn q4_1_level(b: Seq<F32>, j: int) -> int {
    b[j].sub_spec(lowest(b)).mul_spec(inverse_of(q4_1_scale(b))).add_spec(
        F32 { bits: 0x3f00_0000 },
    ).int_spec(0, 15)
}

/// A Q4_1 block: scale, minimum, and 16 bytes of two levels.
pub open spec fn q4_1_block(b: Seq<F32>) -> Seq<u8> {
    put16(f32_to_half(q4_1_scale(b)) as int) + (put16(f32_to_half(lowest(b)) as int) + Seq::new(
        16,
        |j: int| (q4_1_level(b, j) + 16 * q4_1_level(b, j + 16)) as u8,
    ))
}

// ---------------------------------------------------------------------------
// Super-blocks of 256
// ---------------------------------------------------------------------------

/// Sub-block `s` of 32 elements.
pub open spec fn segment(b: Seq<F32>, s: int) -> Seq<F32> {
    b.subrange(32 * s, 32 * s + 32)
}

/// How far a sub-block reaches below zero.
pub open spec fn depth(seg: Seq<F32>) -> F32 {
    if lowest(seg).lt_spec(F32 { bits: 0 }) {
        lowest(seg).negated()
    } else {
        F32 { bits: 0 }
    }
}

/// The step of a sub-block whose levels reach from its depth to its highest
/// number in `top` steps.
pub open spec fn step(seg: Seq<F32>, top: F32) -> F32 {
    let s = highest(seg).sub_spec(depth(seg).negated()).div_spec(top);
    if (F32 { bits: 0 }).lt_spec(s) {
        s
    } else {
        F32 { bits: 0 }
    }
}

/// The largest number, starting from zero.
pub open spec fn peak(s: Seq<F32>) -> F32
    decreases s.len(),
{
    if s.len() == 0 {
        F32 { bits: 0 }
    } else {
        peak(s.drop_last()).max_spec(s.last())
    }
}

/// The steps of the eight sub-blocks.
pub open spec fn steps_of(b: Seq<F32>, top: F32) -> Seq<F32> {
    Seq::new(8, |s: int| step(segment(b, s), top))
}

/// The depths of the eight sub-blocks.
pub open spec fn depths_of(b: Seq<F32>) -> Seq<F32> {
    Seq::new(8, |s: int| depth(segment(b, s)))
}

/// The unit of six-bit codes: the largest number over 63.
pub open spec fn unit(s: Seq<F32>) -> F32 {
    peak(s).div_spec(F32 { bits: 0x427c_0000 })
}

/// The six-bit code of a number in a unit.
pub open spec fn code6(x: F32, d: F32) -> int {
    if (F32 { bits: 0 }).lt_spec(d) {
        x.div_spec(d).round_spec().int_spec(0, 63)
    } else {
        0
    }
}

/// The scale code of sub-block `s`.
pub open spec fn k_scale(b: Seq<F32>, top: F32, s: int) -> int {
    code6(steps_of(b, top)[s], unit(steps_of(b, top)))
}

/// The minimum code of sub-block `s`.
pub open spec fn k_min(b: Seq<F32>, s: int) -> int {
    code6(depths_of(b)[s], unit(depths_of(b)))
}

/// The level of a number in a sub-block, by what its codes stand for.
pub open spec fn k_code(x: F32, scale: F32, min: F32, top: int) -> int {
    if (F32 { bits: 0 }).lt_spec(scale) {
        x.add_spec(min).div_spec(scale).round_spec().int_spec(0, top)
    } else {
        0
    }
}

/// The level of element `i` among `0..=top`.
pub open spec fn k_level(b: Seq<F32>, top: F32, top_level: int, i: int) -> int {
    k_code(
        b[i],
        unit(steps_of(b, top)).mul_spec(of_int(k_scale(b, top, i / 32))),
        unit(depths_of(b)).mul_spec(of_int(k_min(b, i / 32))),
        top_level,
    )
}

/// The twelve bytes of eight six-bit scales and eight six-bit minima.
pub open spec fn packed_scales(sc: Seq<int>, m: Seq<int>) -> Seq<u8> {
    Seq::new(
        12,
        |k: int|
            if k < 4 {
                (sc[k] + 64 * (sc[k + 4] / 16)) as u8
            } else if k < 8 {
                (m[k - 4] + 64 * (m[k] / 16)) as u8
            } else {
                (sc[k - 4] % 16 + 16 * (m[k - 4] % 16)) as u8
            },
    )
}

/// The scale codes of a block.
pub open spec fn k_scales(b: Seq<F32>, top: F32) -> Seq<int> {
    Seq::new(8, |s: int| k_scale(b, top, s))
}

/// The minimum codes of a block.
pub open spec fn k_mins(b: Seq<F32>) -> Seq<int> {
    Seq::new(8, |s: int| k_min(b, s))
}

/// Units and packed codes, with which Q4_K and Q5_K blocks begin.
pub open spec fn k_head(b: Seq<F32>, top: F32) -> Seq<u8> {
    put16(f32_to_half(unit(steps_of(b, top))) as int) + (put16(
        f32_to_half(unit(depths_of(b))) as int,
    ) + packed_scales(k_scales(b, top), k_mins(b)))
}

/// The 128 bytes of low halves of levels: sub-blocks share bytes in pairs.
pub open spec fn k_low(q: Seq<int>) -> Seq<u8> {
    Seq::new(
        128,
        |k: int| (q[k / 32 * 64 + k % 32] % 16 + 16 * (q[k / 32 * 64 + 32 + k % 32] % 16)) as u8,
    )
}

/// The fifth bits of the levels at position `l` of each sub-block, in a byte.
pub open spec fn fifths(q: Seq<int>, l: int) -> int {
    q[l] / 16 + 2 * (q[32 + l] / 16) + 4 * (q[64 + l] / 16) + 8 * (q[96 + l] / 16) + 16 * (q[128 + l]
        / 16) + 32 * (q[160 + l] / 16) + 64 * (q[192 + l] / 16) + 128 * (q[224 + l] / 16)
}

/// The 32 bytes of fifth bits.
pub open spec fn k_high(q: Seq<int>) -> Seq<u8> {
    Seq::new(32, |l: int| fifths(q, l) as u8)
}

/// The levels of a block.
pub open spec fn k_levels(b: Seq<F32>, top: F32, top_level: int) -> Seq<int> {
    Seq::new(256, |i: int| k_level(b, top, top_level, i))
}

/// A Q4_K block.
pub open spec fn q4_k_block(b: Seq<F32>) -> Seq<u8> {
    k_head(b, F32 { bits: 0x4170_0000 }) + k_low(k_levels(b, F32 { bits: 0x4170_0000 }, 15))
}

/// A Q5_K block.
pub open spec fn q5_k_block(b: Seq<F32>) -> Seq<u8> {
    k_head(b, F32 { bits: 0x41f8_0000 }) + (k_high(k_levels(b, F32 { bits: 0x41f8_0000 }, 31))
        + k_low(k_levels(b, F32 { bits: 0x41f8_0000 }, 31)))
}

/// The scales of the sixteen groups of a Q6_K block: the largest magnitude over
/// 31.
pub open spec fn groups_of(b: Seq<F32>) -> Seq<F32> {
    Seq::new(
        16,
        |g: int| abs_max(b.subrange(16 * g, 16 * g + 16)).div_spec(F32 { bits: 0x41f8_0000 }),
    )
}

/// The unit of the group scales: the largest over 127.
pub open spec fn q6_unit(b: Seq<F32>) -> F32 {
    peak(groups_of(b)).div_spec(F32 { bits: INT8_MAX_BITS })
}

/// The scale code of group `g`.
pub open spec fn q6_group(b: Seq<F32>, g: int) -> int {
    if (F32 { bits: 0 }).lt_spec(q6_unit(b)) {
        groups_of(b)[g].div_spec(q6_unit(b)).round_spec().int_spec(-127, 127)
    } else {
        0
    }
}

/// The level of a number in a group, by what its code stands for.
pub open spec fn q6_code(x: F32, a: F32) -> int {
    if a.zero_spec() {
        0
    } else {
        x.div_spec(a).round_spec().int_spec(-32, 31)
    }
}

/// The level of element `i` of a Q6_K block.
pub open spec fn q6_value(b: Seq<F32>, i: int) -> int {
    q6_code(b[i], q6_unit(b).mul_spec(of_int(q6_group(b, i / 16))))
}

/// The levels of a Q6_K block, raised by 32.
pub open spec fn q6_raised(b: Seq<F32>) -> Seq<int> {
    Seq::new(256, |i: int| q6_value(b, i) + 32)
}

/// The 128 bytes of low halves of Q6_K levels.
pub open spec fn q6_low(u: Seq<int>) -> Seq<u8> {
    Seq::new(
        128,
        |k: int| (u[k / 64 * 128 + k % 64] % 16 + 16 * (u[k / 64 * 128 + 64 + k % 64] % 16)) as u8,
    )
}

/// The 64 bytes of high bits of Q6_K levels.
pub open spec fn q6_high(u: Seq<int>) -> Seq<u8> {
    Seq::new(
        64,
        |k: int|
            (u[k / 32 * 128 + k % 32] / 16 + 4 * (u[k / 32 * 128 + 32 + k % 32] / 16) + 16 * (u[k
                / 32 * 128 + 64 + k % 32] / 16) + 64 * (u[k / 32 * 128 + 96 + k % 32] / 16)) as u8,
    )
}

/// A Q6_K block.
pub open spec fn q6_k_block(b: Seq<F32>) -> Seq<u8> {
    q6_low(q6_raised(b)) + (q6_high(q6_raised(b)) + (Seq::new(
        16,
        |g: int| unsigned(q6_group(b, g), 0x100) as u8,
    ) + put16(f32_to_half(q6_unit(b)) as int)))
}

// ---------------------------------------------------------------------------
// Tensors
// ---------------------------------------------------------------------------

/// A block of a type.
pub open spec fn block_of(ty: u32, b: Seq<F32>) -> Seq<u8> {
    if ty == GGML_F32 {
        put32(b[0].bits as int)
    } else if ty == GGML_F16 {
        put16(f32_to_half(b[0]) as int)
    } else if ty == GGML_Q8_0 {
        q8_0_block(b)
    } else if ty == GGML_Q8_1 {
        q8_1_block(b)
    } else if ty == GGML_Q4_0 {
        q4_0_block(b)
    } else if ty == GGML_Q4_1 {
        q4_1_block(b)
    } else if ty == GGML_Q4_K {
        q4_k_block(b)
    } else if ty == GGML_Q5_K {
        q5_k_block(b)
    } else {
        q6_k_block(b)
    }
}

/// The first `k` blocks of numbers of a type, one behind the other.
pub open spec fn blocks_of(ty: u32, data: Seq<F32>, k: nat) -> Seq<u8>
    decreases k,
{
    if k == 0 {
        Seq::empty()
    } else {
        blocks_of(ty, data, (k - 1) as nat) + block_of(ty, nth_block(ty, data, k - 1))
    }
}

/// The numbers of block `k`.
pub open spec fn nth_block(ty: u32, data: Seq<F32>, k: int) -> Seq<F32> {
    data.subrange(k * block_elements(ty), k * block_elements(ty) + block_elements(ty))
}

/// The bytes of numbers of a type.
pub open spec fn encoded(ty: u32, data: Seq<F32>) -> Seq<u8> {
    blocks_of(ty, data, (data.len() as int / block_elements(ty)) as nat)
}

// ---------------------------------------------------------------------------
// Making the blocks
// ---------------------------------------------------------------------------

/// A conversion to an integer stays in its bounds.
proof fn lemma_int_bounds(x: F32, lo: int, hi: int)
    requires
        lo <= 0 <= hi,
    ensures
        lo <= x.int_spec(lo, hi) <= hi,
{
    if x.finite_spec() {
        lemma_pow2_pos(149);
        lemma_magnitude_nonnegative(x.code_spec());
        let a = x.mag();
        let b = pow2(149) as int;
        assert(a / b >= 0) by (nonlinear_arith)
            requires
                a >= 0,
                b > 0,
        ;
    }
}

proof fn lemma_magnitude_nonnegative(c: int)
    requires
        c >= 0,
    ensures
        magnitude(c) >= 0,
{
    lemma_magnitude_increases(c, c + 1);
}

fn inverse_exec(d: F32) -> (r: F32)
    ensures
        r == inverse_of(d),
{
    if d.code() == 0 {
        F32::zero()
    } else {
        F32::one().div(d)
    }
}

fn abs_max_exec(b: &[F32]) -> (r: F32)
    ensures
        r == abs_max(b@),
{
    let mut m: F32 = F32::zero();
    let mut i: usize = 0;
    while i < b.len()
        invariant
            i <= b@.len(),
            m == abs_max(b@.subrange(0, i as int)),
        decreases b@.len() - i,
    {
        proof {
            let next = b@.subrange(0, i + 1);
            assert(next.drop_last() =~= b@.subrange(0, i as int));
        }
        m = m.max(b[i].abs());
        i = i + 1;
    }
    assert(b@.subrange(0, b@.len() as int) =~= b@);
    m
}

fn peak_exec(b: &[F32]) -> (r: F32)
    ensures
        r == peak(b@),
{
    let mut m: F32 = F32::zero();
    let mut i: usize = 0;
    while i < b.len()
        invariant
            i <= b@.len(),
            m == peak(b@.subrange(0, i as int)),
        decreases b@.len() - i,
    {
        proof {
            let next = b@.subrange(0, i + 1);
            assert(next.drop_last() =~= b@.subrange(0, i as int));
        }
        m = m.max(b[i]);
        i = i + 1;
    }
    assert(b@.subrange(0, b@.len() as int) =~= b@);
    m
}

fn extreme_exec(b: &[F32]) -> (r: F32)
    ensures
        r == extreme(b@),
{
    let mut m: F32 = F32::zero();
    let mut i: usize = 0;
    while i < b.len()
        invariant
            i <= b@.len(),
            m == extreme(b@.subrange(0, i as int)),
        decreases b@.len() - i,
    {
        proof {
            let next = b@.subrange(0, i + 1);
            assert(next.drop_last() =~= b@.subrange(0, i as int));
        }
        if m.abs().lt(b[i].abs()) {
            m = b[i];
        }
        i = i + 1;
    }
    assert(b@.subrange(0, b@.len() as int) =~= b@);
    m
}

fn lowest_exec(b: &[F32]) -> (r: F32)
    ensures
        r == lowest(b@),
{
    let mut m: F32 = F32::infinity();
    let mut i: usize = 0;
    while i < b.len()
        invariant
            i <= b@.len(),
            m == lowest(b@.subrange(0, i as int)),
        decreases b@.len() - i,
    {
        proof {
            let next = b@.subrange(0, i + 1);
            assert(next.drop_last() =~= b@.subrange(0, i as int));
        }
        m = m.min(b[i]);
        i = i + 1;
    }
    assert(b@.subrange(0, b@.len() as int) =~= b@);
    m
}

fn highest_exec(b: &[F32]) -> (r: F32)
    ensures
        r == highest(b@),
{
    let mut m: F32 = F32::neg_infinity();
    let mut i: usize = 0;
    while i < b.len()
        invariant
            i <= b@.len(),
            m == highest(b@.subrange(0, i as int)),
        decreases b@.len() - i,
    {
        proof {
            let next = b@.subrange(0, i + 1);
            assert(next.drop_last() =~= b@.subrange(0, i as int));
        }
        m = m.max(b[i]);
        i = i + 1;
    }
    assert(b@.subrange(0, b@.len() as int) =~= b@);
    m
}

/// The levels of a Q8 block.
fn q8_levels(b: &[F32], d: F32) -> (v: Vec<i8>)
    requires
        b@.len() == 32,
        d == q8_scale(b@),
    ensures
        v@.len() == 32,
        forall|j: int| 0 <= j < 32 ==> (#[trigger] v@[j]) == q8_level(b@, j) && -127 <= v@[j] <= 127,
{
    let id: F32 = inverse_exec(d);
    let lim: F32 = F32 { bits: INT8_MAX_BITS };
    let mut v: Vec<i8> = Vec::new();
    let mut j: usize = 0;
    while j < 32
        invariant
            j <= 32,
            b@.len() == 32,
            v@.len() == j,
            id == inverse_of(q8_scale(b@)),
            lim == (F32 { bits: INT8_MAX_BITS }),
            forall|k: int|
                0 <= k < j ==> (#[trigger] v@[k]) == q8_level(b@, k) && -127 <= v@[k] <= 127,
        decreases 32 - j,
    {
        proof {
            lemma_level_range(b@[j as int], id, QKind::Int8);
        }
        let q: i64 = b[j].mul(id).round().clamp(lim.neg(), lim).to_int(-128, 127);
        v.push(q as i8);
        j = j + 1;
    }
    v
}

fn push_levels(o: &mut Vec<u8>, v: &[i8])
    ensures
        final(o)@ == old(o)@ + Seq::new(v@.len(), |j: int| unsigned(v@[j] as int, 0x100) as u8),
{
    let mut j: usize = 0;
    let ghost part = Seq::new(v@.len(), |j: int| unsigned(v@[j] as int, 0x100) as u8);
    assert(o@ + part.subrange(0, 0) =~= o@);
    while j < v.len()
        invariant
            j <= v@.len(),
            part == Seq::new(v@.len(), |j: int| unsigned(v@[j] as int, 0x100) as u8),
            o@ == old(o)@ + part.subrange(0, j as int),
        decreases v@.len() - j,
    {
        o.push(unsigned8(v[j]));
        proof {
            assert(old(o)@ + part.subrange(0, j + 1) =~= (old(o)@ + part.subrange(
                0,
                j as int,
            )).push(part[j as int]));
        }
        j = j + 1;
    }
    assert(part.subrange(0, v@.len() as int) =~= part);
}

fn enc_q8_0(b: &[F32], o: &mut Vec<u8>)
    requires
        b@.len() == 32,
    ensures
        final(o)@ == old(o)@ + q8_0_block(b@),
{
    let d: F32 = abs_max_exec(b).div(F32 { bits: INT8_MAX_BITS });
    let v: Vec<i8> = q8_levels(b, d);
    push_u16(o, f32_to_f16(d));
    push_levels(o, v.as_slice());
    assert(o@ =~= old(o)@ + q8_0_block(b@));
}

fn enc_q8_1(b: &[F32], o: &mut Vec<u8>)
    requires
        b@.len() == 32,
    ensures
        final(o)@ == old(o)@ + q8_1_block(b@),
{
    let d: F32 = abs_max_exec(b).div(F32 { bits: INT8_MAX_BITS });
    let v: Vec<i8> = q8_levels(b, d);
    let mut sum: i64 = 0;
    let mut j: usize = 0;
    while j < 32
        invariant
            j <= 32,
            v@.len() == 32,
            sum == q8_sum(b@, j as nat),
            -127 * j <= sum <= 127 * j,
            forall|k: int|
                0 <= k < 32 ==> (#[trigger] v@[k]) == q8_level(b@, k) && -127 <= v@[k] <= 127,
        decreases 32 - j,
    {
        sum = sum + v[j] as i64;
        j = j + 1;
    }
    push_u16(o, f32_to_f16(d));
    push_u16(o, f32_to_f16(d.mul(F32::from_i64(sum))));
    push_levels(o, v.as_slice());
    assert(o@ =~= old(o)@ + q8_1_block(b@));
}

fn enc_q4_0(b: &[F32], o: &mut Vec<u8>)
    requires
        b@.len() == 32,
    ensures
        final(o)@ == old(o)@ + q4_0_block(b@),
{
    let d: F32 = extreme_exec(b).div(F32 { bits: 0xc100_0000 });
    let id: F32 = inverse_exec(d);
    let up: F32 = F32 { bits: 0x4108_0000 };
    push_u16(o, f32_to_f16(d));
    let ghost part = Seq::new(16, |j: int| (q4_0_level(b@, j) + 16 * q4_0_level(b@, j + 16)) as u8);
    let ghost before = o@;
    assert(before + part.subrange(0, 0) =~= before);
    let mut j: usize = 0;
    while j < 16
        invariant
            j <= 16,
            b@.len() == 32,
            id == inverse_of(q4_0_scale(b@)),
            up == (F32 { bits: 0x4108_0000 }),
            part == Seq::new(
                16,
                |j: int| (q4_0_level(b@, j) + 16 * q4_0_level(b@, j + 16)) as u8,
            ),
            o@ == before + part.subrange(0, j as int),
        decreases 16 - j,
    {
        let x: F32 = b[j].mul(id).add(up);
        let y: F32 = b[j + 16].mul(id).add(up);
        proof {
            lemma_int_bounds(x, 0, 15);
            lemma_int_bounds(y, 0, 15);
        }
        let q0: i64 = x.to_int(0, 15);
        let q1: i64 = y.to_int(0, 15);
        o.push((q0 + 16 * q1) as u8);
        proof {
            assert(before + part.subrange(0, j + 1) =~= (before + part.subrange(
                0,
                j as int,
            )).push(part[j as int]));
        }
        j = j + 1;
    }
    assert(part.subrange(0, 16) =~= part);
    assert(o@ =~= old(o)@ + q4_0_block(b@));
}

fn enc_q4_1(b: &[F32], o: &mut Vec<u8>)
    requires
        b@.len() == 32,
    ensures
        final(o)@ == old(o)@ + q4_1_block(b@),
{
    let lo: F32 = lowest_exec(b);
    let d: F32 = highest_exec(b).sub(lo).div(F32 { bits: 0x4170_0000 });
    let id: F32 = inverse_exec(d);
    let half: F32 = F32 { bits: 0x3f00_0000 };
    push_u16(o, f32_to_f16(d));
    push_u16(o, f32_to_f16(lo));
    let ghost part = Seq::new(16, |j: int| (q4_1_level(b@, j) + 16 * q4_1_level(b@, j + 16)) as u8);
    let ghost before = o@;
    assert(before + part.subrange(0, 0) =~= before);
    let mut j: usize = 0;
    while j < 16
        invariant
            j <= 16,
            b@.len() == 32,
            lo == lowest(b@),
            id == inverse_of(q4_1_scale(b@)),
            half == (F32 { bits: 0x3f00_0000 }),
            part == Seq::new(
                16,
                |j: int| (q4_1_level(b@, j) + 16 * q4_1_level(b@, j + 16)) as u8,
            ),
            o@ == before + part.subrange(0, j as int),
        decreases 16 - j,
    {
        let x: F32 = b[j].sub(lo).mul(id).add(half);
        let y: F32 = b[j + 16].sub(lo).mul(id).add(half);
        proof {
            lemma_int_bounds(x, 0, 15);
            lemma_int_bounds(y, 0, 15);
        }
        let q0: i64 = x.to_int(0, 15);
        let q1: i64 = y.to_int(0, 15);
        o.push((q0 + 16 * q1) as u8);
        proof {
            assert(before + part.subrange(0, j + 1) =~= (before + part.subrange(
                0,
                j as int,
            )).push(part[j as int]));
        }
        j = j + 1;
    }
    assert(part.subrange(0, 16) =~= part);
    assert(o@ =~= old(o)@ + q4_1_block(b@));
}

/// The numbers that bytes stand for.
pub open spec fn ints(v: Seq<u8>) -> Seq<int> {
    Seq::new(v.len(), |i: int| v[i] as int)
}

/// Packs eight six-bit scales and eight six-bit minima into twelve bytes.
pub fn put_scale_min_k4(sc: &[u8], m: &[u8]) -> (q: Vec<u8>)
    requires
        sc@.len() == 8,
        m@.len() == 8,
        forall|j: int| 0 <= j < 8 ==> #[trigger] sc@[j] < 64,
        forall|j: int| 0 <= j < 8 ==> #[trigger] m@[j] < 64,
    ensures
        q@ == packed_scales(ints(sc@), ints(m@)),
{
    let mut q: Vec<u8> = Vec::new();
    let mut k: usize = 0;
    while k < 12
        invariant
            k <= 12,
            sc@.len() == 8,
            m@.len() == 8,
            forall|j: int| 0 <= j < 8 ==> #[trigger] sc@[j] < 64,
            forall|j: int| 0 <= j < 8 ==> #[trigger] m@[j] < 64,
            q@ == packed_scales(ints(sc@), ints(m@)).subrange(0, k as int),
        decreases 12 - k,
    {
        let byte: u8 = if k < 4 {
            sc[k] + 64 * (sc[k + 4] / 16)
        } else if k < 8 {
            m[k - 4] + 64 * (m[k] / 16)
        } else {
            sc[k - 4] % 16 + 16 * (m[k - 4] % 16)
        };
        q.push(byte);
        proof {
            let all = packed_scales(ints(sc@), ints(m@));
            assert(all.subrange(0, k + 1) =~= all.subrange(0, k as int).push(all[k as int]));
        }
        k = k + 1;
    }
    assert(q@ =~= packed_scales(ints(sc@), ints(m@)));
    q
}

fn code6_exec(x: F32, d: F32) -> (c: u8)
    ensures
        c == code6(x, d),
        c < 64,
{
    if F32::zero().lt(d) {
        let y: F32 = x.div(d).round();
        proof {
            lemma_int_bounds(y, 0, 63);
        }
        y.to_int(0, 63) as u8
    } else {
        0
    }
}

/// What a Q4_K or Q5_K block is made of: both units, and all codes.
struct KCodes {
    d: F32,
    dmin: F32,
    sc: Vec<u8>,
    m: Vec<u8>,
    q: Vec<u8>,
}

impl KCodes {
    spec fn are_of(self, b: Seq<F32>, top: F32, top_level: int) -> bool {
        &&& self.d == unit(steps_of(b, top))
        &&& self.dmin == unit(depths_of(b))
        &&& ints(self.sc@) == k_scales(b, top)
        &&& ints(self.m@) == k_mins(b)
        &&& ints(self.q@) == k_levels(b, top, top_level)
        &&& forall|j: int| 0 <= j < 8 ==> #[trigger] self.sc@[j] < 64
        &&& forall|j: int| 0 <= j < 8 ==> #[trigger] self.m@[j] < 64
        &&& forall|i: int| 0 <= i < 256 ==> #[trigger] self.q@[i] <= top_level
    }
}

/// The steps and the depths of the sub-blocks of a block.
fn sub_ranges(b: &[F32], top: F32) -> (r: (Vec<F32>, Vec<F32>))
    requires
        b@.len() == 256,
    ensures
        r.0@ == steps_of(b@, top),
        r.1@ == depths_of(b@),
{
    let mut steps: Vec<F32> = Vec::new();
    let mut depths: Vec<F32> = Vec::new();
    let mut s: usize = 0;
    while s < 8
        invariant
            s <= 8,
            b@.len() == 256,
            steps@.len() == s,
            depths@.len() == s,
            forall|k: int| 0 <= k < s ==> #[trigger] steps@[k] == step(segment(b@, k), top),
            forall|k: int| 0 <= k < s ==> #[trigger] depths@[k] == depth(segment(b@, k)),
        decreases 8 - s,
    {
        let seg: &[F32] = slice_subrange(b, 32 * s, 32 * s + 32);
        let lo: F32 = lowest_exec(seg);
        let hi: F32 = highest_exec(seg);
        let min: F32 = if lo.lt(F32::zero()) {
            lo.neg()
        } else {
            F32::zero()
        };
        let scale: F32 = hi.sub(min.neg()).div(top);
        steps.push(
            if F32::zero().lt(scale) {
                scale
            } else {
                F32::zero()
            },
        );
        depths.push(min);
        s = s + 1;
    }
    assert(steps@ =~= steps_of(b@, top));
    assert(depths@ =~= depths_of(b@));
    (steps, depths)
}

fn k_codes(b: &[F32], top: F32, top_level: u8) -> (c: KCodes)
    requires
        b@.len() == 256,
    ensures
        c.are_of(b@, top, top_level as int),
{
    let (steps, depths) = sub_ranges(b, top);
    let limit: F32 = F32 { bits: 0x427c_0000 };
    let d: F32 = peak_exec(steps.as_slice()).div(limit);
    let dmin: F32 = peak_exec(depths.as_slice()).div(limit);
    let mut sc: Vec<u8> = Vec::new();
    let mut m: Vec<u8> = Vec::new();
    let mut s: usize = 0;
    while s < 8
        invariant
            s <= 8,
            steps@ == steps_of(b@, top),
            depths@ == depths_of(b@),
            d == unit(steps_of(b@, top)),
            dmin == unit(depths_of(b@)),
            sc@.len() == s,
            m@.len() == s,
            forall|k: int| 0 <= k < s ==> #[trigger] sc@[k] == k_scale(b@, top, k) && sc@[k] < 64,
            forall|k: int| 0 <= k < s ==> #[trigger] m@[k] == k_min(b@, k) && m@[k] < 64,
        decreases 8 - s,
    {
        sc.push(code6_exec(steps[s], d));
        m.push(code6_exec(depths[s], dmin));
        s = s + 1;
    }
    let mut q: Vec<u8> = Vec::new();
    let mut i: usize = 0;
    while i < 256
        invariant
            i <= 256,
            b@.len() == 256,
            d == unit(steps_of(b@, top)),
            dmin == unit(depths_of(b@)),
            sc@.len() == 8,
            m@.len() == 8,
            forall|k: int| 0 <= k < 8 ==> #[trigger] sc@[k] == k_scale(b@, top, k) && sc@[k] < 64,
            forall|k: int| 0 <= k < 8 ==> #[trigger] m@[k] == k_min(b@, k) && m@[k] < 64,
            q@.len() == i,
            forall|k: int|
                0 <= k < i ==> #[trigger] q@[k] == k_level(b@, top, top_level as int, k) && q@[k]
                    <= top_level,
        decreases 256 - i,
    {
        let scale: F32 = d.mul(F32::from_i64(sc[i / 32] as i64));
        let min: F32 = dmin.mul(F32::from_i64(m[i / 32] as i64));
        let v: u8 = if F32::zero().lt(scale) {
            let y: F32 = b[i].add(min).div(scale).round();
            proof {
                lemma_int_bounds(y, 0, top_level as int);
            }
            y.to_int(0, top_level as i64) as u8
        } else {
            0
        };
        q.push(v);
        i = i + 1;
    }
    proof {
        assert(ints(sc@) =~= k_scales(b@, top));
        assert(ints(m@) =~= k_mins(b@));
        assert(ints(q@) =~= k_levels(b@, top, top_level as int));
    }
    KCodes { d, dmin, sc, m, q }
}

fn push_k_head(c: &KCodes, b: Ghost<Seq<F32>>, top: Ghost<F32>, top_level: Ghost<int>, o: &mut Vec<u8>)
    requires
        c.are_of(b@, top@, top_level@),
    ensures
        final(o)@ == old(o)@ + k_head(b@, top@),
{
    proof {
        assert(c.sc@.len() == ints(c.sc@).len());
        assert(c.m@.len() == ints(c.m@).len());
    }
    let packed: Vec<u8> = put_scale_min_k4(c.sc.as_slice(), c.m.as_slice());
    push_u16(o, f32_to_f16(c.d));
    push_u16(o, f32_to_f16(c.dmin));
    push_bytes(o, packed.as_slice());
    assert(o@ =~= old(o)@ + k_head(b@, top@));
}

/// Writes the low halves of the levels.
fn push_k_low(q: &[u8], o: &mut Vec<u8>)
    requires
        q@.len() == 256,
    ensures
        final(o)@ == old(o)@ + k_low(ints(q@)),
{
    let ghost part = k_low(ints(q@));
    assert(o@ + part.subrange(0, 0) =~= o@);
    let mut k: usize = 0;
    while k < 128
        invariant
            k <= 128,
            q@.len() == 256,
            part == k_low(ints(q@)),
            o@ == old(o)@ + part.subrange(0, k as int),
        decreases 128 - k,
    {
        let p: usize = k / 32 * 64 + k % 32;
        o.push(q[p] % 16 + 16 * (q[p + 32] % 16));
        proof {
            assert(part[k as int] == (q@[p as int] as int % 16 + 16 * (q@[p + 32] as int % 16))
                as u8);
            assert(old(o)@ + part.subrange(0, k + 1) =~= (old(o)@ + part.subrange(
                0,
                k as int,
            )).push(part[k as int]));
        }
        k = k + 1;
    }
    assert(part.subrange(0, 128) =~= part);
}

/// Writes the fifth bits of the levels.
fn push_k_high(q: &[u8], o: &mut Vec<u8>)
    requires
        q@.len() == 256,
        forall|i: int| 0 <= i < 256 ==> #[trigger] q@[i] < 32,
    ensures
        final(o)@ == old(o)@ + k_high(ints(q@)),
{
    let ghost part = k_high(ints(q@));
    assert(o@ + part.subrange(0, 0) =~= o@);
    let mut l: usize = 0;
    while l < 32
        invariant
            l <= 32,
            q@.len() == 256,
            forall|i: int| 0 <= i < 256 ==> #[trigger] q@[i] < 32,
            part == k_high(ints(q@)),
            o@ == old(o)@ + part.subrange(0, l as int),
        decreases 32 - l,
    {
        let byte: u8 = q[l] / 16 + 2 * (q[32 + l] / 16) + 4 * (q[64 + l] / 16) + 8 * (q[96 + l]
            / 16) + 16 * (q[128 + l] / 16) + 32 * (q[160 + l] / 16) + 64 * (q[192 + l] / 16) + 128
            * (q[224 + l] / 16);
        o.push(byte);
        proof {
            assert(part[l as int] == byte);
            assert(old(o)@ + part.subrange(0, l + 1) =~= (old(o)@ + part.subrange(
                0,
                l as int,
            )).push(part[l as int]));
        }
        l = l + 1;
    }
    assert(part.subrange(0, 32) =~= part);
}

fn enc_q4_k(b: &[F32], o: &mut Vec<u8>)
    requires
        b@.len() == 256,
    ensures
        final(o)@ == old(o)@ + q4_k_block(b@),
{
    let top: F32 = F32 { bits: 0x4170_0000 };
    let c: KCodes = k_codes(b, top, 15);
    push_k_head(&c, Ghost(b@), Ghost(top), Ghost(15), o);
    assert(c.q@.len() == ints(c.q@).len());
    push_k_low(c.q.as_slice(), o);
    assert(o@ =~= old(o)@ + q4_k_block(b@));
}

fn enc_q5_k(b: &[F32], o: &mut Vec<u8>)
    requires
        b@.len() == 256,
    ensures
        final(o)@ == old(o)@ + q5_k_block(b@),
{
    let top: F32 = F32 { bits: 0x41f8_0000 };
    let c: KCodes = k_codes(b, top, 31);
    push_k_head(&c, Ghost(b@), Ghost(top), Ghost(31), o);
    assert(c.q@.len() == ints(c.q@).len());
    push_k_high(c.q.as_slice(), o);
    push_k_low(c.q.as_slice(), o);
    assert(o@ =~= old(o)@ + q5_k_block(b@));
}

/// The scales of the groups of a Q6_K block.
fn q6_groups(b: &[F32]) -> (v: Vec<F32>)
    requires
        b@.len() == 256,
    ensures
        v@ == groups_of(b@),
{
    let limit: F32 = F32 { bits: 0x41f8_0000 };
    let mut v: Vec<F32> = Vec::new();
    let mut g: usize = 0;
    while g < 16
        invariant
            g <= 16,
            b@.len() == 256,
            limit == (F32 { bits: 0x41f8_0000 }),
            v@ == groups_of(b@).subrange(0, g as int),
        decreases 16 - g,
    {
        v.push(abs_max_exec(slice_subrange(b, 16 * g, 16 * g + 16)).div(limit));
        proof {
            let all = groups_of(b@);
            assert(all.subrange(0, g + 1) =~= all.subrange(0, g as int).push(all[g as int]));
        }
        g = g + 1;
    }
    assert(v@ =~= groups_of(b@));
    v
}

/// Unit, group scales and raised levels of a Q6_K block.
fn q6_codes(b: &[F32]) -> (r: (F32, Vec<i8>, Vec<u8>))
    requires
        b@.len() == 256,
    ensures
        r.0 == q6_unit(b@),
        r.1@.len() == 16,
        forall|g: int| 0 <= g < 16 ==> #[trigger] r.1@[g] == q6_group(b@, g),
        ints(r.2@) == q6_raised(b@),
        forall|i: int| 0 <= i < 256 ==> #[trigger] r.2@[i] < 64,
{
    let groups: Vec<F32> = q6_groups(b);
    let d: F32 = peak_exec(groups.as_slice()).div(F32 { bits: INT8_MAX_BITS });
    let mut scales: Vec<i8> = Vec::new();
    let mut g: usize = 0;
    while g < 16
        invariant
            g <= 16,
            groups@ == groups_of(b@),
            d == q6_unit(b@),
            scales@.len() == g,
            forall|k: int| 0 <= k < g ==> #[trigger] scales@[k] == q6_group(b@, k),
        decreases 16 - g,
    {
        let v: i8 = if F32::zero().lt(d) {
            let y: F32 = groups[g].div(d).round();
            proof {
                lemma_int_bounds(y, -127, 127);
            }
            y.to_int(-127, 127) as i8
        } else {
            0
        };
        scales.push(v);
        g = g + 1;
    }
    let mut u: Vec<u8> = Vec::new();
    let mut i: usize = 0;
    while i < 256
        invariant
            i <= 256,
            b@.len() == 256,
            d == q6_unit(b@),
            scales@.len() == 16,
            forall|k: int| 0 <= k < 16 ==> #[trigger] scales@[k] == q6_group(b@, k),
            u@.len() == i,
            forall|k: int| 0 <= k < i ==> #[trigger] u@[k] == q6_value(b@, k) + 32 && u@[k] < 64,
        decreases 256 - i,
    {
        let a: F32 = d.mul(F32::from_i64(scales[i / 16] as i64));
        let q: i64 = if a.code() == 0 {
            0
        } else {
            let y: F32 = b[i].div(a).round();
            proof {
                lemma_int_bounds(y, -32, 31);
            }
            y.to_int(-32, 31)
        };
        u.push((q + 32) as u8);
        i = i + 1;
    }
    assert(ints(u@) =~= q6_raised(b@));
    (d, scales, u)
}

/// Writes the low halves and the high bits of raised Q6_K levels.
fn push_q6_levels(u: &[u8], o: &mut Vec<u8>)
    requires
        u@.len() == 256,
        forall|i: int| 0 <= i < 256 ==> #[trigger] u@[i] < 64,
    ensures
        final(o)@ == old(o)@ + (q6_low(ints(u@)) + q6_high(ints(u@))),
{
    let ghost low = q6_low(ints(u@));
    let ghost high = q6_high(ints(u@));
    assert(o@ + low.subrange(0, 0) =~= o@);
    let mut k: usize = 0;
    while k < 128
        invariant
            k <= 128,
            u@.len() == 256,
            low == q6_low(ints(u@)),
            o@ == old(o)@ + low.subrange(0, k as int),
        decreases 128 - k,
    {
        let p: usize = k / 64 * 128 + k % 64;
        let byte: u8 = u[p] % 16 + 16 * (u[p + 64] % 16);
        o.push(byte);
        proof {
            assert(low[k as int] == byte);
            assert(old(o)@ + low.subrange(0, k + 1) =~= (old(o)@ + low.subrange(
                0,
                k as int,
            )).push(low[k as int]));
        }
        k = k + 1;
    }
    assert(low.subrange(0, 128) =~= low);
    let ghost before = o@;
    assert(before + high.subrange(0, 0) =~= before);
    let mut h: usize = 0;
    while h < 64
        invariant
            h <= 64,
            u@.len() == 256,
            forall|i: int| 0 <= i < 256 ==> #[trigger] u@[i] < 64,
            high == q6_high(ints(u@)),
            o@ == before + high.subrange(0, h as int),
        decreases 64 - h,
    {
        let p: usize = h / 32 * 128 + h % 32;
        let byte: u8 = u[p] / 16 + 4 * (u[p + 32] / 16) + 16 * (u[p + 64] / 16) + 64 * (u[p + 96]
            / 16);
        o.push(byte);
        proof {
            assert(high[h as int] == byte);
            assert(before + high.subrange(0, h + 1) =~= (before + high.subrange(
                0,
                h as int,
            )).push(high[h as int]));
        }
        h = h + 1;
    }
    assert(high.subrange(0, 64) =~= high);
    assert(o@ =~= old(o)@ + (low + high));
}

fn enc_q6_k(b: &[F32], o: &mut Vec<u8>)
    requires
        b@.len() == 256,
    ensures
        final(o)@ == old(o)@ + q6_k_block(b@),
{
    let (d, scales, u) = q6_codes(b);
    assert(u@.len() == ints(u@).len());
    push_q6_levels(u.as_slice(), o);
    push_levels(o, scales.as_slice());
    push_u16(o, f32_to_f16(d));
    proof {
        assert(Seq::new(16, |g: int| unsigned(q6_group(b@, g), 0x100) as u8) =~= Seq::new(
            scales@.len(),
            |j: int| unsigned(scales@[j] as int, 0x100) as u8,
        ));
    }
    assert(o@ =~= old(o)@ + q6_k_block(b@));
}

/// Writes one block of a type.
fn push_block(ggml_type: u32, b: &[F32], o: &mut Vec<u8>)
    requires
        is_known(ggml_type),
        b@.len() == block_elements(ggml_type),
    ensures
        final(o)@ == old(o)@ + block_of(ggml_type, b@),
{
    if ggml_type == GGML_F32 {
        push_u32(o, b[0].to_bits());
    } else if ggml_type == GGML_F16 {
        push_u16(o, f32_to_f16(b[0]));
    } else if ggml_type == GGML_Q8_0 {
        enc_q8_0(b, o);
    } else if ggml_type == GGML_Q8_1 {
        enc_q8_1(b, o);
    } else if ggml_type == GGML_Q4_0 {
        enc_q4_0(b, o);
    } else if ggml_type == GGML_Q4_1 {
        enc_q4_1(b, o);
    } else if ggml_type == GGML_Q4_K {
        enc_q4_k(b, o);
    } else if ggml_type == GGML_Q5_K {
        enc_q5_k(b, o);
    } else {
        enc_q6_k(b, o);
    }
}

/// The bytes of numbers of a type. Fails on a type that cannot be written, and on
/// numbers that do not fill their blocks.
pub fn encode_tensor(data: &[F32], ggml_type: u32) -> (r: Result<Vec<u8>>)
    ensures
        match r {
            Ok(o) => is_whole(ggml_type, data@.len() as int) && o@ == encoded(ggml_type, data@),
            Err(e) => e is Format && !is_whole(ggml_type, data@.len() as int),
        },
{
    let size: usize = if ggml_type == GGML_F32 || ggml_type == GGML_F16 {
        1
    } else if ggml_type == GGML_Q8_0 || ggml_type == GGML_Q8_1 || ggml_type == GGML_Q4_0
        || ggml_type == GGML_Q4_1 {
        QK
    } else if ggml_type == GGML_Q4_K || ggml_type == GGML_Q5_K || ggml_type == GGML_Q6_K {
        QK_K
    } else {
        return Err(
            InferError::Format(
                with_number("encode_tensor: unsupported ggml type ", ggml_type as usize, ""),
            ),
        );
    };
    let n: usize = data.len();
    if n % size != 0 {
        return Err(
            InferError::Format(
                with_number(
                    "tensor length ",
                    n,
                    with_number(" is not a multiple of block size ", size, "").as_str(),
                ),
            ),
        );
    }
    let nb: usize = n / size;
    let mut o: Vec<u8> = Vec::new();
    let mut k: usize = 0;
    let mut p: usize = 0;
    while k < nb
        invariant
            k <= nb,
            is_known(ggml_type),
            size == block_elements(ggml_type),
            n == data@.len(),
            n == nb * size,
            p == k * size,
            o@ == blocks_of(ggml_type, data@, k as nat),
        decreases nb - k,
    {
        proof {
            assert(k * size + size <= nb * size && (k + 1) * size == k * size + size)
                by (nonlinear_arith)
                requires
                    k < nb,
                    size > 0,
            ;
        }
        push_block(ggml_type, slice_subrange(data, p, p + size), &mut o);
        k = k + 1;
        p = p + size;
    }
    Ok(o)
}

// ---------------------------------------------------------------------------
// What is written is read back
// ---------------------------------------------------------------------------

/// The number that a half-precision copy stands for.
pub open spec fn halved(x: F32) -> F32 {
    half_to_f32(f32_to_half(x))
}

/// What element `j` of a block of a type is read back as: its code, by the units
/// in half precision.
pub open spec fn decoded(ty: u32, b: Seq<F32>, j: int) -> F32 {
    if ty == GGML_F32 {
        b[j]
    } else if ty == GGML_F16 {
        halved(b[j])
    } else if ty == GGML_Q8_0 || ty == GGML_Q8_1 {
        halved(q8_scale(b)).mul_spec(of_int(q8_level(b, j)))
    } else if ty == GGML_Q4_0 {
        halved(q4_0_scale(b)).mul_spec(of_int(q4_0_level(b, j) - 8))
    } else if ty == GGML_Q4_1 {
        halved(q4_1_scale(b)).mul_spec(of_int(q4_1_level(b, j))).add_spec(halved(lowest(b)))
    } else if ty == GGML_Q4_K {
        k_decoded(b, F32 { bits: 0x4170_0000 }, 15, j)
    } else if ty == GGML_Q5_K {
        k_decoded(b, F32 { bits: 0x41f8_0000 }, 31, j)
    } else {
        halved(q6_unit(b)).mul_spec(of_int(q6_group(b, j / 16))).mul_spec(of_int(q6_value(b, j)))
    }
}

/// What element `j` of a Q4_K or Q5_K block is read back as.
pub open spec fn k_decoded(b: Seq<F32>, top: F32, top_level: int, j: int) -> F32 {
    halved(unit(steps_of(b, top))).mul_spec(of_int(k_scale(b, top, j / 32))).mul_spec(
        of_int(k_level(b, top, top_level, j)),
    ).sub_spec(halved(unit(depths_of(b))).mul_spec(of_int(k_min(b, j / 32))))
}

/// Packing six-bit scales and minima loses nothing.
pub proof fn packed_scales_are_read_back(q: Seq<u8>, p: int, sc: Seq<int>, m: Seq<int>, j: int)
    requires
        sc.len() == 8,
        m.len() == 8,
        forall|k: int| 0 <= k < 8 ==> 0 <= #[trigger] sc[k] < 64,
        forall|k: int| 0 <= k < 8 ==> 0 <= #[trigger] m[k] < 64,
        stands_at(q, p, packed_scales(sc, m)),
        0 <= j < 8,
    ensures
        scale_k4(q, p, j) == sc[j],
        min_k4(q, p, j) == m[j],
{
    let part = packed_scales(sc, m);
    let whole = q.subrange(p, p + 12);
    assert(part.len() == 12);
    assert forall|k: int| 0 <= k < 12 implies q[p + k] == #[trigger] part[k] by {
        assert(whole[k] == part[k]);
    }
    if j < 4 {
        assert(q[p + j] == part[j]);
        assert(q[p + (j + 4)] == part[j + 4]);
    } else {
        assert(q[p + (j + 4)] == part[j + 4]);
        assert(q[p + (j - 4)] == part[j - 4]);
        assert(q[p + j] == part[j]);
    }
}

proof fn lemma_half_stands(raw: Seq<u8>, p: int, x: F32)
    requires
        stands_at(raw, p, put16(f32_to_half(x) as int)),
    ensures
        half_at(raw, p) == halved(x),
{
    lemma_le16(raw, p, f32_to_half(x) as int);
}

proof fn lemma_byte(raw: Seq<u8>, p: int, part: Seq<u8>, k: int)
    requires
        stands_at(raw, p, part),
        0 <= k < part.len(),
    ensures
        raw[p + k] == part[k],
{
    assert(raw.subrange(p, p + part.len())[k] == part[k]);
}

proof fn lemma_q8(raw: Seq<u8>, p: int, b: Seq<F32>, j: int)
    requires
        b.len() == 32,
        0 <= j < 32,
        stands_at(raw, p, q8_bytes(b)),
    ensures
        signed(raw[p + j] as int, 0x100) == q8_level(b, j),
{
    lemma_byte(raw, p, q8_bytes(b), j);
    lemma_level_range(b[j], inverse_of(q8_scale(b)), QKind::Int8);
}

/// Two levels in a byte are read back.
proof fn lemma_nibbles(raw: Seq<u8>, p: int, part: Seq<u8>, f: spec_fn(int) -> int, j: int)
    requires
        0 <= j < 32,
        part == Seq::new(16, |k: int| (f(k) + 16 * f(k + 16)) as u8),
        stands_at(raw, p, part),
        0 <= f(j % 16) <= 15,
        0 <= f(j % 16 + 16) <= 15,
    ensures
        nibble(raw[p + j % 16], j >= 16) == f(j),
{
    lemma_byte(raw, p, part, j % 16);
    if j >= 16 {
        assert(j % 16 + 16 == j);
    } else {
        assert(j % 16 == j);
    }
}

proof fn lemma_q4_0_bounds(b: Seq<F32>, j: int)
    ensures
        0 <= q4_0_level(b, j) <= 15,
        0 <= q4_1_level(b, j) <= 15,
{
    lemma_int_bounds(
        b[j].mul_spec(inverse_of(q4_0_scale(b))).add_spec(F32 { bits: 0x4108_0000 }),
        0,
        15,
    );
    lemma_int_bounds(
        b[j].sub_spec(lowest(b)).mul_spec(inverse_of(q4_1_scale(b))).add_spec(
            F32 { bits: 0x3f00_0000 },
        ),
        0,
        15,
    );
}

proof fn lemma_code6_bounds(x: F32, d: F32)
    ensures
        0 <= code6(x, d) < 64,
{
    lemma_int_bounds(x.div_spec(d).round_spec(), 0, 63);
}

proof fn lemma_k_bounds(b: Seq<F32>, top: F32, top_level: int, i: int)
    requires
        top_level >= 0,
    ensures
        0 <= k_level(b, top, top_level, i) <= top_level,
{
    let scale = unit(steps_of(b, top)).mul_spec(of_int(k_scale(b, top, i / 32)));
    let min = unit(depths_of(b)).mul_spec(of_int(k_min(b, i / 32)));
    lemma_int_bounds(b[i].add_spec(min).div_spec(scale).round_spec(), 0, top_level);
}

proof fn lemma_q6_bounds(b: Seq<F32>, i: int)
    ensures
        -32 <= q6_value(b, i) <= 31,
        -127 <= q6_group(b, i) <= 127,
{
    let a = q6_unit(b).mul_spec(of_int(q6_group(b, i / 16)));
    lemma_int_bounds(b[i].div_spec(a).round_spec(), -32, 31);
    lemma_int_bounds(groups_of(b)[i].div_spec(q6_unit(b)).round_spec(), -127, 127);
}

/// The head of a Q4_K or Q5_K block is read back.
proof fn lemma_k_head(raw: Seq<u8>, b: Seq<F32>, top: F32, j: int)
    requires
        b.len() == 256,
        0 <= j < 256,
        stands_at(raw, 0, k_head(b, top)),
    ensures
        sub_scale(raw, 0, j) == halved(unit(steps_of(b, top))).mul_spec(
            of_int(k_scale(b, top, j / 32)),
        ),
        sub_min(raw, 0, j) == halved(unit(depths_of(b))).mul_spec(of_int(k_min(b, j / 32))),
{
    let a = put16(f32_to_half(unit(steps_of(b, top))) as int);
    let c = put16(f32_to_half(unit(depths_of(b))) as int);
    let s = packed_scales(k_scales(b, top), k_mins(b));
    lemma_stands_split(raw, 0, a, c + s);
    lemma_stands_split(raw, 2, c, s);
    lemma_half_stands(raw, 0, unit(steps_of(b, top)));
    lemma_half_stands(raw, 2, unit(depths_of(b)));
    assert forall|k: int| 0 <= k < 8 implies 0 <= #[trigger] k_scales(b, top)[k] < 64 by {
        lemma_code6_bounds(steps_of(b, top)[k], unit(steps_of(b, top)));
    }
    assert forall|k: int| 0 <= k < 8 implies 0 <= #[trigger] k_mins(b)[k] < 64 by {
        lemma_code6_bounds(depths_of(b)[k], unit(depths_of(b)));
    }
    packed_scales_are_read_back(raw, 4, k_scales(b, top), k_mins(b), j % 256 / 32);
}

/// The low halves of the levels of a Q4_K or Q5_K block are read back.
proof fn lemma_k_low(raw: Seq<u8>, p: int, q: Seq<int>, j: int)
    requires
        q.len() == 256,
        0 <= j < 256,
        forall|k: int| 0 <= k < 256 ==> 0 <= #[trigger] q[k] < 32,
        stands_at(raw, p, k_low(q)),
    ensures
        k_nibble(raw, p, j) == q[j] % 16,
{
    let k = j % 256 / 64 * 32 + j % 32;
    lemma_byte(raw, p, k_low(q), k);
    assert(k / 32 == j / 64 && k % 32 == j % 32);
    let lo = k / 32 * 64 + k % 32;
    let hi = k / 32 * 64 + 32 + k % 32;
    assert(0 <= q[lo] < 32 && 0 <= q[hi] < 32);
    if j % 64 >= 32 {
        assert(hi == j);
    } else {
        assert(lo == j);
    }
}

/// Bits summed by their weights are found again.
proof fn lemma_bits(b: Seq<int>, s: int)
    requires
        b.len() == 8,
        forall|k: int| 0 <= k < 8 ==> 0 <= #[trigger] b[k] <= 1,
        0 <= s < 8,
    ensures
        (b[0] + 2 * b[1] + 4 * b[2] + 8 * b[3] + 16 * b[4] + 32 * b[5] + 64 * b[6] + 128 * b[7])
            / bit_weight(s) % 2 == b[s],
        0 <= b[0] + 2 * b[1] + 4 * b[2] + 8 * b[3] + 16 * b[4] + 32 * b[5] + 64 * b[6] + 128 * b[7]
            < 256,
{
    let low = b[0] + 2 * b[1] + 4 * b[2] + 8 * b[3];
    let high = b[4] + 2 * b[5] + 4 * b[6] + 8 * b[7];
    assert(0 <= b[0] <= 1 && 0 <= b[1] <= 1 && 0 <= b[2] <= 1 && 0 <= b[3] <= 1);
    assert(0 <= b[4] <= 1 && 0 <= b[5] <= 1 && 0 <= b[6] <= 1 && 0 <= b[7] <= 1);
    let v = low + 16 * high;
    if s == 0 {
        assert(v == b[0] + 2 * (b[1] + 2 * b[2] + 4 * b[3] + 8 * high));
    } else if s == 1 {
        assert(v / 2 == b[1] + 2 * (b[2] + 2 * b[3] + 4 * high));
    } else if s == 2 {
        assert(v / 4 == b[2] + 2 * (b[3] + 2 * high));
    } else if s == 3 {
        assert(v / 8 == b[3] + 2 * high);
    } else if s == 4 {
        assert(v / 16 == b[4] + 2 * (b[5] + 2 * b[6] + 4 * b[7]));
    } else if s == 5 {
        assert(v / 32 == b[5] + 2 * (b[6] + 2 * b[7]));
    } else if s == 6 {
        assert(v / 64 == b[6] + 2 * b[7]);
    } else {
        assert(v / 128 == b[7]);
    }
}

/// Pairs of bits summed by their weights are found again.
proof fn lemma_pairs(a: int, b: int, c: int, d: int)
    requires
        0 <= a < 4,
        0 <= b < 4,
        0 <= c < 4,
        0 <= d < 4,
    ensures
        ({
            let v = a + 4 * b + 16 * c + 64 * d;
            &&& 0 <= v < 256
            &&& v % 4 == a
            &&& v / 4 % 4 == b
            &&& v / 16 % 4 == c
            &&& v / 64 % 4 == d
        }),
{
    let v = a + 4 * b + 16 * c + 64 * d;
    assert(v == a + 4 * (b + 4 * c + 16 * d));
    assert(v / 4 == b + 4 * (c + 4 * d));
    assert(v / 16 == c + 4 * d);
    assert(v / 64 == d);
}

/// The fifth bits of the levels of a Q5_K block are read back.
proof fn lemma_k_high(raw: Seq<u8>, p: int, q: Seq<int>, j: int)
    requires
        q.len() == 256,
        0 <= j < 256,
        forall|k: int| 0 <= k < 256 ==> 0 <= #[trigger] q[k] < 32,
        stands_at(raw, p, k_high(q)),
    ensures
        fifth_bit(raw, p, j) == q[j] / 16,
{
    let l = j % 32;
    let s = j / 32;
    lemma_byte(raw, p, k_high(q), l);
    let b = Seq::new(8, |k: int| q[32 * k + l] / 16);
    assert forall|k: int| 0 <= k < 8 implies 0 <= #[trigger] b[k] <= 1 by {
        assert(0 <= q[32 * k + l] < 32);
    }
    lemma_bits(b, s);
    assert(b[s] == q[32 * s + l] / 16);
    assert(32 * s + l == j);
    assert(fifths(q, l) == b[0] + 2 * b[1] + 4 * b[2] + 8 * b[3] + 16 * b[4] + 32 * b[5] + 64 * b[6]
        + 128 * b[7]);
    assert(raw[p + l] as int == fifths(q, l));
}

/// The low halves of raised Q6_K levels are read back.
proof fn lemma_q6_low(raw: Seq<u8>, u: Seq<int>, j: int)
    requires
        u.len() == 256,
        0 <= j < 256,
        forall|k: int| 0 <= k < 256 ==> 0 <= #[trigger] u[k] < 64,
        stands_at(raw, 0, q6_low(u)),
    ensures
        nibble(raw[j / 128 * 64 + j % 64], j % 128 >= 64) == u[j] % 16,
{
    let k = j / 128 * 64 + j % 64;
    lemma_byte(raw, 0, q6_low(u), k);
    assert(k / 64 == j / 128 && k % 64 == j % 64);
    let lo = k / 64 * 128 + k % 64;
    let hi = k / 64 * 128 + 64 + k % 64;
    assert(0 <= u[lo] < 64 && 0 <= u[hi] < 64);
    assert(raw[k] as int == u[lo] % 16 + 16 * (u[hi] % 16));
    if j % 128 >= 64 {
        assert(hi == j);
    } else {
        assert(lo == j);
    }
}

/// The high bits of raised Q6_K levels are read back.
proof fn lemma_q6_high(raw: Seq<u8>, u: Seq<int>, j: int)
    requires
        u.len() == 256,
        0 <= j < 256,
        forall|k: int| 0 <= k < 256 ==> 0 <= #[trigger] u[k] < 64,
        stands_at(raw, 128, q6_high(u)),
    ensures
        raw[128 + (j / 128 * 32 + j % 32)] as int / bit_weight(2 * (j % 128 / 32)) % 4 == u[j] / 16,
{
    let h = j / 128 * 32 + j % 32;
    lemma_byte(raw, 128, q6_high(u), h);
    assert(h / 32 == j / 128 && h % 32 == j % 32);
    let a = h / 32 * 128 + h % 32;
    assert(0 <= u[a] < 64);
    assert(0 <= u[h / 32 * 128 + 32 + h % 32] < 64);
    assert(0 <= u[h / 32 * 128 + 64 + h % 32] < 64);
    assert(0 <= u[h / 32 * 128 + 96 + h % 32] < 64);
    lemma_pairs(u[a] / 16, u[a + 32] / 16, u[a + 64] / 16, u[a + 96] / 16);
    assert(raw[128 + h] as int == u[a] / 16 + 4 * (u[a + 32] / 16) + 16 * (u[a + 64] / 16) + 64 * (
    u[a + 96] / 16));
    let t = j % 128 / 32;
    assert(j == a + 32 * t);
}

/// The levels of a Q6_K block are read back.
proof fn lemma_q6_levels(raw: Seq<u8>, u: Seq<int>, j: int)
    requires
        u.len() == 256,
        0 <= j < 256,
        forall|k: int| 0 <= k < 256 ==> 0 <= #[trigger] u[k] < 64,
        stands_at(raw, 0, q6_low(u)),
        stands_at(raw, 128, q6_high(u)),
    ensures
        q6_level(raw, 0, j) == u[j] - 32,
{
    lemma_q6_low(raw, u, j);
    lemma_q6_high(raw, u, j);
    assert(0 <= u[j] < 64);
    assert(u[j] % 16 + 16 * (u[j] / 16) == u[j]);
}

/// A block has the bytes of its type.
proof fn lemma_block_len(ty: u32, b: Seq<F32>)
    requires
        is_known(ty),
    ensures
        block_of(ty, b).len() == block_bytes(ty),
{
}

proof fn lemma_f32_decodes(b: Seq<F32>, j: int)
    requires
        b.len() == block_elements(GGML_F32),
        0 <= j < b.len(),
    ensures
        element_at(GGML_F32, block_of(GGML_F32, b), j) == decoded(GGML_F32, b, j),
{
    let raw = block_of(GGML_F32, b);
    assert(raw.subrange(0, raw.len() as int) =~= raw);
    lemma_le32(raw, 0, b[0].bits as int);
}

proof fn lemma_f16_decodes(b: Seq<F32>, j: int)
    requires
        b.len() == block_elements(GGML_F16),
        0 <= j < b.len(),
    ensures
        element_at(GGML_F16, block_of(GGML_F16, b), j) == decoded(GGML_F16, b, j),
{
    let raw = block_of(GGML_F16, b);
    assert(raw.subrange(0, raw.len() as int) =~= raw);
    lemma_half_stands(raw, 0, b[0]);
}

#[verifier::rlimit(60)]
#[verifier::spinoff_prover]
proof fn lemma_q8_0_decodes(b: Seq<F32>, j: int)
    requires
        b.len() == block_elements(GGML_Q8_0),
        0 <= j < b.len(),
    ensures
        element_at(GGML_Q8_0, block_of(GGML_Q8_0, b), j) == decoded(GGML_Q8_0, b, j),
{
    let raw = block_of(GGML_Q8_0, b);
    assert(raw.subrange(0, raw.len() as int) =~= raw);
    let a = put16(f32_to_half(q8_scale(b)) as int);
    lemma_stands_split(raw, 0, a, q8_bytes(b));
    lemma_half_stands(raw, 0, q8_scale(b));
    lemma_q8(raw, 2, b, j);
}

#[verifier::rlimit(60)]
#[verifier::spinoff_prover]
proof fn lemma_q8_1_decodes(b: Seq<F32>, j: int)
    requires
        b.len() == block_elements(GGML_Q8_1),
        0 <= j < b.len(),
    ensures
        element_at(GGML_Q8_1, block_of(GGML_Q8_1, b), j) == decoded(GGML_Q8_1, b, j),
{
    let raw = block_of(GGML_Q8_1, b);
    assert(raw.subrange(0, raw.len() as int) =~= raw);
    let a = put16(f32_to_half(q8_scale(b)) as int);
    let c = put16(f32_to_half(q8_scale(b).mul_spec(of_int(q8_sum(b, 32)))) as int);
    lemma_stands_split(raw, 0, a, c + q8_bytes(b));
    lemma_stands_split(raw, 2, c, q8_bytes(b));
    lemma_half_stands(raw, 0, q8_scale(b));
    lemma_q8(raw, 4, b, j);
}

proof fn lemma_q4_0_decodes(b: Seq<F32>, j: int)
    requires
        b.len() == block_elements(GGML_Q4_0),
        0 <= j < b.len(),
    ensures
        element_at(GGML_Q4_0, block_of(GGML_Q4_0, b), j) == decoded(GGML_Q4_0, b, j),
{
    let raw = block_of(GGML_Q4_0, b);
    assert(raw.subrange(0, raw.len() as int) =~= raw);
    let a = put16(f32_to_half(q4_0_scale(b)) as int);
    let f = |k: int| q4_0_level(b, k);
    let part = Seq::new(16, |k: int| (q4_0_level(b, k) + 16 * q4_0_level(b, k + 16)) as u8);
    lemma_stands_split(raw, 0, a, part);
    lemma_half_stands(raw, 0, q4_0_scale(b));
    lemma_q4_0_bounds(b, j % 16);
    lemma_q4_0_bounds(b, j % 16 + 16);
    assert(part =~= Seq::new(16, |k: int| (f(k) + 16 * f(k + 16)) as u8));
    lemma_nibbles(raw, 2, part, f, j);
}

proof fn lemma_q4_1_decodes(b: Seq<F32>, j: int)
    requires
        b.len() == block_elements(GGML_Q4_1),
        0 <= j < b.len(),
    ensures
        element_at(GGML_Q4_1, block_of(GGML_Q4_1, b), j) == decoded(GGML_Q4_1, b, j),
{
    let raw = block_of(GGML_Q4_1, b);
    assert(raw.subrange(0, raw.len() as int) =~= raw);
    let a = put16(f32_to_half(q4_1_scale(b)) as int);
    let c = put16(f32_to_half(lowest(b)) as int);
    let f = |k: int| q4_1_level(b, k);
    let part = Seq::new(16, |k: int| (q4_1_level(b, k) + 16 * q4_1_level(b, k + 16)) as u8);
    lemma_stands_split(raw, 0, a, c + part);
    lemma_stands_split(raw, 2, c, part);
    lemma_half_stands(raw, 0, q4_1_scale(b));
    lemma_half_stands(raw, 2, lowest(b));
    lemma_q4_0_bounds(b, j % 16);
    lemma_q4_0_bounds(b, j % 16 + 16);
    assert(part =~= Seq::new(16, |k: int| (f(k) + 16 * f(k + 16)) as u8));
    lemma_nibbles(raw, 4, part, f, j);
}

/// The levels of a block are among those of its type.
proof fn lemma_levels_bounds(b: Seq<F32>, top: F32, top_level: int)
    requires
        top_level >= 0,
    ensures
        forall|k: int| 0 <= k < 256 ==> 0 <= #[trigger] k_levels(b, top, top_level)[k] <= top_level,
{
    assert forall|k: int| 0 <= k < 256 implies 0 <= #[trigger] k_levels(b, top, top_level)[k]
        <= top_level by {
        lemma_k_bounds(b, top, top_level, k);
    }
}

/// The low halves and the fifth bits of the levels, of a whole block.
proof fn lemma_q5_levels(raw: Seq<u8>, q: Seq<int>, j: int)
    requires
        q.len() == 256,
        0 <= j < 256,
        forall|k: int| 0 <= k < 256 ==> 0 <= #[trigger] q[k] <= 31,
        stands_at(raw, 16, k_high(q)),
        stands_at(raw, 48, k_low(q)),
    ensures
        k_nibble(raw, 48, j) + 16 * fifth_bit(raw, 16, j) == q[j],
{
    lemma_k_high(raw, 16, q, j);
    lemma_k_low(raw, 48, q, j);
    assert(q[j] % 16 + 16 * (q[j] / 16) == q[j]);
}

#[verifier::rlimit(60)]
#[verifier::spinoff_prover]
proof fn lemma_q4_k_decodes(b: Seq<F32>, j: int)
    requires
        b.len() == 256,
        0 <= j < 256,
    ensures
        element_at(GGML_Q4_K, q4_k_block(b), j) == k_decoded(b, F32 { bits: 0x4170_0000 }, 15, j),
{
    let raw = q4_k_block(b);
    let top = F32 { bits: 0x4170_0000 };
    let q = k_levels(b, top, 15);
    assert(raw.subrange(0, raw.len() as int) =~= raw);
    lemma_stands_split(raw, 0, k_head(b, top), k_low(q));
    lemma_k_head(raw, b, top, j);
    lemma_levels_bounds(b, top, 15);
    lemma_k_low(raw, 16, q, j);
    assert(k_nibble(raw, 16, j) == q[j]);
    assert(q[j] == k_level(b, top, 15, j));
    assert(j / 256 * 144 == 0);
}

#[verifier::rlimit(60)]
#[verifier::spinoff_prover]
proof fn lemma_q5_k_decodes(b: Seq<F32>, j: int)
    requires
        b.len() == 256,
        0 <= j < 256,
    ensures
        element_at(GGML_Q5_K, q5_k_block(b), j) == k_decoded(b, F32 { bits: 0x41f8_0000 }, 31, j),
{
    let raw = q5_k_block(b);
    let top = F32 { bits: 0x41f8_0000 };
    let q = k_levels(b, top, 31);
    assert(raw.subrange(0, raw.len() as int) =~= raw);
    lemma_stands_split(raw, 0, k_head(b, top), k_high(q) + k_low(q));
    lemma_stands_split(raw, 16, k_high(q), k_low(q));
    lemma_k_head(raw, b, top, j);
    lemma_levels_bounds(b, top, 31);
    lemma_q5_levels(raw, q, j);
    assert(q[j] == k_level(b, top, 31, j));
    assert(j / 256 * 176 == 0);
}

proof fn lemma_raised_bounds(b: Seq<F32>)
    ensures
        forall|k: int| 0 <= k < 256 ==> 0 <= #[trigger] q6_raised(b)[k] < 64,
{
    assert forall|k: int| 0 <= k < 256 implies 0 <= #[trigger] q6_raised(b)[k] < 64 by {
        lemma_q6_bounds(b, k);
    }
}

proof fn lemma_q6_scales(raw: Seq<u8>, b: Seq<F32>, s: Seq<u8>, j: int)
    requires
        0 <= j < 256,
        s == Seq::new(16, |g: int| unsigned(q6_group(b, g), 0x100) as u8),
        stands_at(raw, 192, s),
        stands_at(raw, 208, put16(f32_to_half(q6_unit(b)) as int)),
    ensures
        q6_scale(raw, 0, j) == halved(q6_unit(b)).mul_spec(of_int(q6_group(b, j / 16))),
{
    lemma_half_stands(raw, 208, q6_unit(b));
    lemma_byte(raw, 192, s, j / 16);
    lemma_q6_bounds(b, j / 16);
}

#[verifier::rlimit(60)]
#[verifier::spinoff_prover]
proof fn lemma_q6_k_decodes(b: Seq<F32>, j: int)
    requires
        b.len() == 256,
        0 <= j < 256,
    ensures
        element_at(GGML_Q6_K, q6_k_block(b), j) == halved(q6_unit(b)).mul_spec(
            of_int(q6_group(b, j / 16)),
        ).mul_spec(of_int(q6_value(b, j))),
{
    let raw = q6_k_block(b);
    let u = q6_raised(b);
    let s = Seq::new(16, |g: int| unsigned(q6_group(b, g), 0x100) as u8);
    let c = put16(f32_to_half(q6_unit(b)) as int);
    assert(raw.subrange(0, raw.len() as int) =~= raw);
    lemma_stands_split(raw, 0, q6_low(u), q6_high(u) + (s + c));
    lemma_stands_split(raw, 128, q6_high(u), s + c);
    lemma_stands_split(raw, 192, s, c);
    lemma_raised_bounds(b);
    lemma_q6_levels(raw, u, j);
    lemma_q6_scales(raw, b, s, j);
    assert(u[j] - 32 == q6_value(b, j));
    assert(j / 256 * 210 == 0);
}

/// Each element of a block alone is read back as its code stands for.
proof fn lemma_block_decodes(ty: u32, b: Seq<F32>, j: int)
    requires
        is_known(ty),
        b.len() == block_elements(ty),
        0 <= j < b.len(),
    ensures
        element_at(ty, block_of(ty, b), j) == decoded(ty, b, j),
{
    if ty == GGML_F32 {
        lemma_f32_decodes(b, j);
    } else if ty == GGML_F16 {
        lemma_f16_decodes(b, j);
    } else if ty == GGML_Q8_0 {
        lemma_q8_0_decodes(b, j);
    } else if ty == GGML_Q8_1 {
        lemma_q8_1_decodes(b, j);
    } else if ty == GGML_Q4_0 {
        lemma_q4_0_decodes(b, j);
    } else if ty == GGML_Q4_1 {
        lemma_q4_1_decodes(b, j);
    } else if ty == GGML_Q4_K {
        lemma_q4_k_decodes(b, j);
    } else if ty == GGML_Q5_K {
        lemma_q5_k_decodes(b, j);
    } else {
        lemma_q6_k_decodes(b, j);
    }
}

/// Elements of the types with blocks of at most 32 depend on their block alone.
#[verifier::rlimit(60)]
#[verifier::spinoff_prover]
proof fn lemma_small_local(ty: u32, raw: Seq<u8>, blk: Seq<u8>, k: int, j: int)
    requires
        is_known(ty),
        ty != GGML_Q4_K && ty != GGML_Q5_K && ty != GGML_Q6_K,
        blk.len() == block_bytes(ty),
        0 <= k,
        0 <= j < block_elements(ty),
        stands_at(raw, k * block_bytes(ty), blk),
    ensures
        element_at(ty, raw, k * block_elements(ty) + j) == element_at(ty, blk, j),
{
    let p = k * block_bytes(ty);
    lemma_byte(raw, p, blk, 0);
    lemma_byte(raw, p, blk, 1);
    if ty == GGML_F32 {
        lemma_byte(raw, p, blk, 2);
        lemma_byte(raw, p, blk, 3);
    } else if ty != GGML_F16 {
        let i = k * 32 + j;
        assert(i / 32 == k && i % 32 == j && i % 16 == j % 16);
        if ty == GGML_Q8_0 {
            lemma_byte(raw, p, blk, 2 + j);
        } else if ty == GGML_Q8_1 {
            lemma_byte(raw, p, blk, 4 + j);
        } else if ty == GGML_Q4_0 {
            lemma_byte(raw, p, blk, 2 + j % 16);
        } else {
            lemma_byte(raw, p, blk, 2);
            lemma_byte(raw, p, blk, 3);
            lemma_byte(raw, p, blk, 4 + j % 16);
        }
    }
}

/// Places of a super-block.
proof fn lemma_super_index(k: int, j: int)
    requires
        0 <= k,
        0 <= j < 256,
    ensures
        (k * 256 + j) / 256 == k,
        (k * 256 + j) % 256 == j,
        (k * 256 + j) % 32 == j % 32,
        (k * 256 + j) % 64 == j % 64,
        (k * 256 + j) % 128 == j % 128,
{
}

/// Elements of Q6_K depend on their block alone.
#[verifier::rlimit(60)]
#[verifier::spinoff_prover]
proof fn lemma_q6_local(raw: Seq<u8>, blk: Seq<u8>, k: int, j: int)
    requires
        blk.len() == 210,
        0 <= k,
        0 <= j < 256,
        stands_at(raw, k * 210, blk),
    ensures
        element_at(GGML_Q6_K, raw, k * 256 + j) == element_at(GGML_Q6_K, blk, j),
{
    let p = k * 210;
    lemma_super_index(k, j);
    lemma_byte(raw, p, blk, 208);
    lemma_byte(raw, p, blk, 209);
    lemma_byte(raw, p, blk, 192 + j / 16);
    lemma_byte(raw, p, blk, j / 128 * 64 + j % 64);
    lemma_byte(raw, p, blk, 128 + (j / 128 * 32 + j % 32));
    assert(q6_scale(raw, p, k * 256 + j) == q6_scale(blk, 0, j));
    assert(q6_level(raw, p, k * 256 + j) == q6_level(blk, 0, j));
}

/// Elements of Q4_K and Q5_K depend on their block alone.
#[verifier::rlimit(60)]
#[verifier::spinoff_prover]
proof fn lemma_k_local(ty: u32, raw: Seq<u8>, blk: Seq<u8>, k: int, j: int)
    requires
        ty == GGML_Q4_K || ty == GGML_Q5_K,
        blk.len() == block_bytes(ty),
        0 <= k,
        0 <= j < 256,
        stands_at(raw, k * block_bytes(ty), blk),
    ensures
        element_at(ty, raw, k * 256 + j) == element_at(ty, blk, j),
{
    let p = k * block_bytes(ty);
    lemma_super_index(k, j);
    lemma_byte(raw, p, blk, 0);
    lemma_byte(raw, p, blk, 1);
    lemma_byte(raw, p, blk, 2);
    lemma_byte(raw, p, blk, 3);
    let s = j / 32;
    lemma_byte(raw, p, blk, 4 + s);
    lemma_byte(raw, p, blk, 4 + s + 4);
    if s >= 4 {
        lemma_byte(raw, p, blk, 4 + s - 4);
    }
    assert(scale_k4(raw, p + 4, s) == scale_k4(blk, 4, s));
    assert(min_k4(raw, p + 4, s) == min_k4(blk, 4, s));
    assert(sub_scale(raw, p, k * 256 + j) == sub_scale(blk, 0, j));
    assert(sub_min(raw, p, k * 256 + j) == sub_min(blk, 0, j));
    let off = j / 64 * 32 + j % 32;
    if ty == GGML_Q4_K {
        lemma_byte(raw, p, blk, 16 + off);
    } else {
        lemma_byte(raw, p, blk, 48 + off);
        lemma_byte(raw, p, blk, 16 + j % 32);
    }
}

/// An element depends on its own block alone.
proof fn lemma_element_local(ty: u32, raw: Seq<u8>, blk: Seq<u8>, k: int, j: int)
    requires
        is_known(ty),
        blk.len() == block_bytes(ty),
        0 <= k,
        0 <= j < block_elements(ty),
        stands_at(raw, k * block_bytes(ty), blk),
    ensures
        element_at(ty, raw, k * block_elements(ty) + j) == element_at(ty, blk, j),
{
    if ty == GGML_Q6_K {
        lemma_q6_local(raw, blk, k, j);
    } else if ty == GGML_Q4_K || ty == GGML_Q5_K {
        lemma_k_local(ty, raw, blk, k, j);
    } else {
        lemma_small_local(ty, raw, blk, k, j);
    }
}

/// The first `n` blocks take up their bytes, and each stands in its place.
proof fn lemma_blocks_stand(ty: u32, data: Seq<F32>, n: nat, k: int)
    requires
        is_known(ty),
    ensures
        blocks_of(ty, data, n).len() == n * block_bytes(ty),
        0 <= k < n ==> stands_at(
            blocks_of(ty, data, n),
            k * block_bytes(ty),
            block_of(ty, nth_block(ty, data, k)),
        ),
    decreases n,
{
    let bb = block_bytes(ty);
    if n > 0 {
        let before = blocks_of(ty, data, (n - 1) as nat);
        let blk = block_of(ty, nth_block(ty, data, n - 1));
        lemma_block_len(ty, nth_block(ty, data, n - 1));
        lemma_blocks_stand(ty, data, (n - 1) as nat, k);
        assert((n - 1) * bb + bb == n * bb) by (nonlinear_arith);
        let all = blocks_of(ty, data, n);
        if 0 <= k < n - 1 {
            let part = block_of(ty, nth_block(ty, data, k));
            lemma_block_len(ty, nth_block(ty, data, k));
            assert(k * bb + bb <= (n - 1) * bb && k * bb >= 0) by (nonlinear_arith)
                requires
                    0 <= k < n - 1,
                    bb > 0,
            ;
            assert(all.subrange(k * bb, k * bb + bb) =~= before.subrange(k * bb, k * bb + bb));
        } else if k == n - 1 {
            assert((n - 1) * bb >= 0) by (nonlinear_arith)
                requires
                    n >= 1,
                    bb > 0,
            ;
            assert(all.subrange(k * bb, k * bb + bb) =~= blk);
        }
    }
}

/// Reading is the inverse of writing: a written tensor has the bytes of its type,
/// and each of its elements is read back as what its code stands for. Full
/// precision comes back bit for bit.
pub proof fn written_tensors_are_read_back(ty: u32, data: Seq<F32>, i: int)
    requires
        is_whole(ty, data.len() as int),
        0 <= i < data.len(),
    ensures
        encoded(ty, data).len() == bytes_of(ty, data.len() as int),
        element_at(ty, encoded(ty, data), i) == decoded(
            ty,
            nth_block(ty, data, i / block_elements(ty)),
            i % block_elements(ty),
        ),
        ty == GGML_F32 ==> element_at(ty, encoded(ty, data), i) == data[i],
{
    let bl = block_elements(ty);
    let n = data.len() as int;
    let nb = n / bl;
    let k = i / bl;
    let j = i % bl;
    lemma_split(i, nb, bl);
    assert(k * bl + bl <= n) by (nonlinear_arith)
        requires
            0 <= k < nb,
            n == nb * bl,
            bl > 0,
    ;
    let b = nth_block(ty, data, k);
    lemma_blocks_stand(ty, data, nb as nat, k);
    lemma_block_len(ty, b);
    lemma_element_local(ty, encoded(ty, data), block_of(ty, b), k, j);
    lemma_block_decodes(ty, b, j);
}

} // verus!
