//! Element types of GGUF tensors and the numbers that their blocks hold.
use crate::bytes::{get_u16, get_u32, le16, le32, signed, signed8};
use crate::error::{InferError, Result};
use crate::float::{of_int, F32};
use crate::half::{f16_to_f32, half_to_f32};
use crate::text::with_number;
use vstd::prelude::*;

verus! {

pub const GGML_F32: u32 = 0;

pub const GGML_F16: u32 = 1;

pub const GGML_Q4_0: u32 = 2;

pub const GGML_Q4_1: u32 = 3;

pub const GGML_Q8_0: u32 = 8;

pub const GGML_Q8_1: u32 = 9;

pub const GGML_Q4_K: u32 = 12;

pub const GGML_Q5_K: u32 = 13;

pub const GGML_Q6_K: u32 = 14;

/// Elements of a block.
pub const QK: usize = 32;

/// Elements of a super-block.
pub const QK_K: usize = 256;

/// Bytes of a Q4_K super-block: `d`, `dmin`, packed scales, low halves.
pub const Q4_K_BLOCK: usize = 144;

/// Bytes of a Q5_K super-block: as Q4_K, with the fifth bits before the rest.
pub const Q5_K_BLOCK: usize = 176;

/// Bytes of a Q6_K super-block: low halves, high bits, scales, `d`.
pub const Q6_K_BLOCK: usize = 210;

/// A type whose elements can be read.
pub open spec fn is_known(ty: u32) -> bool {
    ty == GGML_F32 || ty == GGML_F16 || ty == GGML_Q8_0 || ty == GGML_Q8_1 || ty == GGML_Q4_0 || ty
        == GGML_Q4_1 || ty == GGML_Q4_K || ty == GGML_Q5_K || ty == GGML_Q6_K
}

/// Elements that stand together in a block.
pub open spec fn block_elements(ty: u32) -> int {
    if ty == GGML_F32 || ty == GGML_F16 {
        1
    } else if ty == GGML_Q4_K || ty == GGML_Q5_K || ty == GGML_Q6_K {
        256
    } else {
        32
    }
}

/// Bytes of a block.
pub open spec fn block_bytes(ty: u32) -> int {
    if ty == GGML_F32 {
        4
    } else if ty == GGML_F16 {
        2
    } else if ty == GGML_Q8_0 {
        34
    } else if ty == GGML_Q8_1 {
        36
    } else if ty == GGML_Q4_0 {
        18
    } else if ty == GGML_Q4_1 {
        20
    } else if ty == GGML_Q4_K {
        144
    } else if ty == GGML_Q5_K {
        176
    } else {
        210
    }
}

/// `n` elements of a type make whole blocks.
pub open spec fn is_whole(ty: u32, n: int) -> bool {
    is_known(ty) && n % block_elements(ty) == 0
}

/// Bytes of `n` elements.
pub open spec fn bytes_of(ty: u32, n: int) -> int {
    n / block_elements(ty) * block_bytes(ty)
}

pub(crate) fn format_error(text: &str) -> (e: InferError)
    ensures
        e is Format,
        e->Format_0@ == text@,
{
    InferError::Format(text.to_owned())
}

/// Bytes of `n` elements of a type. Fails on a type that cannot be read, on
/// elements that do not fill their blocks, and on a size that cannot be counted.
pub fn type_nbytes(ggml_type: u32, n: usize) -> (r: Result<usize>)
    ensures
        match r {
            Ok(len) => is_whole(ggml_type, n as int) && len == bytes_of(ggml_type, n as int),
            Err(e) => e is Format && (!is_whole(ggml_type, n as int) || bytes_of(
                ggml_type,
                n as int,
            ) > usize::MAX),
        },
{
    let (elements, bytes): (usize, usize) = if ggml_type == GGML_F32 {
        (1, 4)
    } else if ggml_type == GGML_F16 {
        (1, 2)
    } else if ggml_type == GGML_Q8_0 {
        (32, 34)
    } else if ggml_type == GGML_Q8_1 {
        (32, 36)
    } else if ggml_type == GGML_Q4_0 {
        (32, 18)
    } else if ggml_type == GGML_Q4_1 {
        (32, 20)
    } else if ggml_type == GGML_Q4_K {
        (256, Q4_K_BLOCK)
    } else if ggml_type == GGML_Q5_K {
        (256, Q5_K_BLOCK)
    } else if ggml_type == GGML_Q6_K {
        (256, Q6_K_BLOCK)
    } else {
        return Err(
            InferError::Format(
                with_number("GGUF tensor type ", ggml_type as usize, " is unsupported for sizing"),
            ),
        );
    };
    if n % elements != 0 {
        return Err(
            InferError::Format(
                with_number(
                    "quantized tensor element count ",
                    n,
                    with_number(" is not a multiple of ", elements, "").as_str(),
                ),
            ),
        );
    }
    match (n / elements).checked_mul(bytes) {
        Some(len) => Ok(len),
        None => Err(format_error("tensor byte size overflows")),
    }
}

// ---------------------------------------------------------------------------
// What the blocks hold
// ---------------------------------------------------------------------------

/// The half-precision number at `p`.
pub open spec fn half_at(raw: Seq<u8>, p: int) -> F32 {
    half_to_f32(le16(raw, p) as u16)
}

/// The lower or the upper half of a byte.
pub open spec fn nibble(b: u8, upper: bool) -> int {
    if upper {
        b as int / 16
    } else {
        b as int % 16
    }
}

/// The six-bit scale of sub-block `j`, of the twelve bytes from `p` on.
pub open spec fn scale_k4(q: Seq<u8>, p: int, j: int) -> int {
    if j < 4 {
        q[p + j] as int % 64
    } else {
        q[p + j + 4] as int % 16 + q[p + j - 4] as int / 64 * 16
    }
}

/// The six-bit minimum of sub-block `j`, of the twelve bytes from `p` on.
pub open spec fn min_k4(q: Seq<u8>, p: int, j: int) -> int {
    if j < 4 {
        q[p + j + 4] as int % 64
    } else {
        q[p + j + 4] as int / 16 + q[p + j] as int / 64 * 16
    }
}

/// The weight of bit `s` of a byte.
pub open spec fn bit_weight(s: int) -> int {
    if s == 0 {
        1
    } else if s == 1 {
        2
    } else if s == 2 {
        4
    } else if s == 3 {
        8
    } else if s == 4 {
        16
    } else if s == 5 {
        32
    } else if s == 6 {
        64
    } else {
        128
    }
}

/// Q8_0: a scale, then 32 signed bytes.
pub open spec fn q8_0_at(raw: Seq<u8>, i: int) -> F32 {
    let p = i / 32 * 34;
    half_at(raw, p).mul_spec(of_int(signed(raw[p + 2 + i % 32] as int, 0x100)))
}

/// Q8_1: a scale, a sum that is not used here, then 32 signed bytes.
pub open spec fn q8_1_at(raw: Seq<u8>, i: int) -> F32 {
    let p = i / 32 * 36;
    half_at(raw, p).mul_spec(of_int(signed(raw[p + 4 + i % 32] as int, 0x100)))
}

/// Q4_0: a scale, then 16 bytes of two levels each, the second half of the block
/// in the upper halves, centred at 8.
pub open spec fn q4_0_at(raw: Seq<u8>, i: int) -> F32 {
    let p = i / 32 * 18;
    half_at(raw, p).mul_spec(of_int(nibble(raw[p + 2 + i % 16], i % 32 >= 16) - 8))
}

/// Q4_1: a scale, a minimum, then 16 bytes as in Q4_0.
pub open spec fn q4_1_at(raw: Seq<u8>, i: int) -> F32 {
    let p = i / 32 * 20;
    half_at(raw, p).mul_spec(of_int(nibble(raw[p + 4 + i % 16], i % 32 >= 16))).add_spec(
        half_at(raw, p + 2),
    )
}

/// The scale of the sub-block of element `i`, with the block at `p`.
pub open spec fn sub_scale(raw: Seq<u8>, p: int, i: int) -> F32 {
    half_at(raw, p).mul_spec(of_int(scale_k4(raw, p + 4, i % 256 / 32)))
}

/// The minimum of the sub-block of element `i`, with the block at `p`.
pub open spec fn sub_min(raw: Seq<u8>, p: int, i: int) -> F32 {
    half_at(raw, p + 2).mul_spec(of_int(min_k4(raw, p + 4, i % 256 / 32)))
}

/// The low half of element `i`, of 128 bytes at `p`: sub-blocks share their bytes
/// in pairs.
pub open spec fn k_nibble(raw: Seq<u8>, p: int, i: int) -> int {
    nibble(raw[p + i % 256 / 64 * 32 + i % 32], i % 64 >= 32)
}

/// Q4_K: two scales, packed sub-block scales and minima, then the levels.
pub open spec fn q4_k_at(raw: Seq<u8>, i: int) -> F32 {
    let p = i / 256 * 144;
    sub_scale(raw, p, i).mul_spec(of_int(k_nibble(raw, p + 16, i))).sub_spec(sub_min(raw, p, i))
}

/// The fifth bit of element `i`, of 32 bytes at `p`: a bit for each sub-block.
pub open spec fn fifth_bit(raw: Seq<u8>, p: int, i: int) -> int {
    raw[p + i % 32] as int / bit_weight(i % 256 / 32) % 2
}

/// Q5_K: as Q4_K, with a fifth bit of each level.
pub open spec fn q5_k_at(raw: Seq<u8>, i: int) -> F32 {
    let p = i / 256 * 176;
    sub_scale(raw, p, i).mul_spec(
        of_int(k_nibble(raw, p + 48, i) + 16 * fifth_bit(raw, p + 16, i)),
    ).sub_spec(sub_min(raw, p, i))
}

/// The level of element `i` of a Q6_K block at `p`: four low bits, two high ones,
/// centred at 32.
pub open spec fn q6_level(raw: Seq<u8>, p: int, i: int) -> int {
    nibble(raw[p + i % 256 / 128 * 64 + i % 64], i % 128 >= 64) + 16 * (raw[p + 128 + i % 256 / 128
        * 32 + i % 32] as int / bit_weight(2 * (i % 128 / 32)) % 4) - 32
}

/// The scale of element `i` of a Q6_K block at `p`: one for sixteen elements.
pub open spec fn q6_scale(raw: Seq<u8>, p: int, i: int) -> F32 {
    half_at(raw, p + 208).mul_spec(of_int(signed(raw[p + 192 + i % 256 / 16] as int, 0x100)))
}

/// Q6_K: levels in two parts, signed scales, then the scale of all.
pub open spec fn q6_k_at(raw: Seq<u8>, i: int) -> F32 {
    let p = i / 256 * 210;
    q6_scale(raw, p, i).mul_spec(of_int(q6_level(raw, p, i)))
}

/// Element `i` of a tensor of a type.
pub open spec fn element_at(ty: u32, raw: Seq<u8>, i: int) -> F32 {
    if ty == GGML_F32 {
        F32 { bits: le32(raw, 4 * i) as u32 }
    } else if ty == GGML_F16 {
        half_at(raw, 2 * i)
    } else if ty == GGML_Q8_0 {
        q8_0_at(raw, i)
    } else if ty == GGML_Q8_1 {
        q8_1_at(raw, i)
    } else if ty == GGML_Q4_0 {
        q4_0_at(raw, i)
    } else if ty == GGML_Q4_1 {
        q4_1_at(raw, i)
    } else if ty == GGML_Q4_K {
        q4_k_at(raw, i)
    } else if ty == GGML_Q5_K {
        q5_k_at(raw, i)
    } else {
        q6_k_at(raw, i)
    }
}

/// All elements of a tensor of a type.
pub open spec fn elements_of(ty: u32, raw: Seq<u8>, n: int) -> Seq<F32> {
    Seq::new(n as nat, |i: int| element_at(ty, raw, i))
}

// ---------------------------------------------------------------------------
// Reading the blocks
// ---------------------------------------------------------------------------

fn half_exec(raw: &[u8], p: usize) -> (r: F32)
    requires
        p + 2 <= raw@.len(),
    ensures
        r == half_at(raw@, p as int),
{
    f16_to_f32(get_u16(raw, p))
}

fn nibble_exec(b: u8, upper: bool) -> (v: u8)
    ensures
        v == nibble(b, upper),
        v < 16,
{
    if upper {
        b / 16
    } else {
        b % 16
    }
}

fn weight_exec(s: usize) -> (w: u8)
    requires
        s < 8,
    ensures
        w == bit_weight(s as int),
{
    if s == 0 {
        1
    } else if s == 1 {
        2
    } else if s == 2 {
        4
    } else if s == 3 {
        8
    } else if s == 4 {
        16
    } else if s == 5 {
        32
    } else if s == 6 {
        64
    } else {
        128
    }
}

/// The six-bit scale and minimum of sub-block `j`, of the twelve bytes of `q`
/// from `p` on.
fn scale_min_at(j: usize, q: &[u8], p: usize) -> (r: (u8, u8))
    requires
        j < 8,
        p + 12 <= q@.len(),
    ensures
        r.0 == scale_k4(q@, p as int, j as int),
        r.1 == min_k4(q@, p as int, j as int),
        r.0 < 64,
        r.1 < 64,
{
    let end: usize = q.len();
    assert(p + 12 <= end);
    if j < 4 {
        (q[p + j] % 64, q[p + j + 4] % 64)
    } else {
        (q[p + j + 4] % 16 + q[p + j - 4] / 64 * 16, q[p + j + 4] / 16 + q[p + j] / 64 * 16)
    }
}

/// The six-bit scale and minimum of sub-block `j`, of twelve packed bytes.
pub fn get_scale_min_k4(j: usize, q: &[u8]) -> (r: (u8, u8))
    requires
        j < 8,
        q@.len() >= 12,
    ensures
        r.0 == scale_k4(q@, 0, j as int),
        r.1 == min_k4(q@, 0, j as int),
{
    scale_min_at(j, q, 0)
}

fn dequant_f32(raw: &[u8], n: usize) -> (out: Vec<F32>)
    requires
        raw@.len() == 4 * n,
    ensures
        out@ =~= elements_of(GGML_F32, raw@, n as int),
{
    let mut out: Vec<F32> = Vec::new();
    let mut i: usize = 0;
    let end: usize = raw.len();
    while i < n
        invariant
            i <= n,
            end == 4 * n,
            end == raw@.len(),
            out@.len() == i,
            forall|k: int| 0 <= k < i ==> out@[k] == #[trigger] element_at(GGML_F32, raw@, k),
        decreases n - i,
    {
        out.push(F32 { bits: get_u32(raw, 4 * i) });
        i = i + 1;
    }
    out
}

fn dequant_f16(raw: &[u8], n: usize) -> (out: Vec<F32>)
    requires
        raw@.len() == 2 * n,
    ensures
        out@ =~= elements_of(GGML_F16, raw@, n as int),
{
    let mut out: Vec<F32> = Vec::new();
    let mut i: usize = 0;
    let end: usize = raw.len();
    while i < n
        invariant
            i <= n,
            end == 2 * n,
            end == raw@.len(),
            out@.len() == i,
            forall|k: int| 0 <= k < i ==> out@[k] == #[trigger] element_at(GGML_F16, raw@, k),
        decreases n - i,
    {
        out.push(half_exec(raw, 2 * i));
        i = i + 1;
    }
    out
}

#[verifier::rlimit(60)]
#[verifier::spinoff_prover]
fn dequant_q8_0(raw: &[u8], n: usize) -> (out: Vec<F32>)
    requires
        n % 32 == 0,
        raw@.len() == n / 32 * 34,
    ensures
        out@ =~= elements_of(GGML_Q8_0, raw@, n as int),
{
    let mut out: Vec<F32> = Vec::new();
    let mut d: F32 = F32 { bits: 0 };
    let mut i: usize = 0;
    let end: usize = raw.len();
    while i < n
        invariant
            i <= n,
            n % 32 == 0,
            end == n / 32 * 34,
            end == raw@.len(),
            i % 32 != 0 ==> d == half_at(raw@, i / 32 * 34),
            out@.len() == i,
            forall|k: int| 0 <= k < i ==> out@[k] == #[trigger] element_at(GGML_Q8_0, raw@, k),
        decreases n - i,
    {
        assert(i / 32 * 34 + 34 <= end);
        let p: usize = i / 32 * 34;
        if i % 32 == 0 {
            d = half_exec(raw, p);
        }
        let q: i8 = signed8(raw[p + 2 + i % 32]);
        out.push(d.mul(F32::from_i64(q as i64)));
        assert((i + 1) % 32 != 0 ==> (i + 1) / 32 == i / 32);
        i = i + 1;
    }
    out
}

#[verifier::rlimit(60)]
#[verifier::spinoff_prover]
fn dequant_q8_1(raw: &[u8], n: usize) -> (out: Vec<F32>)
    requires
        n % 32 == 0,
        raw@.len() == n / 32 * 36,
    ensures
        out@ =~= elements_of(GGML_Q8_1, raw@, n as int),
{
    let mut out: Vec<F32> = Vec::new();
    let mut d: F32 = F32 { bits: 0 };
    let mut i: usize = 0;
    let end: usize = raw.len();
    while i < n
        invariant
            i <= n,
            n % 32 == 0,
            end == n / 32 * 36,
            end == raw@.len(),
            i % 32 != 0 ==> d == half_at(raw@, i / 32 * 36),
            out@.len() == i,
            forall|k: int| 0 <= k < i ==> out@[k] == #[trigger] element_at(GGML_Q8_1, raw@, k),
        decreases n - i,
    {
        assert(i / 32 * 36 + 36 <= end);
        let p: usize = i / 32 * 36;
        if i % 32 == 0 {
            d = half_exec(raw, p);
        }
        let q: i8 = signed8(raw[p + 4 + i % 32]);
        out.push(d.mul(F32::from_i64(q as i64)));
        assert((i + 1) % 32 != 0 ==> (i + 1) / 32 == i / 32);
        i = i + 1;
    }
    out
}

#[verifier::rlimit(60)]
#[verifier::spinoff_prover]
fn dequant_q4_0(raw: &[u8], n: usize) -> (out: Vec<F32>)
    requires
        n % 32 == 0,
        raw@.len() == n / 32 * 18,
    ensures
        out@ =~= elements_of(GGML_Q4_0, raw@, n as int),
{
    let mut out: Vec<F32> = Vec::new();
    let mut d: F32 = F32 { bits: 0 };
    let mut i: usize = 0;
    let end: usize = raw.len();
    while i < n
        invariant
            i <= n,
            n % 32 == 0,
            end == n / 32 * 18,
            end == raw@.len(),
            i % 32 != 0 ==> d == half_at(raw@, i / 32 * 18),
            out@.len() == i,
            forall|k: int| 0 <= k < i ==> out@[k] == #[trigger] element_at(GGML_Q4_0, raw@, k),
        decreases n - i,
    {
        assert(i / 32 * 18 + 18 <= end);
        let p: usize = i / 32 * 18;
        if i % 32 == 0 {
            d = half_exec(raw, p);
        }
        let v: u8 = nibble_exec(raw[p + 2 + i % 16], i % 32 >= 16);
        out.push(d.mul(F32::from_i64(v as i64 - 8)));
        assert((i + 1) % 32 != 0 ==> (i + 1) / 32 == i / 32);
        i = i + 1;
    }
    out
}

#[verifier::rlimit(60)]
#[verifier::spinoff_prover]
fn dequant_q4_1(raw: &[u8], n: usize) -> (out: Vec<F32>)
    requires
        n % 32 == 0,
        raw@.len() == n / 32 * 20,
    ensures
        out@ =~= elements_of(GGML_Q4_1, raw@, n as int),
{
    let mut out: Vec<F32> = Vec::new();
    let mut d: F32 = F32 { bits: 0 };
    let mut m: F32 = F32 { bits: 0 };
    let mut i: usize = 0;
    let end: usize = raw.len();
    while i < n
        invariant
            i <= n,
            n % 32 == 0,
            end == n / 32 * 20,
            end == raw@.len(),
            i % 32 != 0 ==> d == half_at(raw@, i / 32 * 20),
            i % 32 != 0 ==> m == half_at(raw@, i / 32 * 20 + 2),
            out@.len() == i,
            forall|k: int| 0 <= k < i ==> out@[k] == #[trigger] element_at(GGML_Q4_1, raw@, k),
        decreases n - i,
    {
        assert(i / 32 * 20 + 20 <= end);
        let p: usize = i / 32 * 20;
        if i % 32 == 0 {
            d = half_exec(raw, p);
            m = half_exec(raw, p + 2);
        }
        let v: u8 = nibble_exec(raw[p + 4 + i % 16], i % 32 >= 16);
        out.push(d.mul(F32::from_i64(v as i64)).add(m));
        assert((i + 1) % 32 != 0 ==> (i + 1) / 32 == i / 32);
        i = i + 1;
    }
    out
}

/// The scale and the minimum of the sub-block of element `i`.
fn sub_block(raw: &[u8], p: usize, i: usize) -> (r: (F32, F32))
    requires
        p + 16 <= raw@.len(),
    ensures
        r.0 == sub_scale(raw@, p as int, i as int),
        r.1 == sub_min(raw@, p as int, i as int),
{
    let end: usize = raw.len();
    assert(p + 16 <= end);
    let (sc, m) = scale_min_at(i % 256 / 32, raw, p + 4);
    let d: F32 = half_exec(raw, p);
    let dmin: F32 = half_exec(raw, p + 2);
    (d.mul(F32::from_i64(sc as i64)), dmin.mul(F32::from_i64(m as i64)))
}

#[verifier::rlimit(60)]
#[verifier::spinoff_prover]
fn dequant_q4_k(raw: &[u8], n: usize) -> (out: Vec<F32>)
    requires
        n % 256 == 0,
        raw@.len() == n / 256 * 144,
    ensures
        out@ =~= elements_of(GGML_Q4_K, raw@, n as int),
{
    let mut out: Vec<F32> = Vec::new();
    let mut d: F32 = F32 { bits: 0 };
    let mut m: F32 = F32 { bits: 0 };
    let mut i: usize = 0;
    let end: usize = raw.len();
    while i < n
        invariant
            i <= n,
            n % 256 == 0,
            end == n / 256 * 144,
            end == raw@.len(),
            i % 32 != 0 ==> d == sub_scale(raw@, i / 256 * 144, i as int),
            i % 32 != 0 ==> m == sub_min(raw@, i / 256 * 144, i as int),
            out@.len() == i,
            forall|k: int| 0 <= k < i ==> out@[k] == #[trigger] element_at(GGML_Q4_K, raw@, k),
        decreases n - i,
    {
        assert(i / 256 * 144 + 144 <= end);
        let p: usize = i / 256 * 144;
        if i % 32 == 0 {
            let (a, b) = sub_block(raw, p, i);
            d = a;
            m = b;
        }
        let v: u8 = nibble_exec(raw[p + 16 + i % 256 / 64 * 32 + i % 32], i % 64 >= 32);
        out.push(d.mul(F32::from_i64(v as i64)).sub(m));
        assert((i + 1) % 32 != 0 ==> (i + 1) as int / 256 == i as int / 256 && (i + 1) as int % 256
            / 32 == i as int % 256 / 32);
        assert((i + 1) % 32 != 0 ==> (i + 1) / 32 == i / 32);
        i = i + 1;
    }
    out
}

#[verifier::rlimit(60)]
#[verifier::spinoff_prover]
fn dequant_q5_k(raw: &[u8], n: usize) -> (out: Vec<F32>)
    requires
        n % 256 == 0,
        raw@.len() == n / 256 * 176,
    ensures
        out@ =~= elements_of(GGML_Q5_K, raw@, n as int),
{
    let mut out: Vec<F32> = Vec::new();
    let mut d: F32 = F32 { bits: 0 };
    let mut m: F32 = F32 { bits: 0 };
    let mut i: usize = 0;
    let end: usize = raw.len();
    while i < n
        invariant
            i <= n,
            n % 256 == 0,
            end == n / 256 * 176,
            end == raw@.len(),
            i % 32 != 0 ==> d == sub_scale(raw@, i / 256 * 176, i as int),
            i % 32 != 0 ==> m == sub_min(raw@, i / 256 * 176, i as int),
            out@.len() == i,
            forall|k: int| 0 <= k < i ==> out@[k] == #[trigger] element_at(GGML_Q5_K, raw@, k),
        decreases n - i,
    {
        assert(i / 256 * 176 + 176 <= end);
        let p: usize = i / 256 * 176;
        if i % 32 == 0 {
            let (a, b) = sub_block(raw, p, i);
            d = a;
            m = b;
        }
        let v: u8 = nibble_exec(raw[p + 48 + i % 256 / 64 * 32 + i % 32], i % 64 >= 32);
        let h: u8 = raw[p + 16 + i % 32] / weight_exec(i % 256 / 32) % 2;
        out.push(d.mul(F32::from_i64(v as i64 + 16 * (h as i64))).sub(m));
        assert((i + 1) % 32 != 0 ==> (i + 1) as int / 256 == i as int / 256 && (i + 1) as int % 256
            / 32 == i as int % 256 / 32);
        assert((i + 1) % 32 != 0 ==> (i + 1) / 32 == i / 32);
        i = i + 1;
    }
    out
}

#[verifier::rlimit(60)]
#[verifier::spinoff_prover]
fn dequant_q6_k(raw: &[u8], n: usize) -> (out: Vec<F32>)
    requires
        n % 256 == 0,
        raw@.len() == n / 256 * 210,
    ensures
        out@ =~= elements_of(GGML_Q6_K, raw@, n as int),
{
    let mut out: Vec<F32> = Vec::new();
    let mut d: F32 = F32 { bits: 0 };
    let mut i: usize = 0;
    let end: usize = raw.len();
    while i < n
        invariant
            i <= n,
            n % 256 == 0,
            end == n / 256 * 210,
            end == raw@.len(),
            i % 16 != 0 ==> d == q6_scale(raw@, i / 256 * 210, i as int),
            out@.len() == i,
            forall|k: int| 0 <= k < i ==> out@[k] == #[trigger] element_at(GGML_Q6_K, raw@, k),
        decreases n - i,
    {
        assert(i / 256 * 210 + 210 <= end);
        let p: usize = i / 256 * 210;
        if i % 16 == 0 {
            let s: i8 = signed8(raw[p + 192 + i % 256 / 16]);
            d = half_exec(raw, p + 208).mul(F32::from_i64(s as i64));
        }
        let v: u8 = nibble_exec(raw[p + i % 256 / 128 * 64 + i % 64], i % 128 >= 64);
        let h: u8 = raw[p + 128 + i % 256 / 128 * 32 + i % 32] / weight_exec(2 * (i % 128 / 32))
            % 4;
        out.push(d.mul(F32::from_i64(v as i64 + 16 * (h as i64) - 32)));
        assert((i + 1) % 16 != 0 ==> (i + 1) as int / 256 == i as int / 256 && (i + 1) as int % 256
            / 16 == i as int % 256 / 16);
        assert((i + 1) % 16 != 0 ==> (i + 1) / 16 == i / 16);
        i = i + 1;
    }
    out
}

/// The numbers that the bytes of `n` elements of a type hold.
pub fn dequantize_bytes(ggml_type: u32, raw: &[u8], n: usize) -> (out: Vec<F32>)
    requires
        is_whole(ggml_type, n as int),
        raw@.len() == bytes_of(ggml_type, n as int),
    ensures
        out@ == elements_of(ggml_type, raw@, n as int),
{
    if ggml_type == GGML_F32 {
        dequant_f32(raw, n)
    } else if ggml_type == GGML_F16 {
        dequant_f16(raw, n)
    } else if ggml_type == GGML_Q8_0 {
        dequant_q8_0(raw, n)
    } else if ggml_type == GGML_Q8_1 {
        dequant_q8_1(raw, n)
    } else if ggml_type == GGML_Q4_0 {
        dequant_q4_0(raw, n)
    } else if ggml_type == GGML_Q4_1 {
        dequant_q4_1(raw, n)
    } else if ggml_type == GGML_Q4_K {
        dequant_q4_k(raw, n)
    } else if ggml_type == GGML_Q5_K {
        dequant_q5_k(raw, n)
    } else {
        dequant_q6_k(raw, n)
    }
}

} // verus!
