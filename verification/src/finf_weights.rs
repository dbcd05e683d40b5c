//! Weight vectors of a FINF file: full precision, one byte or one nibble each.
use crate::bytes::{
    get_u32, le32, lemma_le32, lemma_stands_split, push_bytes, push_u32, put32, signed8, stands_at,
};
use crate::error::{InferError, Result};
use crate::float::{of_int, F32};
use crate::index::{cell, lemma_cell, lemma_split};
use crate::ops::row_of;
use crate::quant::{
    byte_of, half_up, int8_scale, int8_scale_of, int8_scales_per_channel, inverse_scale,
    is_all_finite, packed_byte, quantizable, row_scale, signed_byte, signed_nibble, QKind, QWeight,
    INT8_MAX_BITS, QUANT_MIN_LEN,
};
use crate::text::with_number;
use vstd::prelude::*;
use vstd::slice::slice_subrange;

verus! {

/// Full precision.
pub const ENC_F32: u8 = 0;

/// One scale, then a signed byte for each value.
pub const ENC_INT8: u8 = 1;

/// The number of rows, a scale for each, then a signed byte for each value.
pub const ENC_INT8_PER_CHANNEL: u8 = 2;

/// One scale, then packed nibbles.
pub const ENC_INT4: u8 = 3;

/// The number of rows, a scale for each, then packed nibbles.
pub const ENC_INT4_PER_CHANNEL: u8 = 4;

/// The precision that weights are written in.
#[derive(Clone, Copy, Debug, PartialEq, Eq, Structural)]
pub enum QPrec {
    F32,
    Int8,
    Int4,
}

/// A matrix as read: in full precision, or packed with a scale for each row.
#[verifier::ext_equal]
pub enum WeightView {
    Plain(Seq<F32>),
    Packed(QKind, Seq<F32>, Seq<u8>),
}

/// A matrix as read.
pub enum LoadedWeights {
    F32(Vec<F32>),
    Quant(QWeight),
}

// ---------------------------------------------------------------------------
// Reading
// ---------------------------------------------------------------------------

/// `n` numbers of four bytes each at `p`.
pub open spec fn floats_at(b: Seq<u8>, p: int, n: int) -> Seq<F32> {
    Seq::new(n as nat, |i: int| F32 { bits: le32(b, p + 4 * i) as u32 })
}

/// `n` numbers of four bytes each at `p`, if they are there.
pub open spec fn rd_floats(b: Seq<u8>, p: int, n: int) -> Option<(Seq<F32>, int)> {
    if p + 4 * n > b.len() {
        None
    } else {
        Some((floats_at(b, p, n), p + 4 * n))
    }
}

/// The numbers of signed bytes: byte `i` belongs to scale `i / row`.
pub open spec fn unpacked(q: Seq<u8>, scales: Seq<F32>, row: int) -> Seq<F32> {
    Seq::new(q.len(), |i: int| of_int(signed_byte(q[i] as int)).mul_spec(scales[i / row]))
}

/// The numbers of packed nibbles: `m` rows of `cols`.
pub open spec fn unpacked_nibbles(q: Seq<u8>, scales: Seq<F32>, m: int, cols: int) -> Seq<F32> {
    Seq::new(
        (m * cols) as nat,
        |i: int| of_int(nibble_level(q, cols, i / cols, i % cols)).mul_spec(scales[i / cols]),
    )
}

/// The level in row `r`, column `c` of packed nibbles.
pub open spec fn nibble_level(q: Seq<u8>, cols: int, r: int, c: int) -> int {
    let half = half_up(cols);
    if c < half {
        signed_nibble(q[cell(r, c, half)] as int % 16)
    } else {
        signed_nibble(q[cell(r, c - half, half)] as int / 16)
    }
}

/// Scales of `ch` rows and a byte for each of `n` values at `p`, if they are
/// there.
pub open spec fn rd_rows(b: Seq<u8>, p: int, ch: int, n: int) -> Option<(
    Seq<F32>,
    Seq<u8>,
    int,
)> {
    if p + 4 * ch + n > b.len() {
        None
    } else {
        Some((floats_at(b, p, ch), b.subrange(p + 4 * ch, p + 4 * ch + n), p + 4 * ch + n))
    }
}

/// A vector of `n` weights at `p`.
#[verifier::opaque]
pub open spec fn rd_vector(b: Seq<u8>, p: int, n: int, v5: bool) -> Option<(Seq<F32>, int)> {
    if !v5 {
        rd_floats(b, p, n)
    } else if p >= b.len() {
        None
    } else if b[p] == ENC_F32 {
        rd_floats(b, p + 1, n)
    } else if b[p] == ENC_INT8 {
        match rd_rows(b, p + 1, 1, n) {
            Some((s, q, e)) => Some((unpacked(q, s, n), e)),
            None => None,
        }
    } else if b[p] == ENC_INT8_PER_CHANNEL {
        if p + 5 > b.len() {
            None
        } else {
            let ch = le32(b, p + 1);
            if ch == 0 || n % ch != 0 {
                None
            } else {
                match rd_rows(b, p + 5, ch, n) {
                    Some((s, q, e)) => Some((unpacked(q, s, n / ch), e)),
                    None => None,
                }
            }
        }
    } else {
        None
    }
}

/// The scale of all rows.
pub open spec fn same_scales(s: F32, rows: int) -> Seq<F32> {
    Seq::new(rows as nat, |i: int| s)
}

/// A packed matrix with one scale for all rows at `p`.
pub open spec fn rd_packed_one(b: Seq<u8>, p: int, rows: int, n: int, kind: QKind) -> Option<(
    WeightView,
    int,
)> {
    match rd_rows(b, p, 1, n) {
        Some((s, q, e)) => Some((WeightView::Packed(kind, same_scales(s[0], rows), q), e)),
        None => None,
    }
}

/// A matrix of signed bytes with its own number of scales at `p`.
pub open spec fn rd_int8_rows(b: Seq<u8>, p: int, rows: int, n: int) -> Option<(WeightView, int)> {
    if p + 4 > b.len() {
        None
    } else {
        let ch = le32(b, p);
        if ch == 0 || n % ch != 0 {
            None
        } else {
            match rd_rows(b, p + 4, ch, n) {
                Some((s, q, e)) => if ch == rows {
                    Some((WeightView::Packed(QKind::Int8, s, q), e))
                } else {
                    Some((WeightView::Plain(unpacked(q, s, n / ch)), e))
                },
                None => None,
            }
        }
    }
}

/// A matrix of nibbles with its own number of scales at `p`. Where that is not
/// the number of rows, the nibbles are taken for so many longer or shorter ones.
pub open spec fn rd_int4_rows(b: Seq<u8>, p: int, rows: int, cols: int) -> Option<(
    WeightView,
    int,
)> {
    if p + 4 > b.len() {
        None
    } else {
        let ch = le32(b, p);
        let m = if ch == 0 && rows != 0 {
            1
        } else {
            ch
        };
        match rd_rows(b, p + 4, m, rows * half_up(cols)) {
            Some((s, q, e)) => if ch == rows {
                Some((WeightView::Packed(QKind::Int4, s, q), e))
            } else if m * half_up(rows * cols / m) > q.len() {
                None
            } else {
                Some((WeightView::Plain(unpacked_nibbles(q, s, m, rows * cols / m)), e))
            },
            None => None,
        }
    }
}

/// A matrix of weights at `p`.
#[verifier::opaque]
pub open spec fn rd_matrix(b: Seq<u8>, p: int, rows: int, cols: int, v5: bool) -> Option<(
    WeightView,
    int,
)> {
    let n = rows * cols;
    if n > usize::MAX {
        None
    } else if !v5 || p < b.len() && b[p] == ENC_F32 {
        match rd_floats(
            b,
            if v5 {
                p + 1
            } else {
                p
            },
            n,
        ) {
            Some((s, e)) => Some((WeightView::Plain(s), e)),
            None => None,
        }
    } else if p >= b.len() {
        None
    } else if b[p] == ENC_INT8 {
        rd_packed_one(b, p + 1, rows, n, QKind::Int8)
    } else if b[p] == ENC_INT8_PER_CHANNEL {
        rd_int8_rows(b, p + 1, rows, n)
    } else if b[p] == ENC_INT4 {
        rd_packed_one(b, p + 1, rows, rows * half_up(cols), QKind::Int4)
    } else if b[p] == ENC_INT4_PER_CHANNEL {
        rd_int4_rows(b, p + 1, rows, cols)
    } else {
        None
    }
}

impl LoadedWeights {
    /// The matrix is as a view says.
    pub open spec fn shows(self, v: WeightView, rows: int, cols: int) -> bool {
        match (self, v) {
            (LoadedWeights::F32(w), WeightView::Plain(s)) => w@ == s,
            (LoadedWeights::Quant(w), WeightView::Packed(kind, s, q)) => w.wf() && w.rows == rows
                && w.cols == cols && w.kind == kind && w.scales@ == s && w.q@ == q,
            _ => false,
        }
    }
}

/// The bytes end too early.
pub(crate) fn cut_off(p: usize, n: usize) -> (e: InferError)
    ensures
        e is Format,
{
    InferError::Format(with_number(with_number("EOF at +", p, ": need ").as_str(), n, ""))
}

/// Bytes `p` to `p + n`.
pub(crate) fn copy_part(b: &[u8], p: usize, n: usize) -> (r: Vec<u8>)
    requires
        p + n <= b@.len(),
    ensures
        r@ == b@.subrange(p as int, p + n),
{
    let total: usize = b.len();
    assert(p + n <= total);
    let mut r: Vec<u8> = Vec::new();
    let part: &[u8] = slice_subrange(b, p, p + n);
    push_bytes(&mut r, part);
    assert(r@ =~= b@.subrange(p as int, p + n));
    r
}

/// `n` numbers of four bytes each at `p`.
fn get_floats(b: &[u8], p: usize, n: usize) -> (r: Vec<F32>)
    requires
        p + 4 * n <= b@.len(),
    ensures
        r@ == floats_at(b@, p as int, n as int),
{
    let total: usize = b.len();
    let mut r: Vec<F32> = Vec::new();
    let mut i: usize = 0;
    while i < n
        invariant
            i <= n,
            total == b@.len(),
            p + 4 * n <= b@.len(),
            r@.len() == i,
            forall|k: int| 0 <= k < i ==> #[trigger] r@[k] == floats_at(b@, p as int, n as int)[k],
        decreases n - i,
    {
        r.push(F32::from_bits(get_u32(b, p + 4 * i)));
        i = i + 1;
    }
    assert(r@ =~= floats_at(b@, p as int, n as int));
    r
}

/// `n` numbers of four bytes each at `p`, if they are there.
pub(crate) fn read_floats(b: &[u8], p: usize, n: usize) -> (r: Result<(Vec<F32>, usize)>)
    requires
        p <= b@.len(),
    ensures
        match r {
            Ok(t) => rd_floats(b@, p as int, n as int) == Some((t.0@, t.1 as int)) && t.1
                <= b@.len(),
            Err(e) => rd_floats(b@, p as int, n as int) is None && e is Format,
        },
{
    let left: usize = b.len() - p;
    if n > left / 4 {
        return Err(cut_off(p, n));
    }
    Ok((get_floats(b, p, n), p + 4 * n))
}

/// Scales of `ch` rows and `n` bytes at `p`, if they are there.
fn read_rows(b: &[u8], p: usize, ch: usize, n: usize) -> (r: Result<(Vec<F32>, Vec<u8>, usize)>)
    requires
        p <= b@.len(),
    ensures
        match r {
            Ok(t) => rd_rows(b@, p as int, ch as int, n as int) == Some((t.0@, t.1@, t.2 as int))
                && t.2 <= b@.len(),
            Err(e) => rd_rows(b@, p as int, ch as int, n as int) is None && e is Format,
        },
{
    let left: usize = b.len() - p;
    if ch > left / 4 || n > left - 4 * ch {
        return Err(cut_off(p, n));
    }
    let s: Vec<F32> = get_floats(b, p, ch);
    let q: Vec<u8> = copy_part(b, p + 4 * ch, n);
    Ok((s, q, p + 4 * ch + n))
}

/// The numbers of signed bytes.
fn unpack(q: &Vec<u8>, scales: &Vec<F32>, row: usize) -> (r: Vec<F32>)
    requires
        q@.len() == scales@.len() * row,
    ensures
        r@ == unpacked(q@, scales@, row as int),
{
    let ghost goal = unpacked(q@, scales@, row as int);
    let mut r: Vec<F32> = Vec::new();
    let mut i: usize = 0;
    while i < q.len()
        invariant
            i <= q@.len(),
            q@.len() == scales@.len() * row,
            goal == unpacked(q@, scales@, row as int),
            r@.len() == i,
            forall|k: int| 0 <= k < i ==> #[trigger] r@[k] == goal[k],
        decreases q@.len() - i,
    {
        proof {
            assert(row > 0) by (nonlinear_arith)
                requires
                    i < scales@.len() * row,
                    0 <= i,
            ;
            lemma_split(i as int, scales@.len() as int, row as int);
        }
        let level: i8 = signed8(q[i]);
        r.push(F32::from_i64(level as i64).mul(scales[i / row]));
        i = i + 1;
    }
    assert(r@ =~= goal);
    r
}

/// A vector of `n` weights at `p`.
pub fn read_vector(b: &[u8], p: usize, n: usize, v5: bool) -> (r: Result<
    (Vec<F32>, usize),
>)
    requires
        p <= b@.len(),
    ensures
        match r {
            Ok(t) => rd_vector(b@, p as int, n as int, v5) == Some((t.0@, t.1 as int)) && t.1
                <= b@.len(),
            Err(e) => rd_vector(b@, p as int, n as int, v5) is None && e is Format,
        },
{
    proof {
        reveal(rd_vector);
    }
    if !v5 {
        return read_floats(b, p, n);
    }
    if p >= b.len() {
        return Err(cut_off(p, 1));
    }
    let total: usize = b.len();
    let enc: u8 = b[p];
    if enc == ENC_F32 {
        return read_floats(b, p + 1, n);
    }
    if enc == ENC_INT8 {
        return match read_rows(b, p + 1, 1, n) {
            Ok((s, q, e)) => {
                assert(q@.len() == 1 * n) by (nonlinear_arith)
                    requires
                        q@.len() == n,
                ;
                Ok((unpack(&q, &s, n), e))
            },
            Err(e) => Err(e),
        };
    }
    if enc == ENC_INT8_PER_CHANNEL {
        if total - p < 5 {
            return Err(cut_off(p, 5));
        }
        let ch: usize = get_u32(b, p + 1) as usize;
        if ch == 0 || n % ch != 0 {
            return Err(
                InferError::Format(
                    with_number(
                        with_number("per-channel weights: ", ch, " channels do not divide ").as_str(),
                        n,
                        " values",
                    ),
                ),
            );
        }
        return match read_rows(b, p + 5, ch, n) {
            Ok((s, q, e)) => {
                proof {
                    lemma_divides(n as int, ch as int);
                }
                Ok((unpack(&q, &s, n / ch), e))
            },
            Err(e) => Err(e),
        };
    }
    if enc == ENC_INT4 || enc == ENC_INT4_PER_CHANNEL {
        return Err(InferError::Format("int4 weights are only valid for matrices".to_owned()));
    }
    Err(InferError::Format(with_number("bad weight encoding marker ", enc as usize, "")))
}

proof fn lemma_divides(n: int, ch: int)
    requires
        ch > 0,
        n >= 0,
        n % ch == 0,
    ensures
        n == ch * (n / ch),
{
    assert(n == ch * (n / ch) + n % ch) by (nonlinear_arith)
        requires
            ch > 0,
    ;
}

/// The bytes of packed nibbles are no more than the values.
proof fn lemma_half_fits(rows: int, cols: int)
    requires
        rows >= 0,
        cols >= 0,
    ensures
        0 <= rows * half_up(cols) <= rows * cols,
{
    assert(0 <= rows * half_up(cols) <= rows * cols) by (nonlinear_arith)
        requires
            rows >= 0,
            0 <= half_up(cols) <= cols,
    ;
}

/// Half of the columns, rounded up.
fn half_up_exec(cols: usize) -> (h: usize)
    ensures
        h == half_up(cols as int),
{
    cols / 2 + cols % 2
}

/// So many equal scales.
fn repeated(s: F32, rows: usize) -> (v: Vec<F32>)
    ensures
        v@ == same_scales(s, rows as int),
{
    let mut v: Vec<F32> = Vec::new();
    let mut i: usize = 0;
    while i < rows
        invariant
            i <= rows,
            v@.len() == i,
            forall|k: int| 0 <= k < i ==> #[trigger] v@[k] == s,
        decreases rows - i,
    {
        v.push(s);
        i = i + 1;
    }
    assert(v@ =~= same_scales(s, rows as int));
    v
}

/// A packed matrix with one scale for all rows at `p`.
fn read_packed_one(b: &[u8], p: usize, rows: usize, cols: usize, kind: QKind) -> (r: Result<
    (LoadedWeights, usize),
>)
    requires
        p <= b@.len(),
        rows * cols <= usize::MAX,
    ensures
        ({
            let want = rd_packed_one(
                b@,
                p as int,
                rows as int,
                rows * kind.row_len(cols as int),
                kind,
            );
            match r {
                Ok(t) => want is Some && t.0.shows((want->0).0, rows as int, cols as int) && t.1
                    == (want->0).1 && t.1 <= b@.len(),
                Err(e) => want is None && e is Format,
            }
        }),
{
    proof {
        lemma_half_fits(rows as int, cols as int);
    }
    let n: usize = kind.packed_len(rows, cols);
    match read_rows(b, p, 1, n) {
        Ok((s, q, e)) => {
            let scales: Vec<F32> = repeated(s[0], rows);
            Ok((LoadedWeights::Quant(QWeight { rows, cols, kind, scales, q }), e))
        },
        Err(e) => Err(e),
    }
}

/// A matrix of signed bytes with its own number of scales at `p`.
fn read_int8_rows(b: &[u8], p: usize, rows: usize, cols: usize) -> (r: Result<
    (LoadedWeights, usize),
>)
    requires
        p <= b@.len(),
        rows * cols <= usize::MAX,
    ensures
        ({
            let want = rd_int8_rows(b@, p as int, rows as int, rows * cols);
            match r {
                Ok(t) => want is Some && t.0.shows((want->0).0, rows as int, cols as int) && t.1
                    == (want->0).1 && t.1 <= b@.len(),
                Err(e) => want is None && e is Format,
            }
        }),
{
    let n: usize = rows * cols;
    if b.len() - p < 4 {
        return Err(cut_off(p, 4));
    }
    let ch: usize = get_u32(b, p) as usize;
    if ch == 0 || n % ch != 0 {
        return Err(
            InferError::Format(
                with_number(
                    with_number("per-channel int8: ", ch, " channels do not divide ").as_str(),
                    n,
                    "",
                ),
            ),
        );
    }
    match read_rows(b, p + 4, ch, n) {
        Ok((s, q, e)) => {
            if ch == rows {
                Ok(
                    (
                        LoadedWeights::Quant(
                            QWeight { rows, cols, kind: QKind::Int8, scales: s, q },
                        ),
                        e,
                    ),
                )
            } else {
                proof {
                    lemma_divides(n as int, ch as int);
                }
                Ok((LoadedWeights::F32(unpack(&q, &s, n / ch)), e))
            }
        },
        Err(e) => Err(e),
    }
}

/// The numbers of packed nibbles: `m` rows of `cols`.
fn unpack_nibbles(q: Vec<u8>, scales: Vec<F32>, m: usize, cols: usize) -> (r: Vec<F32>)
    requires
        scales@.len() == m,
        m * cols <= usize::MAX,
        m * half_up(cols as int) <= q@.len(),
    ensures
        r@ == unpacked_nibbles(q@, scales@, m as int, cols as int),
{
    let half: usize = half_up_exec(cols);
    proof {
        lemma_half_fits(m as int, cols as int);
    }
    let used: Vec<u8> = copy_part(q.as_slice(), 0, m * half);
    let ghost q0 = q@;
    let ghost s0 = scales@;
    let w: QWeight = QWeight { rows: m, cols, kind: QKind::Int4, scales, q: used };
    let out: Vec<F32> = w.to_f32();
    proof {
        let goal = unpacked_nibbles(q0, s0, m as int, cols as int);
        assert forall|i: int| 0 <= i < goal.len() implies out@[i] == goal[i] by {
            let c = cols as int;
            assert(c > 0) by (nonlinear_arith)
                requires
                    0 <= i < m * c,
                    c >= 0,
            ;
            lemma_split(i, m as int, c);
            assert(out@[cell(i / c, i % c, c)] == w.value(i / c, i % c));
            let h = half as int;
            if i % c < h {
                lemma_cell(i / c, i % c, m as int, h);
            } else {
                lemma_cell(i / c, i % c - h, m as int, h);
            }
        }
        assert(out@ =~= goal);
    }
    out
}

/// A matrix of nibbles with its own number of scales at `p`.
fn read_int4_rows(b: &[u8], p: usize, rows: usize, cols: usize) -> (r: Result<
    (LoadedWeights, usize),
>)
    requires
        p <= b@.len(),
        rows * cols <= usize::MAX,
    ensures
        ({
            let want = rd_int4_rows(b@, p as int, rows as int, cols as int);
            match r {
                Ok(t) => want is Some && t.0.shows((want->0).0, rows as int, cols as int) && t.1
                    == (want->0).1 && t.1 <= b@.len(),
                Err(e) => want is None && e is Format,
            }
        }),
{
    let n: usize = rows * cols;
    if b.len() - p < 4 {
        return Err(cut_off(p, 4));
    }
    let ch: usize = get_u32(b, p) as usize;
    let m: usize = if ch == 0 && rows != 0 {
        1
    } else {
        ch
    };
    let half: usize = half_up_exec(cols);
    proof {
        lemma_half_fits(rows as int, cols as int);
    }
    let packed: usize = rows * half;
    match read_rows(b, p + 4, m, packed) {
        Ok((s, q, e)) => {
            if ch == rows {
                return Ok(
                    (
                        LoadedWeights::Quant(
                            QWeight { rows, cols, kind: QKind::Int4, scales: s, q },
                        ),
                        e,
                    ),
                );
            }
            assert(m > 0);
            let wide: usize = n / m;
            proof {
                assert(m * wide <= n) by (nonlinear_arith)
                    requires
                        m > 0,
                        wide == n as int / m as int,
                ;
                lemma_half_fits(m as int, wide as int);
            }
            if m * half_up_exec(wide) > q.len() {
                return Err(InferError::Format("int4 rows do not fit the matrix".to_owned()));
            }
            Ok((LoadedWeights::F32(unpack_nibbles(q, s, m, wide)), e))
        },
        Err(e) => Err(e),
    }
}

/// A matrix of weights at `p`. It stays packed if it is.
pub(crate) fn read_matrix(b: &[u8], p: usize, rows: usize, cols: usize, v5: bool) -> (r: Result<
    (LoadedWeights, usize),
>)
    requires
        p <= b@.len(),
    ensures
        r is Ok ==> rows * cols <= usize::MAX,
        ({
            let want = rd_matrix(b@, p as int, rows as int, cols as int, v5);
            match r {
                Ok(t) => want is Some && t.0.shows((want->0).0, rows as int, cols as int) && t.1
                    == (want->0).1 && t.1 <= b@.len(),
                Err(e) => want is None && e is Format,
            }
        }),
{
    proof {
        reveal(rd_matrix);
    }
    let n: usize = match mul_dims(rows, cols) {
        Ok(n) => n,
        Err(e) => return Err(e),
    };
    let total: usize = b.len();
    if !v5 || p < total && b[p] == ENC_F32 {
        let start: usize = if v5 {
            p + 1
        } else {
            p
        };
        return match read_floats(b, start, n) {
            Ok((s, e)) => Ok((LoadedWeights::F32(s), e)),
            Err(e) => Err(e),
        };
    }
    if p >= total {
        return Err(cut_off(p, 1));
    }
    let enc: u8 = b[p];
    if enc == ENC_INT8 {
        return read_packed_one(b, p + 1, rows, cols, QKind::Int8);
    }
    if enc == ENC_INT8_PER_CHANNEL {
        return read_int8_rows(b, p + 1, rows, cols);
    }
    if enc == ENC_INT4 {
        return read_packed_one(b, p + 1, rows, cols, QKind::Int4);
    }
    if enc == ENC_INT4_PER_CHANNEL {
        return read_int4_rows(b, p + 1, rows, cols);
    }
    Err(InferError::Format(with_number("bad weight encoding marker ", enc as usize, "")))
}

/// The product of two sizes, if it can be held.
pub(crate) fn mul_dims(a: usize, b: usize) -> (r: Result<usize>)
    ensures
        match r {
            Ok(n) => n == a * b,
            Err(e) => a * b > usize::MAX && e is Format,
        },
{
    match a.checked_mul(b) {
        Some(n) => Ok(n),
        None => Err(
            InferError::Format(
                with_number(
                    with_number("dimension product ", a, " by ").as_str(),
                    b,
                    " overflows",
                ),
            ),
        ),
    }
}

impl WeightView {
    /// The numbers of a matrix with so many columns.
    pub open spec fn numbers(self, rows: int, cols: int) -> Seq<F32> {
        match self {
            WeightView::Plain(s) => s,
            WeightView::Packed(QKind::Int8, s, q) => unpacked(q, s, cols),
            WeightView::Packed(QKind::Int4, s, q) => unpacked_nibbles(q, s, rows, cols),
        }
    }
}

impl LoadedWeights {
    /// The matrix in full precision.
    pub(crate) fn into_f32(self, rows: Ghost<int>, cols: Ghost<int>, v: Ghost<WeightView>) -> (r: Vec<F32>)
        requires
            self.shows(v@, rows@, cols@),
            rows@ * cols@ <= usize::MAX,
        ensures
            r@ == v@.numbers(rows@, cols@),
    {
        match self {
            LoadedWeights::F32(v) => v,
            LoadedWeights::Quant(w) => {
                let out: Vec<F32> = w.to_f32();
                proof {
                    lemma_values(w, out@);
                }
                out
            },
        }
    }
}

/// The values of a packed matrix, from its bytes and scales.
pub(crate) proof fn lemma_values(w: QWeight, out: Seq<F32>)
    requires
        w.wf(),
        out.len() == w.rows * w.cols,
        forall|r: int, c: int|
            0 <= r < w.rows && 0 <= c < w.cols ==> #[trigger] out[cell(r, c, w.cols as int)]
                == w.value(r, c),
    ensures
        out == WeightView::Packed(w.kind, w.scales@, w.q@).numbers(w.rows as int, w.cols as int),
{
    let goal = WeightView::Packed(w.kind, w.scales@, w.q@).numbers(w.rows as int, w.cols as int);
    let c = w.cols as int;
    assert forall|i: int| 0 <= i < out.len() implies out[i] == goal[i] by {
        assert(c > 0) by (nonlinear_arith)
            requires
                0 <= i < w.rows * c,
                c >= 0,
        ;
        lemma_split(i, w.rows as int, c);
        assert(out[cell(i / c, i % c, c)] == w.value(i / c, i % c));
    }
    assert(out =~= goal);
}

// ---------------------------------------------------------------------------
// Writing
// ---------------------------------------------------------------------------

/// Numbers of four bytes each.
pub open spec fn put_floats(s: Seq<F32>) -> Seq<u8>
    decreases s.len(),
{
    if s.len() == 0 {
        Seq::empty()
    } else {
        put_floats(s.drop_last()) + put32(s.last().bits as int)
    }
}

/// The four bytes of a size; what is above them is cut off.
pub open spec fn put_size(n: int) -> Seq<u8> {
    put32(n % 0x1_0000_0000)
}

/// The byte of a number on the int8 grid of a scale.
pub open spec fn int8_byte(v: F32, scale: F32) -> u8 {
    if scale.zero_spec() {
        0
    } else {
        byte_of(
            v.div_spec(scale).round_spec().clamp_spec(
                F32 { bits: INT8_MAX_BITS }.negated(),
                F32 { bits: INT8_MAX_BITS },
            ).int_spec(-128, 127),
        ) as u8
    }
}

/// The bytes of numbers: number `i` belongs to scale `i / row`.
pub open spec fn int8_bytes(data: Seq<F32>, scales: Seq<F32>, row: int) -> Seq<u8> {
    Seq::new(data.len(), |i: int| int8_byte(data[i], scales[i / row]))
}

/// The int8 scale of each of `ch` rows.
pub open spec fn int8_scales(data: Seq<F32>, ch: int) -> Seq<F32> {
    Seq::new(ch as nat, |r: int| int8_scale_of(row_of(data, r, data.len() as int / ch)))
}

/// The rows that nibbles are packed in.
pub open spec fn nibble_rows(len: int, ch: int) -> int {
    if ch > 0 && len % ch == 0 {
        ch
    } else {
        1
    }
}

/// The int4 scale of each of `rows` rows.
pub open spec fn int4_scales(data: Seq<F32>, rows: int) -> Seq<F32> {
    Seq::new(
        rows as nat,
        |r: int| row_scale(row_of(data, r, data.len() as int / rows), QKind::Int4),
    )
}

/// The packed nibbles of `rows` rows.
pub open spec fn int4_bytes(data: Seq<F32>, rows: int) -> Seq<u8> {
    let cols = data.len() as int / rows;
    let half = half_up(cols);
    Seq::new(
        (rows * half) as nat,
        |i: int|
            packed_byte(
                row_of(data, i / half, cols),
                inverse_scale(int4_scales(data, rows)[i / half]),
                QKind::Int4,
                i % half,
            ) as u8,
    )
}

/// A vector of weights of so many rows. Short ones and ones that are not finite
/// stay in full precision.
#[verifier::opaque]
pub open spec fn put_weights(data: Seq<F32>, ch: int, v5: bool, prec: QPrec) -> Seq<u8> {
    let n = data.len() as int;
    if !v5 {
        put_floats(data)
    } else if prec is F32 || !quantizable(data) {
        seq![ENC_F32] + put_floats(data)
    } else if prec is Int8 {
        if ch > 1 && n % ch == 0 {
            seq![ENC_INT8_PER_CHANNEL] + put_size(ch) + put_floats(int8_scales(data, ch))
                + int8_bytes(data, int8_scales(data, ch), n / ch)
        } else {
            seq![ENC_INT8] + put_floats(seq![int8_scale_of(data)]) + int8_bytes(
                data,
                seq![int8_scale_of(data)],
                n,
            )
        }
    } else {
        let rows = nibble_rows(n, ch);
        seq![ENC_INT4_PER_CHANNEL] + put_size(rows) + put_floats(int4_scales(data, rows))
            + int4_bytes(data, rows)
    }
}

/// Writes numbers.
pub(crate) fn push_floats(out: &mut Vec<u8>, data: &[F32])
    ensures
        final(out)@ == old(out)@ + put_floats(data@),
{
    let ghost before = out@;
    let mut i: usize = 0;
    assert(before + put_floats(data@.subrange(0, 0)) =~= before);
    while i < data.len()
        invariant
            i <= data@.len(),
            out@ == before + put_floats(data@.subrange(0, i as int)),
        decreases data@.len() - i,
    {
        let ghost start = put_floats(data@.subrange(0, i as int));
        push_u32(out, data[i].to_bits());
        proof {
            let now = data@.subrange(0, i + 1);
            assert(now.drop_last() =~= data@.subrange(0, i as int));
            assert(now.last() == data@[i as int]);
            assert(out@ =~= before + (start + put32(data@[i as int].bits as int)));
        }
        i = i + 1;
    }
    assert(data@.subrange(0, data@.len() as int) =~= data@);
}

/// Writes a size.
pub(crate) fn push_size(out: &mut Vec<u8>, n: usize)
    ensures
        final(out)@ == old(out)@ + put_size(n as int),
{
    let low: u64 = n as u64 % 0x1_0000_0000;
    push_u32(out, low as u32);
}

/// The byte of a number on the int8 grid of a scale.
fn int8_byte_exec(v: F32, scale: F32) -> (b: u8)
    ensures
        b == int8_byte(v, scale),
{
    if scale.same_value(F32::zero()) {
        0
    } else {
        let lim: F32 = F32 { bits: INT8_MAX_BITS };
        let x: F32 = v.div(scale).round().clamp(lim.neg(), lim);
        let level: i64 = x.to_int(-128, 127);
        if level < 0 {
            (level + 256) as u8
        } else {
            level as u8
        }
    }
}

/// Writes the bytes of numbers.
fn push_int8(out: &mut Vec<u8>, data: &[F32], scales: &Vec<F32>, row: usize)
    requires
        data@.len() == scales@.len() * row,
    ensures
        final(out)@ == old(out)@ + int8_bytes(data@, scales@, row as int),
{
    let ghost before = out@;
    let ghost goal = int8_bytes(data@, scales@, row as int);
    let mut i: usize = 0;
    assert(before + goal.subrange(0, 0) =~= before);
    while i < data.len()
        invariant
            i <= data@.len(),
            data@.len() == scales@.len() * row,
            goal == int8_bytes(data@, scales@, row as int),
            out@ == before + goal.subrange(0, i as int),
        decreases data@.len() - i,
    {
        proof {
            lemma_split(i as int, scales@.len() as int, row as int);
        }
        out.push(int8_byte_exec(data[i], scales[i / row]));
        proof {
            assert(before + goal.subrange(0, i + 1) =~= (before + goal.subrange(
                0,
                i as int,
            )).push(goal[i as int]));
        }
        i = i + 1;
    }
    assert(goal.subrange(0, goal.len() as int) =~= goal);
}

/// Writes a vector of weights of so many rows.
pub fn push_weights(
    out: &mut Vec<u8>,
    data: &[F32],
    channels: usize,
    v5: bool,
    prec: QPrec,
)
    ensures
        final(out)@ == old(out)@ + put_weights(data@, channels as int, v5, prec),
{
    proof {
        reveal(put_weights);
    }
    let ghost before = out@;
    let n: usize = data.len();
    if !v5 {
        push_floats(out, data);
        return;
    }
    let full: bool = match prec {
        QPrec::F32 => true,
        _ => false,
    };
    if full || !(n >= QUANT_MIN_LEN && is_all_finite(data)) {
        out.push(ENC_F32);
        push_floats(out, data);
        assert(out@ =~= before + (seq![ENC_F32] + put_floats(data@)));
        return;
    }
    match prec {
        QPrec::Int4 => {
            let rows: usize = if channels > 0 && n % channels == 0 {
                channels
            } else {
                1
            };
            let cols: usize = n / rows;
            proof {
                lemma_divides(n as int, rows as int);
            }
            let w: QWeight = QWeight::from_f32(data, rows, cols, QKind::Int4);
            out.push(ENC_INT4_PER_CHANNEL);
            push_size(out, rows);
            push_floats(out, w.scales.as_slice());
            push_bytes(out, w.q.as_slice());
            proof {
                lemma_int4_parts(w, data@, rows as int, cols as int);
                assert(out@ =~= before + (seq![ENC_INT4_PER_CHANNEL] + put_size(rows as int)
                    + put_floats(w.scales@) + w.q@));
            }
        },
        _ => {
            if channels > 1 && n % channels == 0 {
                let scales: Vec<F32> = int8_scales_per_channel(data, channels);
                proof {
                    lemma_divides(n as int, channels as int);
                    assert(scales@ =~= int8_scales(data@, channels as int));
                }
                out.push(ENC_INT8_PER_CHANNEL);
                push_size(out, channels);
                push_floats(out, scales.as_slice());
                push_int8(out, data, &scales, n / channels);
                assert(out@ =~= before + put_weights(data@, channels as int, v5, prec));
            } else {
                let mut scales: Vec<F32> = Vec::new();
                scales.push(int8_scale(data));
                assert(scales@ =~= seq![int8_scale_of(data@)]);
                assert(data@.len() == 1 * n) by (nonlinear_arith)
                    requires
                        data@.len() == n,
                ;
                out.push(ENC_INT8);
                push_floats(out, scales.as_slice());
                push_int8(out, data, &scales, n);
                assert(out@ =~= before + put_weights(data@, channels as int, v5, prec));
            }
        },
    }
}

/// A matrix that is quantized to nibbles holds the scales and bytes that are
/// written.
proof fn lemma_int4_parts(w: QWeight, data: Seq<F32>, rows: int, cols: int)
    requires
        rows > 0,
        data.len() == rows * cols,
        cols == data.len() as int / rows,
        w.quantizes(data, rows, cols, QKind::Int4),
    ensures
        w.scales@ == int4_scales(data, rows),
        w.q@ == int4_bytes(data, rows),
{
    let half = half_up(cols);
    assert(w.scales@ =~= int4_scales(data, rows));
    assert(w.q@.len() == rows * half);
    assert forall|i: int| 0 <= i < w.q@.len() implies w.q@[i] == int4_bytes(data, rows)[i] by {
        lemma_split(i, rows, half);
        assert(w.q@[cell(i / half, i % half, QKind::Int4.row_len(cols))] as int == packed_byte(
            row_of(data, i / half, cols),
            inverse_scale(w.scales@[i / half]),
            QKind::Int4,
            i % half,
        ));
    }
    assert(w.q@ =~= int4_bytes(data, rows));
}

// ---------------------------------------------------------------------------
// What is written is read
// ---------------------------------------------------------------------------

/// The matrix that is read where `data` was written.
pub open spec fn held(data: Seq<F32>, rows: int, cols: int, v5: bool, prec: QPrec) -> WeightView {
    if !v5 || prec is F32 || !quantizable(data) {
        WeightView::Plain(data)
    } else if prec is Int8 {
        WeightView::Packed(
            QKind::Int8,
            int8_scales(data, rows),
            int8_bytes(data, int8_scales(data, rows), cols),
        )
    } else {
        WeightView::Packed(QKind::Int4, int4_scales(data, rows), int4_bytes(data, rows))
    }
}

/// The vector that is read where `data` was written.
pub open spec fn vector_held(data: Seq<F32>, v5: bool, prec: QPrec) -> Seq<F32> {
    if !v5 || prec is F32 || !quantizable(data) {
        data
    } else {
        let s = seq![int8_scale_of(data)];
        unpacked(int8_bytes(data, s, data.len() as int), s, data.len() as int)
    }
}

pub(crate) proof fn lemma_floats_len(s: Seq<F32>)
    ensures
        put_floats(s).len() == 4 * s.len(),
    decreases s.len(),
{
    if s.len() > 0 {
        lemma_floats_len(s.drop_last());
    }
}

/// Numbers that were written are read.
pub(crate) proof fn lemma_floats_are_read(b: Seq<u8>, p: int, s: Seq<F32>)
    requires
        stands_at(b, p, put_floats(s)),
    ensures
        rd_floats(b, p, s.len() as int) == Some((s, p + put_floats(s).len())),
        floats_at(b, p, s.len() as int) == s,
        put_floats(s).len() == 4 * s.len(),
    decreases s.len(),
{
    lemma_floats_len(s);
    if s.len() > 0 {
        let before = s.drop_last();
        let last = put32(s.last().bits as int);
        lemma_floats_len(before);
        lemma_stands_split(b, p, put_floats(before), last);
        lemma_floats_are_read(b, p, before);
        lemma_le32(b, p + 4 * before.len(), s.last().bits as int);
        let n = s.len() as int;
        assert forall|i: int| 0 <= i < n implies floats_at(b, p, n)[i] == s[i] by {
            if i < n - 1 {
                assert(floats_at(b, p, n - 1)[i] == before[i]);
            }
        }
    }
    assert(floats_at(b, p, s.len() as int) =~= s);
}

/// Rows that were written are read.
proof fn lemma_rows_are_read(b: Seq<u8>, p: int, s: Seq<F32>, q: Seq<u8>)
    requires
        stands_at(b, p, put_floats(s) + q),
    ensures
        rd_rows(b, p, s.len() as int, q.len() as int) == Some(
            (s, q, p + 4 * s.len() + q.len()),
        ),
        put_floats(s).len() == 4 * s.len(),
{
    lemma_floats_len(s);
    lemma_stands_split(b, p, put_floats(s), q);
    lemma_floats_are_read(b, p, s);
    assert(b.subrange(p + 4 * s.len(), p + 4 * s.len() + q.len()) =~= q);
}

/// The first byte of a part.
proof fn lemma_marker(b: Seq<u8>, p: int, m: u8, rest: Seq<u8>)
    requires
        stands_at(b, p, seq![m] + rest),
    ensures
        0 <= p < b.len(),
        b[p] == m,
        stands_at(b, p + 1, rest),
{
    lemma_stands_split(b, p, seq![m], rest);
    assert(b.subrange(p, p + 1)[0] == m);
}

/// A vector that was written is read: as it was in full precision, on the int8
/// grid of its scale otherwise.
pub proof fn vectors_are_read_back(b: Seq<u8>, p: int, data: Seq<F32>, v5: bool, prec: QPrec)
    requires
        !(prec is Int4),
        stands_at(b, p, put_weights(data, 1, v5, prec)),
    ensures
        rd_vector(b, p, data.len() as int, v5) == Some(
            (vector_held(data, v5, prec), p + put_weights(data, 1, v5, prec).len()),
        ),
{
    reveal(rd_vector);
    reveal(put_weights);
    let n = data.len() as int;
    if !v5 {
        lemma_floats_are_read(b, p, data);
    } else if prec is F32 || !quantizable(data) {
        lemma_marker(b, p, ENC_F32, put_floats(data));
        lemma_floats_are_read(b, p + 1, data);
    } else {
        let s = seq![int8_scale_of(data)];
        let q = int8_bytes(data, s, n);
        assert(seq![ENC_INT8] + put_floats(s) + q =~= seq![ENC_INT8] + (put_floats(s) + q));
        lemma_marker(b, p, ENC_INT8, put_floats(s) + q);
        lemma_rows_are_read(b, p + 1, s, q);
    }
}

/// A matrix that was written is read: as it was in full precision, or packed
/// with the scales and levels that were written.
pub proof fn matrices_are_read_back(
    b: Seq<u8>,
    p: int,
    data: Seq<F32>,
    rows: int,
    cols: int,
    v5: bool,
    prec: QPrec,
)
    requires
        0 <= rows < 0x1_0000_0000,
        0 <= cols,
        data.len() == rows * cols,
        data.len() <= usize::MAX,
        stands_at(b, p, put_weights(data, rows, v5, prec)),
    ensures
        rd_matrix(b, p, rows, cols, v5) == Some(
            (held(data, rows, cols, v5, prec), p + put_weights(data, rows, v5, prec).len()),
        ),
{
    reveal(rd_matrix);
    reveal(put_weights);
    let n = data.len() as int;
    if !v5 {
        lemma_floats_are_read(b, p, data);
    } else if prec is F32 || !quantizable(data) {
        lemma_marker(b, p, ENC_F32, put_floats(data));
        lemma_floats_are_read(b, p + 1, data);
    } else {
        assert(rows > 0 && n % rows == 0 && n / rows == cols) by (nonlinear_arith)
            requires
                n == rows * cols,
                n >= 64,
                rows >= 0,
                cols >= 0,
        ;
        let bytes = put_weights(data, rows, v5, prec);
        if prec is Int8 {
            let s = int8_scales(data, rows);
            let q = int8_bytes(data, s, cols);
            if rows > 1 {
                let tail = put_floats(s) + q;
                assert(bytes =~= seq![ENC_INT8_PER_CHANNEL] + (put_size(rows) + tail));
                lemma_marker(b, p, ENC_INT8_PER_CHANNEL, put_size(rows) + tail);
                lemma_stands_split(b, p + 1, put_size(rows), tail);
                lemma_le32(b, p + 1, rows);
                lemma_rows_are_read(b, p + 5, s, q);
            } else {
                let one = seq![int8_scale_of(data)];
                assert(0 * n == 0) by (nonlinear_arith);
                assert(row_of(data, 0, n) =~= data);
                assert(s =~= one);
                assert(same_scales(one[0], 1) =~= one);
                assert(cols == n);
                let tail = put_floats(s) + q;
                assert(bytes =~= seq![ENC_INT8] + tail);
                lemma_marker(b, p, ENC_INT8, tail);
                lemma_rows_are_read(b, p + 1, s, q);
            }
        } else {
            let s = int4_scales(data, rows);
            let q = int4_bytes(data, rows);
            let tail = put_floats(s) + q;
            assert(bytes =~= seq![ENC_INT4_PER_CHANNEL] + (put_size(rows) + tail));
            lemma_marker(b, p, ENC_INT4_PER_CHANNEL, put_size(rows) + tail);
            lemma_stands_split(b, p + 1, put_size(rows), tail);
            lemma_le32(b, p + 1, rows);
            lemma_half_fits(rows, cols);
            lemma_rows_are_read(b, p + 5, s, q);
        }
    }
}

} // verus!
