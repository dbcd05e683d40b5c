//! Int8 and int4 quantization.
use crate::float::{lemma_div_finite, lemma_int_within, of_int, F32};
use crate::index::{cell, lemma_cell, lemma_row};
use crate::ops::row_of;
use vstd::arithmetic::power2::{lemma2_to64, lemma_pow2_adds, lemma_pow2_pos, pow2};
use vstd::prelude::*;
use vstd::slice::slice_subrange;

verus! {

/// Tensors shorter than this stay in full precision.
pub const QUANT_MIN_LEN: usize = 64;

/// Bit pattern of 127, the largest int8 level in use.
pub const INT8_MAX_BITS: u32 = 0x42fe_0000;

/// Bit pattern of 7, the largest int4 level in use.
pub const INT4_MAX_BITS: u32 = 0x40e0_0000;

/// The largest magnitude, starting from zero.
pub open spec fn abs_max(s: Seq<F32>) -> F32
    decreases s.len(),
{
    if s.len() == 0 {
        F32 { bits: 0 }
    } else {
        abs_max(s.drop_last()).max_spec(s.last().abs_spec())
    }
}

/// The scale of a symmetric int8 grid: the largest magnitude over 127.
pub open spec fn int8_scale_of(s: Seq<F32>) -> F32 {
    abs_max(s).div_spec(F32 { bits: INT8_MAX_BITS })
}

/// Whether every element is finite.
pub open spec fn all_finite(s: Seq<F32>) -> bool {
    forall|i: int| 0 <= i < s.len() ==> (#[trigger] s[i]).finite_spec()
}

/// The grid point of the scaled int8 grid nearest to `v`.
pub open spec fn snap(v: F32, scale: F32) -> F32 {
    v.div_spec(scale).round_spec().clamp_spec(
        F32 { bits: INT8_MAX_BITS }.negated(),
        F32 { bits: INT8_MAX_BITS },
    ).mul_spec(scale)
}

/// The elements on the int8 grid of their own scale.
pub open spec fn snapped(s: Seq<F32>) -> Seq<F32> {
    if (F32 { bits: 0 }).lt_spec(int8_scale_of(s)) {
        s.map_values(|v: F32| snap(v, int8_scale_of(s)))
    } else {
        s
    }
}

/// Whether a tensor of these elements is quantized at all.
pub open spec fn quantizable(s: Seq<F32>) -> bool {
    s.len() >= QUANT_MIN_LEN && all_finite(s)
}

fn largest_magnitude(data: &[F32]) -> (r: F32)
    ensures
        r == abs_max(data@),
{
    let mut acc: F32 = F32::zero();
    let mut i: usize = 0;
    while i < data.len()
        invariant
            i <= data.len(),
            acc == abs_max(data@.subrange(0, i as int)),
        decreases data.len() - i,
    {
        proof {
            assert(data@.subrange(0, i + 1).drop_last() =~= data@.subrange(0, i as int));
        }
        acc = acc.max(data[i].abs());
        i = i + 1;
    }
    assert(data@.subrange(0, data@.len() as int) =~= data@);
    acc
}

/// The symmetric int8 scale of a tensor.
pub fn int8_scale(data: &[F32]) -> (r: F32)
    ensures
        r == int8_scale_of(data@),
{
    largest_magnitude(data).div(F32 { bits: INT8_MAX_BITS })
}

/// Whether every element is finite.
pub fn is_all_finite(data: &[F32]) -> (r: bool)
    ensures
        r == all_finite(data@),
{
    let mut i: usize = 0;
    while i < data.len()
        invariant
            i <= data.len(),
            forall|j: int| 0 <= j < i ==> (#[trigger] data@[j]).finite_spec(),
        decreases data.len() - i,
    {
        if !data[i].is_finite() {
            assert(!data@[i as int].finite_spec());
            return false;
        }
        i = i + 1;
    }
    true
}

fn snap_exec(v: F32, scale: F32) -> (r: F32)
    ensures
        r == snap(v, scale),
{
    let lim: F32 = F32 { bits: INT8_MAX_BITS };
    v.div(scale).round().clamp(lim.neg(), lim).mul(scale)
}

/// The largest magnitude of finite elements is finite and not negative.
pub(crate) proof fn lemma_abs_max(s: Seq<F32>)
    requires
        all_finite(s),
    ensures
        abs_max(s).finite_spec(),
        !abs_max(s).neg_spec(),
    decreases s.len(),
{
    if s.len() > 0 {
        let d = s.drop_last();
        assert(all_finite(d)) by {
            assert forall|i: int| 0 <= i < d.len() implies (#[trigger] d[i]).finite_spec() by {
                assert(d[i] == s[i]);
            }
        }
        lemma_abs_max(d);
        assert(s[s.len() - 1].finite_spec());
    }
}

/// The scale of finite elements is a number, and not negative.
pub proof fn scale_of_finite_is_nonnegative(s: Seq<F32>)
    requires
        all_finite(s),
    ensures
        !int8_scale_of(s).nan_spec(),
        !int8_scale_of(s).neg_spec(),
{
    lemma_abs_max(s);
    lemma_div_finite(abs_max(s), F32 { bits: INT8_MAX_BITS });
}

/// Moves elements `from..to` onto the int8 grid of their own scale.
fn snap_range(data: &mut Vec<F32>, from: usize, to: usize)
    requires
        from <= to <= old(data)@.len(),
        all_finite(old(data)@.subrange(from as int, to as int)),
    ensures
        final(data)@.len() == old(data)@.len(),
        final(data)@.subrange(from as int, to as int) == snapped(
            old(data)@.subrange(from as int, to as int),
        ),
        forall|i: int|
            0 <= i < old(data)@.len() && !(from <= i < to) ==> #[trigger] final(data)@[i] == old(
                data,
            )@[i],
{
    let ghost start = data@;
    let ghost part = data@.subrange(from as int, to as int);
    let scale: F32 = int8_scale(slice_subrange(data.as_slice(), from, to));
    if !F32::zero().lt(scale) {
        return ;
    }
    let mut i: usize = from;
    while i < to
        invariant
            from <= i <= to <= data@.len(),
            data@.len() == start.len(),
            forall|j: int| from <= j < i ==> #[trigger] data@[j] == snap(start[j], scale),
            forall|j: int|
                0 <= j < start.len() && !(from <= j < i) ==> #[trigger] data@[j] == start[j],
        decreases to - i,
    {
        let v: F32 = snap_exec(data[i], scale);
        data.set(i, v);
        i = i + 1;
    }
    assert(data@.subrange(from as int, to as int) =~= snapped(part));
}

/// Moves a tensor onto its int8 grid in place; says whether it was quantized.
/// Short tensors and tensors with a non-finite element stay as they are.
pub fn fake_quantize_int8(data: &mut Vec<F32>) -> (done: bool)
    ensures
        done == quantizable(old(data)@),
        final(data)@ == if done {
            snapped(old(data)@)
        } else {
            old(data)@
        },
{
    if data.len() < QUANT_MIN_LEN || !is_all_finite(data.as_slice()) {
        return false;
    }
    let n: usize = data.len();
    proof {
        assert(data@.subrange(0, n as int) =~= data@);
    }
    snap_range(data, 0, n);
    proof {
        assert(data@.subrange(0, n as int) =~= data@);
    }
    true
}

/// One symmetric int8 scale for each of `channels` contiguous rows.
pub fn int8_scales_per_channel(data: &[F32], channels: usize) -> (v: Vec<F32>)
    requires
        channels != 0,
        data@.len() % channels as nat == 0,
    ensures
        data@.len() == 0 ==> v@.len() == 0,
        data@.len() > 0 ==> v@.len() == channels,
        forall|r: int|
            0 <= r < v@.len() ==> #[trigger] v@[r] == int8_scale_of(
                row_of(data@, r, data@.len() as int / channels as int),
            ),
{
    let mut v: Vec<F32> = Vec::new();
    let n: usize = data.len();
    if n == 0 {
        return v;
    }
    let row: usize = n / channels;
    proof {
        assert(channels * row == n) by (nonlinear_arith)
            requires
                row == n as int / channels as int,
                n as int % channels as int == 0,
                channels > 0,
        ;
    }
    let mut r: usize = 0;
    while r < channels
        invariant
            r <= channels,
            n == data@.len(),
            channels * row == n,
            row == data@.len() as int / channels as int,
            v@.len() == r,
            forall|i: int|
                0 <= i < r ==> #[trigger] v@[i] == int8_scale_of(row_of(data@, i, row as int)),
        decreases channels - r,
    {
        proof {
            lemma_row(r as int, channels as int, row as int);
        }
        let base: usize = r * row;
        v.push(int8_scale(slice_subrange(data, base, base + row)));
        r = r + 1;
    }
    v
}

/// Moves each of `channels` contiguous rows onto its own int8 grid in place;
/// says whether the tensor was quantized.
pub fn fake_quantize_int8_per_channel(data: &mut Vec<F32>, channels: usize) -> (done: bool)
    ensures
        done == (channels != 0 && old(data)@.len() % channels as nat == 0 && quantizable(
            old(data)@,
        )),
        !done ==> final(data)@ == old(data)@,
        done ==> {
            let row = old(data)@.len() as int / channels as int;
            &&& final(data)@.len() == old(data)@.len()
            &&& forall|r: int|
                0 <= r < channels ==> #[trigger] row_of(final(data)@, r, row) == snapped(
                    row_of(old(data)@, r, row),
                )
        },
{
    if channels == 0 || data.len() == 0 || data.len() % channels != 0 {
        return false;
    }
    if data.len() < QUANT_MIN_LEN || !is_all_finite(data.as_slice()) {
        return false;
    }
    let n: usize = data.len();
    let row: usize = n / channels;
    let ghost start = data@;
    proof {
        assert(channels * row == n) by (nonlinear_arith)
            requires
                row == n as int / channels as int,
                n as int % channels as int == 0,
                channels > 0,
        ;
    }
    let mut r: usize = 0;
    while r < channels
        invariant
            r <= channels,
            n == start.len(),
            data@.len() == start.len(),
            channels * row == n,
            all_finite(start),
            forall|i: int|
                0 <= i < r ==> #[trigger] row_of(data@, i, row as int) == snapped(
                    row_of(start, i, row as int),
                ),
            forall|t: int| r * row <= t < n ==> #[trigger] data@[t] == start[t],
        decreases channels - r,
    {
        proof {
            lemma_row(r as int, channels as int, row as int);
        }
        let base: usize = r * row;
        let ghost before = data@;
        proof {
            assert(data@.subrange(base as int, base + row) =~= row_of(start, r as int, row as int));
        }
        snap_range(data, base, base + row);
        proof {
            assert forall|i: int| 0 <= i < r + 1 implies #[trigger] row_of(data@, i, row as int)
                == snapped(row_of(start, i, row as int)) by {
                if i < r {
                    lemma_row(i, r as int, row as int);
                    assert(row_of(data@, i, row as int) =~= row_of(before, i, row as int));
                }
            }
        }
        r = r + 1;
    }
    true
}

/// With one channel the per-channel grid is the grid of the whole tensor.
pub proof fn one_channel_is_per_tensor(before: Seq<F32>, after: Seq<F32>)
    requires
        quantizable(before),
        after.len() == before.len(),
        row_of(after, 0, before.len() as int) == snapped(row_of(before, 0, before.len() as int)),
    ensures
        after == snapped(before),
{
    assert(row_of(after, 0, before.len() as int) =~= after);
    assert(row_of(before, 0, before.len() as int) =~= before);
}

/// Bit width of a quantized matrix in memory.
#[derive(Clone, Copy, Debug, PartialEq, Eq, Structural)]
pub enum QKind {
    /// One signed byte per weight.
    Int8,
    /// Two signed nibbles per byte.
    Int4,
}

/// Half of the columns, rounded up.
pub open spec fn half_up(cols: int) -> int {
    (cols + 1) / 2
}

impl QKind {
    /// Bytes that one row of `cols` weights takes.
    pub open spec fn row_len(self, cols: int) -> int {
        match self {
            QKind::Int8 => cols,
            QKind::Int4 => half_up(cols),
        }
    }

    /// Bytes of a `rows` by `cols` matrix, without its scales.
    pub fn packed_len(self, rows: usize, cols: usize) -> (n: usize)
        requires
            rows * self.row_len(cols as int) <= usize::MAX,
        ensures
            n == rows * self.row_len(cols as int),
    {
        match self {
            QKind::Int8 => rows * cols,
            QKind::Int4 => rows * (cols / 2 + cols % 2),
        }
    }
}

/// A matrix kept quantized: one scale per row, and the levels packed. Int8: one
/// byte per weight. Int4: within each row byte `b` holds column `b` in its low
/// nibble and column `half + b` in its high nibble.
#[derive(Clone, Debug, PartialEq)]
pub struct QWeight {
    pub rows: usize,
    pub cols: usize,
    pub kind: QKind,
    pub scales: Vec<F32>,
    pub q: Vec<u8>,
}

/// The signed value of a byte.
pub open spec fn signed_byte(b: int) -> int {
    if b >= 128 {
        b - 256
    } else {
        b
    }
}

/// The signed value of a nibble.
pub open spec fn signed_nibble(n: int) -> int {
    if n >= 8 {
        n - 16
    } else {
        n
    }
}

/// The level that stands for `v` when values are multiplied by `inv`.
pub open spec fn level_of(v: F32, inv: F32, lim: F32) -> int {
    v.mul_spec(inv).round_spec().clamp_spec(lim.negated(), lim).int_spec(-128, 127)
}

/// The factor that takes values to levels.
pub open spec fn inverse_scale(scale: F32) -> F32 {
    if (F32 { bits: 0 }).lt_spec(scale) {
        F32 { bits: 0x3f80_0000 }.div_spec(scale)
    } else {
        F32 { bits: 0 }
    }
}

/// The largest level of a kind, as a number.
pub open spec fn level_limit(kind: QKind) -> F32 {
    match kind {
        QKind::Int8 => F32 { bits: INT8_MAX_BITS },
        QKind::Int4 => F32 { bits: INT4_MAX_BITS },
    }
}

/// The scale of one row.
pub open spec fn row_scale(row: Seq<F32>, kind: QKind) -> F32 {
    abs_max(row).div_spec(level_limit(kind))
}

impl QWeight {
    /// Storage and scales fit the sizes.
    pub open spec fn wf(self) -> bool {
        &&& self.scales@.len() == self.rows
        &&& self.q@.len() == self.rows * self.kind.row_len(self.cols as int)
    }

    /// The level in row `r`, column `c`.
    pub open spec fn level(self, r: int, c: int) -> int {
        match self.kind {
            QKind::Int8 => signed_byte(self.q@[cell(r, c, self.cols as int)] as int),
            QKind::Int4 => {
                let half = half_up(self.cols as int);
                if c < half {
                    signed_nibble(self.q@[cell(r, c, half)] as int % 16)
                } else {
                    signed_nibble(self.q@[cell(r, c - half, half)] as int / 16)
                }
            },
        }
    }

    /// The value in row `r`, column `c`.
    pub open spec fn value(self, r: int, c: int) -> F32 {
        of_int(self.level(r, c)).mul_spec(self.scales@[r])
    }

    /// Bytes per row.
    pub fn row_bytes(&self) -> (n: usize)
        ensures
            n == self.kind.row_len(self.cols as int),
    {
        match self.kind {
            QKind::Int8 => self.cols,
            QKind::Int4 => self.cols / 2 + self.cols % 2,
        }
    }

    /// Bytes in memory: levels and scales.
    pub fn resident_bytes(&self) -> (n: usize)
        requires
            self.q@.len() + self.scales@.len() * 4 <= usize::MAX,
        ensures
            n == self.q@.len() + self.scales@.len() * 4,
    {
        self.q.len() + self.scales.len() * 4
    }

    /// The signed value of a nibble.
    pub fn nibble_to_i8(nib: u8) -> (v: i8)
        requires
            nib < 16,
        ensures
            v == signed_nibble(nib as int),
    {
        if nib >= 8 {
            nib as i8 - 16
        } else {
            nib as i8
        }
    }

    /// The level in row `r`, column `c`.
    pub fn level_at(&self, r: usize, c: usize) -> (v: i8)
        requires
            self.wf(),
            r < self.rows,
            c < self.cols,
        ensures
            v == self.level(r as int, c as int),
    {
        let total: usize = self.q.len();
        match self.kind {
            QKind::Int8 => {
                proof {
                    lemma_cell(r as int, c as int, self.rows as int, self.cols as int);
                }
                let b: u8 = self.q[r * self.cols + c];
                if b >= 128 {
                    (b as i16 - 256) as i8
                } else {
                    b as i8
                }
            },
            QKind::Int4 => {
                let half: usize = self.cols / 2 + self.cols % 2;
                if c < half {
                    proof {
                        lemma_cell(r as int, c as int, self.rows as int, half as int);
                    }
                    Self::nibble_to_i8(self.q[r * half + c] % 16)
                } else {
                    proof {
                        lemma_cell(r as int, c - half, self.rows as int, half as int);
                    }
                    Self::nibble_to_i8(self.q[r * half + (c - half)] / 16)
                }
            },
        }
    }

    /// Writes the values of row `r`.
    pub fn dequant_row(&self, r: usize, out: &mut Vec<F32>)
        requires
            self.wf(),
            r < self.rows,
            old(out)@.len() == self.cols,
        ensures
            final(out)@.len() == self.cols,
            forall|c: int|
                0 <= c < self.cols ==> #[trigger] final(out)@[c] == self.value(r as int, c),
    {
        let scale: F32 = self.scales[r];
        let mut c: usize = 0;
        while c < self.cols
            invariant
                self.wf(),
                r < self.rows,
                c <= self.cols,
                scale == self.scales@[r as int],
                out@.len() == self.cols,
                forall|x: int| 0 <= x < c ==> #[trigger] out@[x] == self.value(r as int, x),
            decreases self.cols - c,
        {
            let level: i8 = self.level_at(r, c);
            let v: F32 = F32::from_i64(level as i64).mul(scale);
            out.set(c, v);
            c = c + 1;
        }
    }

    /// All values, row by row.
    pub fn to_f32(&self) -> (out: Vec<F32>)
        requires
            self.wf(),
            self.rows * self.cols <= usize::MAX,
        ensures
            out@.len() == self.rows * self.cols,
            forall|r: int, c: int|
                0 <= r < self.rows && 0 <= c < self.cols ==> #[trigger] out@[cell(
                    r,
                    c,
                    self.cols as int,
                )] == self.value(r, c),
    {
        let mut out: Vec<F32> = Vec::with_capacity(self.rows * self.cols);
        let mut r: usize = 0;
        while r < self.rows
            invariant
                self.wf(),
                r <= self.rows,
                out@.len() == r * self.cols,
                forall|i: int, c: int|
                    0 <= i < r && 0 <= c < self.cols ==> #[trigger] out@[cell(
                        i,
                        c,
                        self.cols as int,
                    )] == self.value(i, c),
            decreases self.rows - r,
        {
            let mut c: usize = 0;
            proof {
                lemma_row(r as int, self.rows as int, self.cols as int);
            }
            while c < self.cols
                invariant
                    self.wf(),
                    r < self.rows,
                    c <= self.cols,
                    out@.len() == r * self.cols + c,
                    forall|i: int, x: int|
                        0 <= i < r && 0 <= x < self.cols ==> #[trigger] out@[cell(
                            i,
                            x,
                            self.cols as int,
                        )] == self.value(i, x),
                    forall|x: int|
                        0 <= x < c ==> #[trigger] out@[cell(r as int, x, self.cols as int)]
                            == self.value(r as int, x),
                decreases self.cols - c,
            {
                let ghost before = out@;
                let level: i8 = self.level_at(r, c);
                out.push(F32::from_i64(level as i64).mul(self.scales[r]));
                proof {
                    assert forall|i: int, x: int| 0 <= i < r && 0 <= x < self.cols implies #[trigger] out@[cell(
                        i,
                        x,
                        self.cols as int,
                    )] == before[cell(i, x, self.cols as int)] by {
                        lemma_cell(i, x, r as int, self.cols as int);
                    }
                    assert(cell(r as int, c as int, self.cols as int) == r * self.cols + c);
                }
                c = c + 1;
            }
            r = r + 1;
        }
        out
    }

    /// The matrix is `data`, quantized row by row.
    pub open spec fn quantizes(self, data: Seq<F32>, rows: int, cols: int, kind: QKind) -> bool {
        &&& self.wf()
        &&& self.rows == rows
        &&& self.cols == cols
        &&& self.kind == kind
        &&& forall|r: int|
            0 <= r < rows ==> #[trigger] self.scales@[r] == row_scale(row_of(data, r, cols), kind)
        &&& forall|r: int, c: int|
            0 <= r < rows && 0 <= c < cols ==> #[trigger] self.level(r, c) == level_of(
                data[cell(r, c, cols)],
                inverse_scale(self.scales@[r]),
                level_limit(kind),
            )
        &&& forall|r: int, b: int|
            0 <= r < rows && 0 <= b < kind.row_len(cols) ==> #[trigger] self.q@[cell(
                r,
                b,
                kind.row_len(cols),
            )] as int == packed_byte(
                row_of(data, r, cols),
                inverse_scale(self.scales@[r]),
                kind,
                b,
            )
    }

    /// Quantizes a row-major matrix, each row on its own scale.
    pub fn from_f32(data: &[F32], rows: usize, cols: usize, kind: QKind) -> (w: QWeight)
        requires
            data@.len() == rows * cols,
        ensures
            w.quantizes(data@, rows as int, cols as int, kind),
    {
        let mut scales: Vec<F32> = Vec::with_capacity(rows);
        let mut q: Vec<u8> = Vec::new();
        let total: usize = data.len();
        let ghost rb = kind.row_len(cols as int);
        let mut r: usize = 0;
        while r < rows
            invariant
                r <= rows,
                total == data@.len(),
                data@.len() == rows * cols,
                rb == kind.row_len(cols as int),
                scales@.len() == r,
                q@.len() == r * rb,
                forall|i: int|
                    0 <= i < r ==> #[trigger] scales@[i] == row_scale(
                        row_of(data@, i, cols as int),
                        kind,
                    ),
                forall|i: int, b: int|
                    0 <= i < r && 0 <= b < rb ==> #[trigger] q@[cell(i, b, rb)] as int
                        == packed_byte(
                        row_of(data@, i, cols as int),
                        inverse_scale(scales@[i]),
                        kind,
                        b,
                    ),
            decreases rows - r,
        {
            proof {
                lemma_row(r as int, rows as int, cols as int);
                lemma_row(r as int, rows as int, rb);
            }
            let base: usize = r * cols;
            let row: &[F32] = slice_subrange(data, base, base + cols);
            let limit: F32 = match kind {
                QKind::Int8 => F32 { bits: INT8_MAX_BITS },
                QKind::Int4 => F32 { bits: INT4_MAX_BITS },
            };
            let scale: F32 = largest_magnitude(row).div(limit);
            let inv: F32 = if F32::zero().lt(scale) {
                F32::one().div(scale)
            } else {
                F32::zero()
            };
            let ghost before = q@;
            let ghost scales_before = scales@;
            scales.push(scale);
            pack_row(row, inv, kind, &mut q);
            proof {
                assert forall|i: int, b: int| 0 <= i < r + 1 && 0 <= b < rb implies #[trigger] q@[cell(
                    i,
                    b,
                    rb,
                )] as int == packed_byte(
                    row_of(data@, i, cols as int),
                    inverse_scale(scales@[i]),
                    kind,
                    b,
                ) by {
                    if i < r {
                        lemma_cell(i, b, r as int, rb);
                        assert(q@[cell(i, b, rb)] == before[cell(i, b, rb)]);
                        assert(scales@[i] == scales_before[i]);
                    } else {
                        assert(cell(i, b, rb) == before.len() + b);
                    }
                }
            }
            r = r + 1;
        }
        let w: QWeight = QWeight { rows, cols, kind, scales, q };
        proof {
            assert forall|r: int, c: int| 0 <= r < rows && 0 <= c < cols implies #[trigger] w.level(
                r,
                c,
            ) == level_of(
                data@[cell(r, c, cols as int)],
                inverse_scale(w.scales@[r]),
                level_limit(kind),
            ) by {
                let row = row_of(data@, r, cols as int);
                lemma_row(r, rows as int, cols as int);
                assert(row[c] == data@[cell(r, c, cols as int)]);
                let inv = inverse_scale(w.scales@[r]);
                let half = half_up(cols as int);
                let b = if kind is Int8 || c < half { c } else { c - half };
                assert(0 <= b < rb);
                assert(w.q@[cell(r, b, rb)] as int == packed_byte(row, inv, kind, b));
                lemma_level_range(row[c], inv, kind);
                if kind is Int4 {
                    lemma_level_range(row[b], inv, kind);
                    if half + b < cols {
                        lemma_level_range(row[half + b], inv, kind);
                    }
                    lemma_nibbles(
                        nibble_of(level_of(row[b], inv, level_limit(kind))),
                        if half + b < cols {
                            nibble_of(level_of(row[half + b], inv, level_limit(kind)))
                        } else {
                            0
                        },
                    );
                }
            }
        }
        w
    }
}

/// The byte of a level.
pub open spec fn byte_of(level: int) -> int {
    if level < 0 {
        level + 256
    } else {
        level
    }
}

/// The nibble of a level.
pub open spec fn nibble_of(level: int) -> int {
    if level < 0 {
        level + 16
    } else {
        level
    }
}

/// Byte `b` of a packed row.
pub open spec fn packed_byte(row: Seq<F32>, inv: F32, kind: QKind, b: int) -> int {
    let lim = level_limit(kind);
    match kind {
        QKind::Int8 => byte_of(level_of(row[b], inv, lim)),
        QKind::Int4 => {
            let half = half_up(row.len() as int);
            nibble_of(level_of(row[b], inv, lim)) + 16 * if half + b < row.len() {
                nibble_of(level_of(row[half + b], inv, lim))
            } else {
                0
            }
        },
    }
}

proof fn lemma_nibbles(lo: int, hi: int)
    requires
        0 <= lo < 16,
        0 <= hi < 16,
    ensures
        (lo + 16 * hi) % 16 == lo,
        (lo + 16 * hi) / 16 == hi,
{
}

/// Levels stay within the limit of their kind.
pub proof fn lemma_level_range(v: F32, inv: F32, kind: QKind)
    ensures
        match kind {
            QKind::Int8 => -127 <= level_of(v, inv, level_limit(kind)) <= 127,
            QKind::Int4 => -7 <= level_of(v, inv, level_limit(kind)) <= 7,
        },
{
    let lim = level_limit(kind);
    let x = v.mul_spec(inv).round_spec().clamp_spec(lim.negated(), lim);
    lemma2_to64();
    lemma_pow2_pos(149);
    let d = pow2(149) as int;
    match kind {
        QKind::Int8 => {
            // 127 is 0xfe0000 * 2^132 units.
            lemma_pow2_adds(17, 132);
            assert(0xfe_0000 * pow2(132) == 127 * d) by (nonlinear_arith)
                requires
                    d == 0x2_0000 * pow2(132),
            ;
            assert(lim.mag() == 127 * d);
            assert((127 * d) / d == 127) by (nonlinear_arith)
                requires
                    d > 0,
            ;
            lemma_int_within(x, lim, 127, -128, 127);
        },
        QKind::Int4 => {
            lemma_pow2_adds(21, 128);
            assert(0xe0_0000 * pow2(128) == 7 * d) by (nonlinear_arith)
                requires
                    d == 0x20_0000 * pow2(128),
            ;
            assert(lim.mag() == 7 * d);
            assert((7 * d) / d == 7) by (nonlinear_arith)
                requires
                    d > 0,
            ;
            lemma_int_within(x, lim, 7, -128, 127);
        },
    }
}

fn level_exec(v: F32, inv: F32, kind: QKind) -> (n: i64)
    ensures
        n == level_of(v, inv, level_limit(kind)),
        match kind {
            QKind::Int8 => -127 <= n <= 127,
            QKind::Int4 => -7 <= n <= 7,
        },
{
    let lim: F32 = match kind {
        QKind::Int8 => F32 { bits: INT8_MAX_BITS },
        QKind::Int4 => F32 { bits: INT4_MAX_BITS },
    };
    proof {
        lemma_level_range(v, inv, kind);
    }
    v.mul(inv).round().clamp(lim.neg(), lim).to_int(-128, 127)
}

/// Appends the packed levels of one row.
fn pack_row(row: &[F32], inv: F32, kind: QKind, q: &mut Vec<u8>)
    ensures
        final(q)@.len() == old(q)@.len() + kind.row_len(row@.len() as int),
        forall|i: int| 0 <= i < old(q)@.len() ==> #[trigger] final(q)@[i] == old(q)@[i],
        forall|b: int|
            0 <= b < kind.row_len(row@.len() as int) ==> #[trigger] final(q)@[old(q)@.len() + b]
                as int == packed_byte(row@, inv, kind, b),
{
    let ghost start = q@;
    let cols: usize = row.len();
    match kind {
        QKind::Int8 => {
            let mut c: usize = 0;
            while c < cols
                invariant
                    c <= cols == row@.len(),
                    kind == QKind::Int8,
                    q@.len() == start.len() + c,
                    forall|i: int| 0 <= i < start.len() ==> #[trigger] q@[i] == start[i],
                    forall|b: int|
                        0 <= b < c ==> #[trigger] q@[start.len() + b] as int == packed_byte(
                            row@,
                            inv,
                            kind,
                            b,
                        ),
                decreases cols - c,
            {
                let n: i64 = level_exec(row[c], inv, kind);
                let b: u8 = if n < 0 {
                    (n + 256) as u8
                } else {
                    n as u8
                };
                q.push(b);
                c = c + 1;
            }
        },
        QKind::Int4 => {
            let half: usize = cols / 2 + cols % 2;
            let mut c: usize = 0;
            while c < half
                invariant
                    c <= half,
                    cols == row@.len(),
                    half == half_up(cols as int),
                    kind == QKind::Int4,
                    q@.len() == start.len() + c,
                    forall|i: int| 0 <= i < start.len() ==> #[trigger] q@[i] == start[i],
                    forall|b: int|
                        0 <= b < c ==> #[trigger] q@[start.len() + b] as int == packed_byte(
                            row@,
                            inv,
                            kind,
                            b,
                        ),
                decreases half - c,
            {
                let lo: i64 = level_exec(row[c], inv, kind);
                let lo_nib: u8 = if lo < 0 {
                    (lo + 16) as u8
                } else {
                    lo as u8
                };
                let hi_nib: u8 = if c < cols - half {
                    let hi: i64 = level_exec(row[half + c], inv, kind);
                    if hi < 0 {
                        (hi + 16) as u8
                    } else {
                        hi as u8
                    }
                } else {
                    0
                };
                q.push(lo_nib + 16 * hi_nib);
                c = c + 1;
            }
        },
    }
}

} // verus!
