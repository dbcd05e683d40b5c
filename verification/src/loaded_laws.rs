//! What models that are read from files do with the tensors and the sizes of the file.
use crate::decoder_laws::layers_map_rows_by_weight_and_bias;
use crate::float::F32;
use crate::float_errors::{lemma_unit, lemma_value, size, unit};
use crate::gguf::{transposed, Gguf, Sizes};
use crate::gguf_listing::Directory;
use crate::index::cell;
use crate::layer::Linear;
use crate::sum_errors::{exact_dot, exact_dot_sizes};
use vstd::arithmetic::power2::{lemma2_to64, lemma_pow2_adds, pow2};
use vstd::prelude::*;

verus! {

/// Products along a column of an exchanged matrix are those along a row of the matrix.
proof fn lemma_along_a_row(x: Seq<F32>, data: Seq<F32>, o: int, rows: int, cols: int, n: nat)
    requires
        0 <= o < rows,
        n <= cols,
    ensures
        exact_dot(x, 0, transposed(data, rows, cols), o, rows, n) == exact_dot(
            x,
            0,
            data,
            o * cols,
            1,
            n,
        ),
        exact_dot_sizes(x, 0, transposed(data, rows, cols), o, rows, n) == exact_dot_sizes(
            x,
            0,
            data,
            o * cols,
            1,
            n,
        ),
    decreases n,
{
    if n > 0 {
        let i = n - 1;
        lemma_along_a_row(x, data, o, rows, cols, i as nat);
        let w = transposed(data, rows, cols);
        let k = i * rows + o;
        assert(k / rows == i && k % rows == o && 0 <= k < cols * rows) by (nonlinear_arith)
            requires
                k == i * rows + o,
                0 <= o < rows,
                0 <= i < cols,
        ;
        assert(w[k] == data[cell(o, i, cols)]);
        assert(i * rows == rows * i) by (nonlinear_arith);
    }
}

/// Output `o` of a row is the sum of its products with row `o` of a matrix of `cols`
/// columns, and a shift, up to rounding.
pub open spec fn is_row_product(
    x: Seq<F32>,
    data: Seq<F32>,
    cols: int,
    o: int,
    shift: F32,
    y: F32,
) -> bool {
    let p = unit();
    let n = cols as nat;
    let b = shift.units();
    y.finite_spec() ==> size(y.units() * p - (exact_dot(x, 0, data, o * cols, 1, n) + b * p))
        * 0x20_0000 <= (n + 4) * (exact_dot_sizes(x, 0, data, o * cols, 1, n) + size(b) * p) + n * (
    0x80_0000 * p)
}

/// A layer that is read in full precision multiplies a row with the rows of its tensor, and
/// adds the numbers of its bias tensor, where there is one.
pub proof fn layers_multiply_with_the_rows_of_their_tensors(
    g: Gguf,
    name: Seq<char>,
    bias: Option<Seq<char>>,
    l: Linear,
    x: Seq<F32>,
    o: int,
)
    requires
        g.entry(name) is Some,
        g.is_linear(name, bias, None, l),
        l.in_f <= 0x10_0000,
        0 <= o < l.out_f,
    ensures
        ({
            let e = g.entry(name)->0;
            &&& l.in_f == e.dims[0]
            &&& l.out_f == e.dims[1]
            &&& bias is Some && g.entry(bias->0) is Some && g.data_named(bias->0) is Some
                && g.data_named(bias->0)->0.len() == l.out_f ==> is_row_product(
                x,
                g.data_of(e)->0,
                l.in_f as int,
                o,
                g.data_named(bias->0)->0[o],
                l.image(x)[o],
            )
            &&& bias is None || g.entry(bias->0) is None ==> is_row_product(
                x,
                g.data_of(e)->0,
                l.in_f as int,
                o,
                F32 { bits: 0 },
                l.image(x)[o],
            )
        }),
{
    let e = g.entry(name)->0;
    layers_map_rows_by_weight_and_bias(l, x);
    lemma_along_a_row(x, g.data_of(e)->0, o, l.out_f as int, l.in_f as int, l.in_f as nat);
}

/// The head of a file without one multiplies with the vectors of the tokens.
pub proof fn heads_may_share_the_vectors_of_the_tokens(
    g: Gguf,
    z: Sizes,
    l: Linear,
    x: Seq<F32>,
    token: int,
)
    requires
        g.entry("output.weight"@) is None,
        g.is_head(z, None, l),
        z.dim <= 0x10_0000,
        0 <= token < l.out_f,
    ensures
        is_row_product(
            x,
            g.data_named("token_embd.weight"@)->0,
            z.dim as int,
            token,
            F32 { bits: 0 },
            l.image(x)[token],
        ),
{
    layers_map_rows_by_weight_and_bias(l, x);
    lemma_along_a_row(
        x,
        g.data_named("token_embd.weight"@)->0,
        token,
        l.out_f as int,
        l.in_f as int,
        l.in_f as nat,
    );
}

/// Sizes that a file does not name: all heads have keys and values of their own, the heads
/// divide the width and are turned whole, by the base ten thousand; the norms add a
/// hundred thousandth, up to rounding.
pub proof fn sizes_that_are_not_named_follow_from_the_others(d: Directory, z: Sizes)
    requires
        d.sizes_are(z),
    ensures
        d.count_of(d.key(".attention.head_count_kv"@)) is None ==> z.n_kv == z.n_heads,
        d.count_of(d.key(".attention.key_length"@)) is None && z.n_heads > 0 ==> z.head_dim
            * z.n_heads <= z.dim < (z.head_dim + 1) * z.n_heads,
        d.count_of(d.key(".rope.dimension_count"@)) is None ==> z.rope_dim == z.head_dim,
        !d.metadata.dom().contains(d.key(".rope.freq_base"@)) ==> z.rope_base.finite_spec()
            && z.rope_base.units() == 10_000 * unit(),
        !d.metadata.dom().contains(d.key(".attention.layer_norm_rms_epsilon"@))
            ==> z.eps.finite_spec() && size(z.eps.units() * 100_000 - unit()) * 0x80_0000 <= unit(),
        d.count_of(d.key(".context_length"@)) is None ==> z.ctx == 2048,
{
    lemma2_to64();
    lemma_unit();
    let base = F32 { bits: 0x461c_4000 };
    assert(base.mag() == 0x9c_4000 * pow2(139));
    lemma_pow2_adds(10, 139);
    lemma_value(base);
    let eps = F32 { bits: 0x3727_c5ac };
    assert(eps.mag() == 0xa7_c5ac * pow2(109));
    lemma_pow2_adds(8, 32);
    lemma_pow2_adds(40, 109);
    lemma_value(eps);
    let u = pow2(109) as int;
    assert(pow2(40) == 0x100_0000_0000);
    assert(unit() == 0x100_0000_0000 * u);
    assert(eps.units() == 0xa7_c5ac * u);
    assert(u > 0);
    let (v, p) = (eps.units(), unit());
    assert(size(v * 100_000 - p) * 0x80_0000 <= p) by (nonlinear_arith)
        requires
            v == 0xa7_c5ac * u,
            p == 0x100_0000_0000 * u,
            u > 0,
    ;
    let (n, w) = (z.n_heads as int, z.dim as int);
    if n > 0 {
        let q = w / n;
        assert(q * n <= w < (q + 1) * n) by (nonlinear_arith)
            requires
                q == w / n,
                n > 0,
                w >= 0,
        ;
    }
}

} // verus!
