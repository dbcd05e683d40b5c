//! Model files that are cut off are refused.
use crate::bytes::le32;
use crate::decimal::Decimals;
use crate::finf_layers::{
    is_writable, rd_block, rd_feed, rd_heads, rd_layer, rd_layers, rd_linear, rd_norm, rd_tables,
};
use crate::finf_weights::{
    floats_at, rd_floats, rd_int4_rows, rd_int8_rows, rd_matrix, rd_packed_one, rd_rows, rd_vector,
    QPrec,
};
use crate::loader::{
    file_read, finf_bytes, rd_string, written_models_are_read_back,
};
use crate::metadata::ModelMetadata;
use crate::model::{AnyLayer, Sequential};
use crate::normalizer::Normalizer;
use crate::quant::{half_up, QKind};
use vstd::prelude::*;
use vstd::utf8::encode_utf8;

verus! {

/// `b` begins with `c`.
pub open spec fn begins(b: Seq<u8>, c: Seq<u8>) -> bool {
    &&& c.len() <= b.len()
    &&& forall|i: int| 0 <= i < c.len() ==> #[trigger] c[i] == b[i]
}

proof fn lemma_le32(b: Seq<u8>, c: Seq<u8>, p: int)
    requires
        begins(b, c),
        0 <= p,
        p + 4 <= c.len(),
    ensures
        le32(c, p) == le32(b, p),
        le32(c, p) >= 0,
{
    assert(c[p] == b[p] && c[p + 1] == b[p + 1] && c[p + 2] == b[p + 2] && c[p + 3] == b[p + 3]);
}

proof fn lemma_floats(b: Seq<u8>, c: Seq<u8>, p: int, n: int)
    requires
        begins(b, c),
        0 <= p,
        0 <= n,
        p + 4 * n <= c.len(),
    ensures
        floats_at(c, p, n) == floats_at(b, p, n),
{
    assert forall|i: int| 0 <= i < n implies floats_at(c, p, n)[i] == floats_at(b, p, n)[i] by {
        lemma_le32(b, c, p + 4 * i);
    }
    assert(floats_at(c, p, n) =~= floats_at(b, p, n));
}

proof fn lemma_rows(b: Seq<u8>, c: Seq<u8>, p: int, ch: int, n: int)
    requires
        begins(b, c),
        0 <= p,
        0 <= ch,
        0 <= n,
        rd_rows(c, p, ch, n) is Some,
    ensures
        rd_rows(b, p, ch, n) == rd_rows(c, p, ch, n),
        p <= (rd_rows(c, p, ch, n)->0).2 <= c.len(),
{
    lemma_floats(b, c, p, ch);
    assert(c.subrange(p + 4 * ch, p + 4 * ch + n) =~= b.subrange(p + 4 * ch, p + 4 * ch + n));
}

proof fn lemma_vector(b: Seq<u8>, c: Seq<u8>, p: int, n: int, v5: bool)
    requires
        begins(b, c),
        0 <= p,
        0 <= n,
        rd_vector(c, p, n, v5) is Some,
    ensures
        rd_vector(b, p, n, v5) == rd_vector(c, p, n, v5),
        p <= (rd_vector(c, p, n, v5)->0).1 <= c.len(),
{
    reveal(rd_vector);
    if !v5 {
        lemma_floats(b, c, p, n);
    } else {
        assert(c[p] == b[p]);
        if rd_floats(c, p + 1, n) is Some {
            lemma_floats(b, c, p + 1, n);
        }
        if rd_rows(c, p + 1, 1, n) is Some {
            lemma_rows(b, c, p + 1, 1, n);
        }
        if p + 5 <= c.len() {
            lemma_le32(b, c, p + 1);
            let ch = le32(c, p + 1);
            if rd_rows(c, p + 5, ch, n) is Some {
                lemma_rows(b, c, p + 5, ch, n);
            }
        }
    }
}

proof fn lemma_matrix(b: Seq<u8>, c: Seq<u8>, p: int, rows: int, cols: int, v5: bool)
    requires
        begins(b, c),
        0 <= p,
        0 <= rows,
        0 <= cols,
        rd_matrix(c, p, rows, cols, v5) is Some,
    ensures
        rd_matrix(b, p, rows, cols, v5) == rd_matrix(c, p, rows, cols, v5),
        p <= (rd_matrix(c, p, rows, cols, v5)->0).1 <= c.len(),
{
    reveal(rd_matrix);
    let n = rows * cols;
    let half = rows * half_up(cols);
    assert(n >= 0 && half >= 0) by (nonlinear_arith)
        requires
            n == rows * cols,
            half == rows * half_up(cols),
            rows >= 0,
            cols >= 0,
            half_up(cols) >= 0,
    ;
    if !v5 {
        lemma_floats(b, c, p, n);
    } else {
        assert(c[p] == b[p]);
        let q = p + 1;
        if rd_floats(c, q, n) is Some {
            lemma_floats(b, c, q, n);
        }
        if rd_packed_one(c, q, rows, n, QKind::Int8) is Some {
            lemma_rows(b, c, q, 1, n);
        }
        if rd_packed_one(c, q, rows, half, QKind::Int4) is Some {
            lemma_rows(b, c, q, 1, half);
        }
        if q + 4 <= c.len() {
            lemma_le32(b, c, q);
            let ch = le32(c, q);
            let m = if ch == 0 && rows != 0 {
                1
            } else {
                ch
            };
            if rd_int8_rows(c, q, rows, n) is Some {
                lemma_rows(b, c, q + 4, ch, n);
            }
            if rd_int4_rows(c, q, rows, cols) is Some {
                lemma_rows(b, c, q + 4, m, half);
            }
        }
    }
}

proof fn lemma_linear(b: Seq<u8>, c: Seq<u8>, p: int, rows: int, cols: int, v5: bool)
    requires
        begins(b, c),
        0 <= p,
        0 <= rows,
        0 <= cols,
        rd_linear(c, p, rows, cols, v5) is Some,
    ensures
        rd_linear(b, p, rows, cols, v5) == rd_linear(c, p, rows, cols, v5),
        p <= (rd_linear(c, p, rows, cols, v5)->0).1 <= c.len(),
{
    reveal(rd_linear);
    lemma_matrix(b, c, p, rows, cols, v5);
    lemma_vector(b, c, (rd_matrix(c, p, rows, cols, v5)->0).1, cols, v5);
}

proof fn lemma_norm(b: Seq<u8>, c: Seq<u8>, p: int, n: int, v5: bool)
    requires
        begins(b, c),
        0 <= p,
        0 <= n,
        rd_norm(c, p, n, v5) is Some,
    ensures
        rd_norm(b, p, n, v5) == rd_norm(c, p, n, v5),
        p <= (rd_norm(c, p, n, v5)->0).1 <= c.len(),
{
    reveal(rd_norm);
    lemma_vector(b, c, p, n, v5);
    lemma_vector(b, c, (rd_vector(c, p, n, v5)->0).1, n, v5);
}

proof fn lemma_tables(b: Seq<u8>, c: Seq<u8>, p: int, vocab: int, max_seq: int, width: int, v5: bool)
    requires
        begins(b, c),
        0 <= p,
        0 <= vocab,
        0 <= max_seq,
        0 <= width,
        rd_tables(c, p, vocab, max_seq, width, v5) is Some,
    ensures
        rd_tables(b, p, vocab, max_seq, width, v5) == rd_tables(c, p, vocab, max_seq, width, v5),
        p <= (rd_tables(c, p, vocab, max_seq, width, v5)->0).1 <= c.len(),
{
    lemma_matrix(b, c, p, vocab, width, v5);
    lemma_matrix(b, c, (rd_matrix(c, p, vocab, width, v5)->0).1, max_seq, width, v5);
}

proof fn lemma_heads(b: Seq<u8>, c: Seq<u8>, p: int, n: int, v5: bool)
    requires
        begins(b, c),
        0 <= p,
        0 <= n,
        rd_heads(c, p, n, v5) is Some,
    ensures
        rd_heads(b, p, n, v5) == rd_heads(c, p, n, v5),
        p <= (rd_heads(c, p, n, v5)->0).1 <= c.len(),
{
    lemma_linear(b, c, p, n, n, v5);
    let p1 = (rd_linear(c, p, n, n, v5)->0).1;
    lemma_linear(b, c, p1, n, n, v5);
    let p2 = (rd_linear(c, p1, n, n, v5)->0).1;
    lemma_linear(b, c, p2, n, n, v5);
    let p3 = (rd_linear(c, p2, n, n, v5)->0).1;
    lemma_linear(b, c, p3, n, n, v5);
}

proof fn lemma_feed(b: Seq<u8>, c: Seq<u8>, p: int, n: int, h: int, v5: bool)
    requires
        begins(b, c),
        0 <= p,
        0 <= n,
        0 <= h,
        rd_feed(c, p, n, h, v5) is Some,
    ensures
        rd_feed(b, p, n, h, v5) == rd_feed(c, p, n, h, v5),
        p <= (rd_feed(c, p, n, h, v5)->0).1 <= c.len(),
{
    lemma_linear(b, c, p, n, h, v5);
    lemma_linear(b, c, (rd_linear(c, p, n, h, v5)->0).1, h, n, v5);
}

proof fn lemma_block(
    b: Seq<u8>,
    c: Seq<u8>,
    p: int,
    context: int,
    heads: int,
    n: int,
    h: int,
    v5: bool,
)
    requires
        begins(b, c),
        0 <= p,
        0 <= n,
        0 <= h,
        rd_block(c, p, context, heads, n, h, v5) is Some,
    ensures
        rd_block(b, p, context, heads, n, h, v5) == rd_block(c, p, context, heads, n, h, v5),
        p <= (rd_block(c, p, context, heads, n, h, v5)->0).1 <= c.len(),
{
    lemma_norm(b, c, p, n, v5);
    let p1 = (rd_norm(c, p, n, v5)->0).1;
    lemma_heads(b, c, p1, n, v5);
    let p2 = (rd_heads(c, p1, n, v5)->0).1;
    lemma_norm(b, c, p2, n, v5);
    let p3 = (rd_norm(c, p2, n, v5)->0).1;
    lemma_feed(b, c, p3, n, h, v5);
}

proof fn lemma_layer(b: Seq<u8>, c: Seq<u8>, p: int, v5: bool)
    requires
        begins(b, c),
        0 <= p,
        rd_layer(c, p, v5) is Some,
    ensures
        rd_layer(b, p, v5) == rd_layer(c, p, v5),
        p <= (rd_layer(c, p, v5)->0).1 <= c.len(),
{
    assert(c[p] == b[p]);
    if p + 5 <= c.len() {
        lemma_le32(b, c, p + 1);
    }
    if p + 9 <= c.len() {
        lemma_le32(b, c, p + 5);
    }
    if p + 13 <= c.len() {
        lemma_le32(b, c, p + 9);
    }
    if p + 17 <= c.len() {
        lemma_le32(b, c, p + 13);
    }
    if p + 2 <= c.len() {
        assert(c[p + 1] == b[p + 1]);
    }
    if rd_linear(c, p + 9, le32(c, p + 1), le32(c, p + 5), v5) is Some && p + 9 <= c.len() {
        lemma_linear(b, c, p + 9, le32(c, p + 1), le32(c, p + 5), v5);
    }
    if rd_tables(c, p + 13, le32(c, p + 1), le32(c, p + 5), le32(c, p + 9), v5) is Some && p + 13
        <= c.len() {
        lemma_tables(b, c, p + 13, le32(c, p + 1), le32(c, p + 5), le32(c, p + 9), v5);
    }
    if rd_norm(c, p + 5, le32(c, p + 1), v5) is Some && p + 5 <= c.len() {
        lemma_norm(b, c, p + 5, le32(c, p + 1), v5);
    }
    if p + 17 <= c.len() && rd_block(
        c,
        p + 17,
        le32(c, p + 1),
        le32(c, p + 5),
        le32(c, p + 9),
        le32(c, p + 13),
        v5,
    ) is Some {
        lemma_block(
            b,
            c,
            p + 17,
            le32(c, p + 1),
            le32(c, p + 5),
            le32(c, p + 9),
            le32(c, p + 13),
            v5,
        );
    }
}

proof fn lemma_layers(b: Seq<u8>, c: Seq<u8>, p: int, v5: bool, n: nat)
    requires
        begins(b, c),
        0 <= p <= c.len(),
        rd_layers(c, p, v5, n) is Done,
    ensures
        rd_layers(b, p, v5, n) == rd_layers(c, p, v5, n),
        p <= rd_layers(c, p, v5, n)->Done_1 <= c.len(),
    decreases n,
{
    if n > 0 {
        lemma_layers(b, c, p, v5, (n - 1) as nat);
        lemma_layer(b, c, rd_layers(c, p, v5, (n - 1) as nat)->Done_1, v5);
    }
}

proof fn lemma_string(b: Seq<u8>, c: Seq<u8>, p: int)
    requires
        begins(b, c),
        0 <= p,
        rd_string(c, p) is Some,
    ensures
        rd_string(b, p) == rd_string(c, p),
        p <= (rd_string(c, p)->0).1 <= c.len(),
{
    reveal(rd_string);
    lemma_le32(b, c, p);
    let e = p + 4 + le32(c, p);
    assert(c.subrange(p + 4, e) =~= b.subrange(p + 4, e));
}

/// A file that was written and then cut off anywhere is refused.
pub proof fn cut_files_are_refused<D: Decimals>(
    d: &D,
    s: Seq<AnyLayer>,
    norm: Seq<char>,
    meta: Seq<char>,
    v5: bool,
    prec: QPrec,
    n: int,
    model: Sequential,
    normalizer: Normalizer,
    metadata: ModelMetadata,
)
    requires
        s.len() < 0x1_0000_0000,
        encode_utf8(norm).len() < 0x1_0000_0000,
        encode_utf8(meta).len() < 0x1_0000_0000,
        forall|i: int| 0 <= i < s.len() ==> is_writable(#[trigger] s[i]),
        0 <= n < finf_bytes(s, norm, meta, v5, prec).len(),
    ensures
        !file_read(
            d,
            finf_bytes(s, norm, meta, v5, prec).subrange(0, n),
            model,
            normalizer,
            metadata,
        ),
{
    let b = finf_bytes(s, norm, meta, v5, prec);
    let c = b.subrange(0, n);
    written_models_are_read_back(s, norm, meta, v5, prec);
    if file_read(d, c, model, normalizer, metadata) {
        lemma_le32(b, c, 0);
        lemma_le32(b, c, 4);
        lemma_string(b, c, 8);
        let p = (rd_string(c, 8)->0).1;
        lemma_string(b, c, p);
        let q = (rd_string(c, p)->0).1;
        lemma_le32(b, c, q);
        lemma_layers(b, c, q + 4, v5, le32(c, q) as nat);
    }
}

} // verus!
