//! Stacks of layers: stacks that hold the same numbers, and stacks that are
//! joined.
use crate::error::InferError;
use crate::finf_layers::{
    layer_shows, layers_show, linear_shows, norm_shows, BlockView, LayerView, LinearView, NormView,
    TableView,
};
use crate::finf_weights::WeightView;
use crate::float::F32;
use crate::layer::{seq_len_of, token_of, Embedding, Forward, Layer, LayerNorm, Linear};
use crate::math::Math;
use crate::model::{pipes, stops, AnyLayer};
use crate::ops::{level_dot, product_at, row_of, scaled_row};
use crate::quant::QWeight;
use crate::tensor::Tensor;
use crate::transformer::{BlockTrace, TransformerBlock};
use vstd::prelude::*;

verus! {

/// Two tensors hold the same numbers in the same shape.
pub open spec fn same_tensor(a: Tensor, b: Tensor) -> bool {
    a.shape@ == b.shape@ && a.data@ == b.data@
}

proof fn lemma_level_dot(init: F32, a: Seq<F32>, w: QWeight, u: QWeight, j: int, p: nat)
    requires
        w.kind == u.kind,
        w.cols == u.cols,
        w.q@ == u.q@,
    ensures
        level_dot(init, a, w, j, p) == level_dot(init, a, u, j, p),
    decreases p,
{
    if p > 0 {
        lemma_level_dot(init, a, w, u, j, (p - 1) as nat);
    }
}

proof fn lemma_linear(a: Linear, b: Linear, v: LinearView, x: Tensor, y: Tensor, t: Tensor, s: Tensor)
    requires
        linear_shows(a, v),
        linear_shows(b, v),
        same_tensor(x, y),
        same_tensor(t, s),
        a.maps(x, t),
    ensures
        b.maps(y, s),
{
    match (a.quant, b.quant) {
        (Some(w), Some(u)) => {
            assert forall|i: int, j: int| 0 <= i < y.shape@[0] && 0 <= j < u.cols implies #[trigger] s.at_spec(
                i,
                j,
            ) == level_dot(b.bias.data@[j], scaled_row(y, u, i), u, j, u.rows as nat) by {
                assert(t.at_spec(i, j) == level_dot(
                    a.bias.data@[j],
                    scaled_row(x, w, i),
                    w,
                    j,
                    w.rows as nat,
                ));
                assert(scaled_row(x, w, i) =~= scaled_row(y, u, i));
                lemma_level_dot(a.bias.data@[j], scaled_row(x, w, i), w, u, j, w.rows as nat);
            }
        },
        (None, None) => {
            assert forall|i: int, j: int|
                0 <= i < y.shape@[0] && 0 <= j < b.weight.shape@[1] implies #[trigger] s.at_spec(
                i,
                j,
            ) == product_at(y, b.weight, i, j).add_spec(b.bias.data@[j]) by {
                assert(t.at_spec(i, j) == product_at(x, a.weight, i, j).add_spec(a.bias.data@[j]));
            }
        },
        _ => {},
    }
}

proof fn lemma_norm(
    a: LayerNorm,
    b: LayerNorm,
    n: int,
    v: NormView,
    x: Tensor,
    y: Tensor,
    t: Tensor,
    s: Tensor,
)
    requires
        norm_shows(a, n, v),
        norm_shows(b, n, v),
        same_tensor(x, y),
        same_tensor(t, s),
        a.maps(x, t),
    ensures
        b.maps(y, s),
{
}

proof fn lemma_table(
    a: Embedding,
    b: Embedding,
    v: TableView,
    x: Tensor,
    y: Tensor,
    t: Tensor,
    s: Tensor,
)
    requires
        layer_shows(AnyLayer::Embedding(a), LayerView::Embedding(v)),
        layer_shows(AnyLayer::Embedding(b), LayerView::Embedding(v)),
        same_tensor(x, y),
        same_tensor(t, s),
    ensures
        a.knows_all(x) == b.knows_all(y),
        a.maps(x, t) ==> b.maps(y, s),
{
    assert forall|i: int| #[trigger]
        a.vector_of(token_of(x.data@, i), i % seq_len_of(x)) == b.vector_of(
            token_of(y.data@, i),
            i % seq_len_of(y),
        ) by {
        assert(a.vector_of(token_of(x.data@, i), i % seq_len_of(x)) =~= b.vector_of(
            token_of(y.data@, i),
            i % seq_len_of(y),
        ));
    }
    if a.maps(x, t) {
        assert forall|i: int| 0 <= i < y.data@.len() implies #[trigger] row_of(
            s.data@,
            i,
            b.width as int,
        ) == b.vector_of(token_of(y.data@, i), i % seq_len_of(y)) by {
            assert(row_of(t.data@, i, a.width as int) == a.vector_of(
                token_of(x.data@, i),
                i % seq_len_of(x),
            ));
        }
    }
}

proof fn lemma_block<M: Math>(
    m: &M,
    a: TransformerBlock,
    b: TransformerBlock,
    v: BlockView,
    x: Tensor,
    y: Tensor,
    t: Tensor,
    s: Tensor,
)
    requires
        layer_shows(AnyLayer::Transformer(a), LayerView::Block(v)),
        layer_shows(AnyLayer::Transformer(b), LayerView::Block(v)),
        same_tensor(x, y),
        same_tensor(t, s),
        a.is_output(m, x, t),
    ensures
        b.is_output(m, y, s),
{
    let tr = choose|tr: BlockTrace| #[trigger] a.explains(m, x, tr, t);
    lemma_norm(a.ln1, b.ln1, v.width, v.ln1, x, y, tr.norm1, tr.norm1);
    lemma_linear(a.q_proj, b.q_proj, v.q, tr.norm1, tr.norm1, tr.q, tr.q);
    lemma_linear(a.k_proj, b.k_proj, v.k, tr.norm1, tr.norm1, tr.k, tr.k);
    lemma_linear(a.v_proj, b.v_proj, v.v, tr.norm1, tr.norm1, tr.v, tr.v);
    lemma_linear(a.out_proj, b.out_proj, v.o, tr.mixed, tr.mixed, tr.projected, tr.projected);
    lemma_norm(a.ln2, b.ln2, v.width, v.ln2, tr.mid, tr.mid, tr.norm2, tr.norm2);
    lemma_linear(a.ffn1, b.ffn1, v.f1, tr.norm2, tr.norm2, tr.hidden, tr.hidden);
    lemma_linear(a.ffn2, b.ffn2, v.f2, tr.active, tr.active, tr.widened, tr.widened);
    assert forall|r: int, h: int|
        0 <= r < y.shape@[0] && 0 <= h < b.heads implies #[trigger] b.attends(m, tr, r, h) by {
        assert(a.attends(m, tr, r, h));
    }
    assert(b.explains(m, y, tr, s));
}

/// Layers that show the same do the same.
proof fn lemma_alike<M: Math>(
    m: &M,
    a: AnyLayer,
    b: AnyLayer,
    v: LayerView,
    x: Tensor,
    y: Tensor,
    t: Tensor,
    s: Tensor,
)
    requires
        layer_shows(a, v),
        layer_shows(b, v),
        same_tensor(x, y),
        same_tensor(t, s),
        a.is_output(m, x, t),
    ensures
        b.is_output(m, y, s),
{
    match (a, b, v) {
        (AnyLayer::Linear(l), AnyLayer::Linear(k), LayerView::Linear(w)) => {
            lemma_linear(l, k, w, x, y, t, s);
        },
        (AnyLayer::LayerNorm(l), AnyLayer::LayerNorm(k), LayerView::LayerNorm(n, w)) => {
            lemma_norm(l, k, n, w, x, y, t, s);
        },
        (AnyLayer::Embedding(l), AnyLayer::Embedding(k), LayerView::Embedding(w)) => {
            lemma_table(l, k, w, x, y, t, s);
        },
        (AnyLayer::Transformer(l), AnyLayer::Transformer(k), LayerView::Block(w)) => {
            lemma_block(m, l, k, w, x, y, t, s);
        },
        _ => {},
    }
}

/// Layers that show the same refuse the same.
proof fn lemma_alike_refusal(
    a: AnyLayer,
    b: AnyLayer,
    v: LayerView,
    x: Tensor,
    y: Tensor,
    e: InferError,
)
    requires
        layer_shows(a, v),
        layer_shows(b, v),
        same_tensor(x, y),
        a.is_refusal(x, e),
    ensures
        b.is_refusal(y, e),
{
    match (a, b, v) {
        (AnyLayer::Embedding(l), AnyLayer::Embedding(k), LayerView::Embedding(w)) => {
            lemma_table(l, k, w, x, y, x, y);
        },
        _ => {},
    }
}

proof fn lemma_pipes_alike<M: Math>(
    m: &M,
    a: Seq<AnyLayer>,
    b: Seq<AnyLayer>,
    vs: Seq<LayerView>,
    n: nat,
    x: Tensor,
    y: Tensor,
    t: Tensor,
    s: Tensor,
)
    requires
        layers_show(a, vs),
        layers_show(b, vs),
        n <= a.len(),
        same_tensor(x, y),
        same_tensor(t, s),
        pipes(m, a, n, x, t),
    ensures
        pipes(m, b, n, y, s),
    decreases n,
{
    if n > 0 {
        let k = (n - 1) as nat;
        let mid = choose|mid: Tensor| pipes(m, a, k, x, mid) && #[trigger] a[n - 1].is_output(m, mid, t);
        lemma_pipes_alike(m, a, b, vs, k, x, y, mid, mid);
        assert(layer_shows(a[n - 1], vs[n - 1]) && layer_shows(b[n - 1], vs[n - 1]));
        lemma_alike(m, a[n - 1], b[n - 1], vs[n - 1], mid, mid, t, s);
        assert(b[n - 1].is_output(m, mid, s));
    }
}

proof fn lemma_stops_alike<M: Math>(
    m: &M,
    a: Seq<AnyLayer>,
    b: Seq<AnyLayer>,
    vs: Seq<LayerView>,
    x: Tensor,
    y: Tensor,
    e: InferError,
)
    requires
        layers_show(a, vs),
        layers_show(b, vs),
        same_tensor(x, y),
        stops(m, a, x, e),
    ensures
        stops(m, b, y, e),
{
    let (n, mid) = choose|n: int, mid: Tensor|
        0 <= n < a.len() && #[trigger] pipes(m, a, n as nat, x, mid) && a[n].is_refusal(mid, e);
    lemma_pipes_alike(m, a, b, vs, n as nat, x, y, mid, mid);
    assert(layer_shows(a[n], vs[n]) && layer_shows(b[n], vs[n]));
    lemma_alike_refusal(a[n], b[n], vs[n], mid, mid, e);
    assert(pipes(m, b, n as nat, y, mid));
}

/// Stacks that show the same layers do the same: what one makes of an input the
/// other may make of it, and what one refuses the other refuses.
pub proof fn stacks_that_show_the_same_do_the_same<M: Math>(
    m: &M,
    a: Seq<AnyLayer>,
    b: Seq<AnyLayer>,
    vs: Seq<LayerView>,
    x: Tensor,
)
    requires
        layers_show(a, vs),
        layers_show(b, vs),
    ensures
        forall|t: Tensor| #[trigger] pipes(m, a, a.len(), x, t) <==> pipes(m, b, b.len(), x, t),
        forall|e: InferError| #[trigger] stops(m, a, x, e) <==> stops(m, b, x, e),
{
    assert forall|t: Tensor| #[trigger] pipes(m, a, a.len(), x, t) <==> pipes(m, b, b.len(), x, t) by {
        if pipes(m, a, a.len(), x, t) {
            lemma_pipes_alike(m, a, b, vs, a.len(), x, x, t, t);
        }
        if pipes(m, b, b.len(), x, t) {
            lemma_pipes_alike(m, b, a, vs, b.len(), x, x, t, t);
        }
    }
    assert forall|e: InferError| #[trigger] stops(m, a, x, e) <==> stops(m, b, x, e) by {
        if stops(m, a, x, e) {
            lemma_stops_alike(m, a, b, vs, x, x, e);
        }
        if stops(m, b, x, e) {
            lemma_stops_alike(m, b, a, vs, x, x, e);
        }
    }
}

// ---------------------------------------------------------------------------
// What layers show
// ---------------------------------------------------------------------------

spec fn linear_view(l: Linear) -> LinearView {
    LinearView {
        rows: l.in_f as int,
        cols: l.out_f as int,
        weight: match l.quant {
            Some(w) => WeightView::Packed(w.kind, w.scales@, w.q@),
            None => WeightView::Plain(l.weight.data@),
        },
        bias: l.bias.data@,
    }
}

spec fn norm_view(l: LayerNorm) -> NormView {
    NormView { gamma: l.gamma.data@, beta: l.beta.data@ }
}

/// What a layer shows.
spec fn layer_view(l: AnyLayer) -> LayerView {
    match l {
        AnyLayer::Linear(l) => LayerView::Linear(linear_view(l)),
        AnyLayer::Activation(l) => LayerView::Activation(l.kind),
        AnyLayer::Flatten(_) => LayerView::Flatten,
        AnyLayer::Embedding(l) => LayerView::Embedding(
            TableView {
                vocab: l.vocab as int,
                max_seq: l.max_seq as int,
                width: l.width as int,
                tokens: l.token_weight.data@,
                places: l.pos_weight.data@,
            },
        ),
        AnyLayer::LayerNorm(l) => LayerView::LayerNorm(l.width as int, norm_view(l)),
        AnyLayer::Transformer(t) => LayerView::Block(
            BlockView {
                context: t.context as int,
                heads: t.heads as int,
                width: t.width as int,
                hidden: t.ffn1.out_f as int,
                ln1: norm_view(t.ln1),
                q: linear_view(t.q_proj),
                k: linear_view(t.k_proj),
                v: linear_view(t.v_proj),
                o: linear_view(t.out_proj),
                ln2: norm_view(t.ln2),
                f1: linear_view(t.ffn1),
                f2: linear_view(t.ffn2),
            },
        ),
    }
}

/// A layer that is in order shows something.
proof fn lemma_shows(s: Seq<AnyLayer>)
    requires
        forall|i: int| 0 <= i < s.len() ==> (#[trigger] s[i]).wf(),
    ensures
        layers_show(s, s.map_values(|l: AnyLayer| layer_view(l))),
{
    let vs = s.map_values(|l: AnyLayer| layer_view(l));
    assert forall|i: int| 0 <= i < s.len() implies layer_shows(#[trigger] s[i], vs[i]) by {
        assert(s[i].wf());
    }
}

// ---------------------------------------------------------------------------
// Joined stacks
// ---------------------------------------------------------------------------

/// What the first layers make depends on them alone.
proof fn lemma_first<M: Math>(
    m: &M,
    a: Seq<AnyLayer>,
    b: Seq<AnyLayer>,
    n: nat,
    x: Tensor,
    t: Tensor,
)
    requires
        n <= a.len(),
    ensures
        pipes(m, a + b, n, x, t) == pipes(m, a, n, x, t),
    decreases n,
{
    if n > 0 {
        let k = (n - 1) as nat;
        assert((a + b)[n - 1] == a[n - 1]);
        if pipes(m, a + b, n, x, t) {
            let mid = choose|mid: Tensor|
                pipes(m, a + b, k, x, mid) && #[trigger] (a + b)[n - 1].is_output(m, mid, t);
            lemma_first(m, a, b, k, x, mid);
            assert(a[n - 1].is_output(m, mid, t));
        }
        if pipes(m, a, n, x, t) {
            let mid = choose|mid: Tensor|
                pipes(m, a, k, x, mid) && #[trigger] a[n - 1].is_output(m, mid, t);
            lemma_first(m, a, b, k, x, mid);
            assert((a + b)[n - 1].is_output(m, mid, t));
        }
    }
}

/// What joined stacks make, the second makes of what the first makes.
proof fn lemma_parted<M: Math>(
    m: &M,
    a: Seq<AnyLayer>,
    b: Seq<AnyLayer>,
    n: nat,
    x: Tensor,
    t: Tensor,
) -> (mid: Tensor)
    requires
        n <= b.len(),
        pipes(m, a + b, a.len() + n, x, t),
    ensures
        pipes(m, a, a.len(), x, mid),
        pipes(m, b, n, mid, t),
    decreases n,
{
    if n == 0 {
        lemma_first(m, a, b, a.len(), x, t);
        t
    } else {
        let k = (n - 1) as nat;
        let all = a.len() + n;
        assert((all - 1) as nat == a.len() + k);
        assert((a + b)[all - 1] == b[n - 1]);
        let last = choose|last: Tensor|
            pipes(m, a + b, (all - 1) as nat, x, last) && #[trigger] (a + b)[all - 1].is_output(
                m,
                last,
                t,
            );
        let mid = lemma_parted(m, a, b, k, x, last);
        assert(b[n - 1].is_output(m, last, t));
        mid
    }
}

/// What the second stack makes of what the first makes, joined stacks make.
proof fn lemma_joined<M: Math>(
    m: &M,
    a: Seq<AnyLayer>,
    b: Seq<AnyLayer>,
    n: nat,
    x: Tensor,
    mid: Tensor,
    t: Tensor,
)
    requires
        forall|i: int| 0 <= i < a.len() ==> (#[trigger] a[i]).wf(),
        n <= b.len(),
        pipes(m, a, a.len(), x, mid),
        pipes(m, b, n, mid, t),
    ensures
        pipes(m, a + b, a.len() + n, x, t),
    decreases n,
{
    if n == 0 {
        lemma_shows(a);
        lemma_pipes_alike(
            m,
            a,
            a,
            a.map_values(|l: AnyLayer| layer_view(l)),
            a.len(),
            x,
            x,
            mid,
            t,
        );
        lemma_first(m, a, b, a.len(), x, t);
    } else {
        let k = (n - 1) as nat;
        let all = a.len() + n;
        let last = choose|last: Tensor|
            pipes(m, b, k, mid, last) && #[trigger] b[n - 1].is_output(m, last, t);
        lemma_joined(m, a, b, k, x, mid, last);
        assert((all - 1) as nat == a.len() + k);
        assert((a + b)[all - 1] == b[n - 1]);
        assert((a + b)[all - 1].is_output(m, last, t));
    }
}

/// Joined stacks run one after the other: the second makes its output of what the
/// first makes, and the first refusal of either ends the run.
pub proof fn joined_stacks_run_one_after_the_other<M: Math>(
    m: &M,
    a: Seq<AnyLayer>,
    b: Seq<AnyLayer>,
    x: Tensor,
    t: Tensor,
    e: InferError,
)
    requires
        forall|i: int| 0 <= i < a.len() ==> (#[trigger] a[i]).wf(),
    ensures
        pipes(m, a + b, (a + b).len(), x, t) <==> exists|mid: Tensor| #[trigger]
            pipes(m, a, a.len(), x, mid) && pipes(m, b, b.len(), mid, t),
        stops(m, a + b, x, e) <==> stops(m, a, x, e) || exists|mid: Tensor| #[trigger]
            pipes(m, a, a.len(), x, mid) && stops(m, b, mid, e),
{
    if pipes(m, a + b, (a + b).len(), x, t) {
        let mid = lemma_parted(m, a, b, b.len(), x, t);
        assert(pipes(m, a, a.len(), x, mid));
    }
    if exists|mid: Tensor| #[trigger] pipes(m, a, a.len(), x, mid) && pipes(m, b, b.len(), mid, t) {
        let mid = choose|mid: Tensor| #[trigger]
            pipes(m, a, a.len(), x, mid) && pipes(m, b, b.len(), mid, t);
        lemma_joined(m, a, b, b.len(), x, mid, t);
    }
    if stops(m, a + b, x, e) {
        let (n, last) = choose|n: int, last: Tensor|
            0 <= n < (a + b).len() && #[trigger] pipes(m, a + b, n as nat, x, last) && (a
                + b)[n].is_refusal(last, e);
        if n < a.len() {
            lemma_first(m, a, b, n as nat, x, last);
            assert(pipes(m, a, n as nat, x, last) && a[n].is_refusal(last, e));
        } else {
            let k = (n - a.len()) as nat;
            assert(a.len() + k == n as nat);
            let mid = lemma_parted(m, a, b, k, x, last);
            assert(pipes(m, b, k as int as nat, mid, last) && b[k as int].is_refusal(last, e));
            assert(stops(m, b, mid, e));
            assert(pipes(m, a, a.len(), x, mid));
        }
    }
    if stops(m, a, x, e) {
        let (n, last) = choose|n: int, last: Tensor|
            0 <= n < a.len() && #[trigger] pipes(m, a, n as nat, x, last) && a[n].is_refusal(last, e);
        lemma_first(m, a, b, n as nat, x, last);
        assert(pipes(m, a + b, n as nat, x, last) && (a + b)[n].is_refusal(last, e));
    }
    if exists|mid: Tensor| #[trigger] pipes(m, a, a.len(), x, mid) && stops(m, b, mid, e) {
        let mid = choose|mid: Tensor| #[trigger]
            pipes(m, a, a.len(), x, mid) && stops(m, b, mid, e);
        let (n, last) = choose|n: int, last: Tensor|
            0 <= n < b.len() && #[trigger] pipes(m, b, n as nat, mid, last) && b[n].is_refusal(
                last,
                e,
            );
        lemma_joined(m, a, b, n as nat, x, mid, last);
        let k = a.len() + n;
        assert(k as nat == a.len() + n as nat);
        assert(pipes(m, a + b, k as nat, x, last) && (a + b)[k].is_refusal(last, e));
    }
}

/// An empty stack gives every input back and refuses none.
pub proof fn empty_stacks_change_nothing<M: Math>(m: &M, x: Tensor, t: Tensor, e: InferError)
    ensures
        pipes(m, Seq::empty(), 0, x, t) <==> same_tensor(t, x),
        !stops(m, Seq::empty(), x, e),
{
}

} // verus!
