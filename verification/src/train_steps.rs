//! Sums, clipping, steps and int8 grids over the list of a model's parameters.
use crate::decoder::LlamaModel;
use crate::float::F32;
use crate::llm::LlamaBlock;
use crate::math::{is_norm, Math};
use crate::ops::{append_row, row_of};
use crate::optim::{is_clipped, scaled, times, Adam};
use crate::quant::{fake_quantize_int8_per_channel, quantizable, snapped};
use crate::tensor::copy_f32;
use crate::train_attention::rows_view;
use crate::train_params::same_lens;
use vstd::prelude::*;

verus! {

// ---------------------------------------------------------------------------
// Sums
// ---------------------------------------------------------------------------

/// The sum of two lists, element by element.
pub open spec fn plus(a: Seq<Seq<F32>>, b: Seq<Seq<F32>>) -> Seq<Seq<F32>> {
    Seq::new(
        a.len(),
        |i: int| Seq::new(a[i].len(), |j: int| a[i][j].add_spec(b[i][j])),
    )
}

/// A list with the lists `from` up to `to` of `gs` added to it, one after the
/// other.
pub open spec fn folded(
    init: Seq<Seq<F32>>,
    gs: Seq<Seq<Seq<F32>>>,
    from: int,
    to: int,
) -> Seq<Seq<F32>>
    decreases to - from,
{
    if to <= from {
        init
    } else {
        plus(folded(init, gs, from, to - 1), gs[to - 1])
    }
}

/// Each element of a list times a factor.
pub open spec fn times_all(a: Seq<Seq<F32>>, f: F32) -> Seq<Seq<F32>> {
    a.map_values(|s: Seq<F32>| times(s, f))
}

/// Adds a list to another.
pub(crate) fn add_parts(a: &mut Vec<Vec<F32>>, b: &Vec<Vec<F32>>)
    requires
        same_lens(rows_view(b@), rows_view(old(a)@)),
    ensures
        rows_view(final(a)@) == plus(rows_view(old(a)@), rows_view(b@)),
        same_lens(rows_view(final(a)@), rows_view(old(a)@)),
{
    let ghost a0 = rows_view(a@);
    let ghost bv = rows_view(b@);
    let ghost goal = plus(a0, bv);
    let mut i: usize = 0;
    while i < b.len()
        invariant
            i <= b@.len() == a@.len() == a0.len(),
            bv == rows_view(b@),
            same_lens(bv, a0),
            goal == plus(a0, bv),
            forall|k: int| 0 <= k < i ==> (#[trigger] a@[k])@ == goal[k],
            forall|k: int| i <= k < a0.len() ==> (#[trigger] a@[k])@ == a0[k],
        decreases b@.len() - i,
    {
        assert(bv[i as int].len() == a0[i as int].len());
        assert(a@[i as int]@ == a0[i as int]);
        let sum: Vec<F32> = sum_of_lists(a[i].as_slice(), b[i].as_slice());
        a.set(i, sum);
        i = i + 1;
    }
    assert(rows_view(a@) =~= goal);
}

fn sum_of_lists(a: &[F32], b: &[F32]) -> (r: Vec<F32>)
    requires
        a@.len() == b@.len(),
    ensures
        r@ == Seq::new(a@.len(), |j: int| a@[j].add_spec(b@[j])),
{
    let mut r: Vec<F32> = Vec::with_capacity(a.len());
    let mut i: usize = 0;
    while i < a.len()
        invariant
            i <= a@.len() == b@.len(),
            r@.len() == i,
            forall|k: int| 0 <= k < i ==> #[trigger] r@[k] == a@[k].add_spec(b@[k]),
        decreases a@.len() - i,
    {
        r.push(a[i].add(b[i]));
        i = i + 1;
    }
    assert(r@ =~= Seq::new(a@.len(), |j: int| a@[j].add_spec(b@[j])));
    r
}

/// Each element of a list times a factor.
pub(crate) fn scale_parts(a: &Vec<Vec<F32>>, f: F32) -> (r: Vec<Vec<F32>>)
    ensures
        rows_view(r@) == times_all(rows_view(a@), f),
        same_lens(rows_view(r@), rows_view(a@)),
{
    let mut r: Vec<Vec<F32>> = Vec::new();
    let mut i: usize = 0;
    while i < a.len()
        invariant
            i <= a@.len(),
            r@.len() == i,
            forall|k: int| 0 <= k < i ==> (#[trigger] r@[k])@ == times(a@[k]@, f),
        decreases a@.len() - i,
    {
        r.push(scaled(a[i].as_slice(), f));
        i = i + 1;
    }
    assert(rows_view(r@) =~= times_all(rows_view(a@), f));
    r
}

// ---------------------------------------------------------------------------
// Clipping
// ---------------------------------------------------------------------------

/// The numbers of the first `n` parts, one behind the other.
pub open spec fn joined_parts(p: Seq<Seq<F32>>, n: nat) -> Seq<F32>
    decreases n,
{
    if n == 0 {
        Seq::empty()
    } else {
        joined_parts(p, (n - 1) as nat) + p[n - 1]
    }
}

/// More parts hold no fewer numbers.
pub(crate) proof fn lemma_joined_grows(p: Seq<Seq<F32>>, n: nat, k: nat)
    requires
        n <= k,
    ensures
        joined_parts(p, n).len() <= joined_parts(p, k).len(),
    decreases k,
{
    if n < k {
        lemma_joined_grows(p, n, (k - 1) as nat);
    }
}

/// `norm` is the norm of all numbers of a list.
pub open spec fn is_parts_norm<M: Math>(math: &M, p: Seq<Seq<F32>>, norm: F32) -> bool {
    exists|v: Vec<F32>| v@ == joined_parts(p, p.len()) && #[trigger] is_norm(math, v, norm)
}

/// Gradients of a norm, scaled down to a limit.
pub open spec fn clipped(p: Seq<Seq<F32>>, norm: F32, max_norm: F32) -> Seq<Seq<F32>> {
    if is_clipped(norm, max_norm) {
        times_all(p, max_norm.div_spec(norm))
    } else {
        p
    }
}

/// The numbers of all parts, one behind the other.
pub(crate) fn join_parts(p: &Vec<Vec<F32>>) -> (all: Vec<F32>)
    ensures
        all@ == joined_parts(rows_view(p@), p@.len()),
{
    let ghost pv = rows_view(p@);
    let mut all: Vec<F32> = Vec::new();
    let mut i: usize = 0;
    while i < p.len()
        invariant
            pv == rows_view(p@),
            i <= p@.len(),
            all@ == joined_parts(pv, i as nat),
        decreases p@.len() - i,
    {
        append_row(&mut all, p[i].as_slice());
        proof {
            assert((i + 1 - 1) as nat == i as nat);
        }
        i = i + 1;
    }
    all
}

/// Scales gradients down so that their norm is no more than `max_norm`; the norm
/// that they had, and the gradients.
pub(crate) fn clip_parts<M: Math>(math: &M, p: Vec<Vec<F32>>, max_norm: F32) -> (r: (
    F32,
    Vec<Vec<F32>>,
))
    ensures
        is_parts_norm(math, rows_view(p@), r.0),
        rows_view(r.1@) == clipped(rows_view(p@), r.0, max_norm),
        same_lens(rows_view(r.1@), rows_view(p@)),
{
    let all: Vec<F32> = join_parts(&p);
    let norm: F32 = math.norm(&all);
    assert(is_norm(math, all, norm));
    if F32::zero().lt(max_norm) && norm.is_finite() && max_norm.lt(norm) {
        let r: Vec<Vec<F32>> = scale_parts(&p, max_norm.div(norm));
        (norm, r)
    } else {
        (norm, p)
    }
}

// ---------------------------------------------------------------------------
// Kinds of parameters
// ---------------------------------------------------------------------------

/// Part `k` of a block is a weight matrix.
pub open spec fn block_matrix(k: int) -> bool {
    k == 1 || k == 3 || k == 5 || k == 7 || k == 10 || k == 12 || k == 14
}

/// The rows of the matrix that part `k` of a block is.
pub open spec fn block_rows(b: LlamaBlock, k: int) -> usize {
    if k == 1 {
        b.attn.wq.in_f
    } else if k == 3 {
        b.attn.wk.in_f
    } else if k == 5 {
        b.attn.wv.in_f
    } else if k == 7 {
        b.attn.wo.in_f
    } else if k == 10 {
        b.ffn.gate.in_f
    } else if k == 12 {
        b.ffn.up.in_f
    } else if k == 14 {
        b.ffn.down.in_f
    } else {
        1
    }
}

/// Part `i` of a model is a matrix: the token vectors, or weights.
pub open spec fn part_is_matrix(m: LlamaModel, i: int) -> bool {
    let n = m.blocks@.len();
    if i == 0 {
        true
    } else if i < 1 + 16 * n {
        block_matrix((i - 1) % 16)
    } else {
        i == 2 + 16 * n
    }
}

/// The rows of part `i` of a model; one where it is no matrix.
pub open spec fn part_rows(m: LlamaModel, i: int) -> usize {
    let n = m.blocks@.len();
    if i == 0 {
        m.cfg.vocab_size
    } else if i < 1 + 16 * n {
        block_rows(m.blocks@[(i - 1) / 16], (i - 1) % 16)
    } else if i == 2 + 16 * n {
        m.lm_head.in_f
    } else {
        1
    }
}

fn block_meta(b: &LlamaBlock, k: usize) -> (r: (usize, bool))
    ensures
        r.0 == block_rows(*b, k as int),
        r.1 == block_matrix(k as int),
{
    if k == 1 {
        (b.attn.wq.in_f, true)
    } else if k == 3 {
        (b.attn.wk.in_f, true)
    } else if k == 5 {
        (b.attn.wv.in_f, true)
    } else if k == 7 {
        (b.attn.wo.in_f, true)
    } else if k == 10 {
        (b.ffn.gate.in_f, true)
    } else if k == 12 {
        (b.ffn.up.in_f, true)
    } else if k == 14 {
        (b.ffn.down.in_f, true)
    } else {
        (1, false)
    }
}

/// The rows of part `i` of a model, and whether it is a matrix.
pub(crate) fn part_meta(m: &LlamaModel, i: usize) -> (r: (usize, bool))
    ensures
        r.0 == part_rows(*m, i as int),
        r.1 == part_is_matrix(*m, i as int),
{
    if i == 0 {
        return (m.cfg.vocab_size, true);
    }
    let l: usize = (i - 1) / 16;
    let k: usize = (i - 1) % 16;
    if l < m.blocks.len() {
        return block_meta(&m.blocks[l], k);
    }
    if l == m.blocks.len() && k == 1 {
        (m.lm_head.in_f, true)
    } else {
        (1, false)
    }
}

// ---------------------------------------------------------------------------
// Int8 grids
// ---------------------------------------------------------------------------

/// `b` is `a` with each of `channels` rows on its own int8 grid, where `a` can be
/// quantized so.
pub open spec fn is_snapped(a: Seq<F32>, b: Seq<F32>, channels: usize) -> bool {
    if channels != 0 && a.len() % channels as nat == 0 && quantizable(a) {
        let row = a.len() as int / channels as int;
        &&& b.len() == a.len()
        &&& forall|r: int|
            0 <= r < channels ==> #[trigger] row_of(b, r, row) == snapped(row_of(a, r, row))
    } else {
        b == a
    }
}

/// `b` holds the parameters `a` of a model with the matrices on int8 grids.
pub open spec fn is_quantized(m: LlamaModel, a: Seq<Seq<F32>>, b: Seq<Seq<F32>>) -> bool {
    &&& b.len() == a.len()
    &&& forall|i: int|
        0 <= i < a.len() ==> if part_is_matrix(m, i) {
            is_snapped(
                a[i],
                #[trigger] b[i],
                if part_rows(m, i) < 1 {
                    1
                } else {
                    part_rows(m, i)
                },
            )
        } else {
            b[i] == a[i]
        }
}

/// Moves the matrices of a model onto int8 grids.
pub(crate) fn quantize_parts(m: &LlamaModel, p: &Vec<Vec<F32>>) -> (r: Vec<Vec<F32>>)
    ensures
        is_quantized(*m, rows_view(p@), rows_view(r@)),
        same_lens(rows_view(r@), rows_view(p@)),
{
    let ghost a = rows_view(p@);
    let mut r: Vec<Vec<F32>> = Vec::new();
    let mut i: usize = 0;
    while i < p.len()
        invariant
            a == rows_view(p@),
            i <= p@.len(),
            r@.len() == i,
            forall|k: int| 0 <= k < i ==> (#[trigger] r@[k])@.len() == a[k].len(),
            forall|k: int|
                0 <= k < i ==> if part_is_matrix(*m, k) {
                    is_snapped(
                        a[k],
                        (#[trigger] r@[k])@,
                        if part_rows(*m, k) < 1 {
                            1
                        } else {
                            part_rows(*m, k)
                        },
                    )
                } else {
                    r@[k]@ == a[k]
                },
        decreases p@.len() - i,
    {
        let (rows, is_matrix) = part_meta(m, i);
        let mut data: Vec<F32> = copy_f32(p[i].as_slice());
        if is_matrix {
            let channels: usize = if rows < 1 {
                1
            } else {
                rows
            };
            let _done: bool = fake_quantize_int8_per_channel(&mut data, channels);
        }
        r.push(data);
        i = i + 1;
    }
    proof {
        let b = rows_view(r@);
        assert forall|k: int| 0 <= k < a.len() implies if part_is_matrix(*m, k) {
            is_snapped(
                a[k],
                #[trigger] b[k],
                if part_rows(*m, k) < 1 {
                    1
                } else {
                    part_rows(*m, k)
                },
            )
        } else {
            b[k] == a[k]
        } by {
            assert(b[k] == r@[k]@);
        }
        assert forall|k: int| 0 <= k < b.len() implies (#[trigger] b[k]).len() == a[k].len() by {
            assert(b[k] == r@[k]@);
        }
    }
    r
}

// ---------------------------------------------------------------------------
// A step of all parameters
// ---------------------------------------------------------------------------

/// The settings for a parameter: the rate of the step, and weight decay for
/// matrices alone.
pub open spec fn settings_for(adam: Adam, lr: F32, decay: F32, is_matrix: bool) -> Adam {
    Adam {
        lr,
        beta1: adam.beta1,
        beta2: adam.beta2,
        eps: adam.eps,
        weight_decay: if is_matrix {
            decay
        } else {
            F32 { bits: 0 }
        },
    }
}

/// Parameters and moments.
pub struct Stepped {
    pub p: Vec<Vec<F32>>,
    pub m: Vec<Vec<F32>>,
    pub v: Vec<Vec<F32>>,
}

/// The parameters and moments behind a step, part by part.
pub open spec fn all_stepped(
    model: LlamaModel,
    adam: Adam,
    lr: F32,
    decay: F32,
    bc1: F32,
    bc2: F32,
    g: Seq<Seq<F32>>,
    before: (Seq<Seq<F32>>, Seq<Seq<F32>>, Seq<Seq<F32>>),
    after: (Seq<Seq<F32>>, Seq<Seq<F32>>, Seq<Seq<F32>>),
) -> bool {
    &&& after.0.len() == before.0.len()
    &&& after.1.len() == before.1.len()
    &&& after.2.len() == before.2.len()
    &&& forall|i: int|
        0 <= i < before.0.len() ==> settings_for(
            adam,
            lr,
            decay,
            part_is_matrix(model, i),
        ).stepped(
            bc1,
            bc2,
            g[i],
            (before.0[i], before.1[i], before.2[i]),
            (#[trigger] after.0[i], after.1[i], after.2[i]),
            g[i].len() as int,
        )
}

/// One step of all parameters.
pub(crate) fn step_parts(
    model: &LlamaModel,
    adam: &Adam,
    lr: F32,
    decay: F32,
    bc1: F32,
    bc2: F32,
    g: &Vec<Vec<F32>>,
    p: Vec<Vec<F32>>,
    m: Vec<Vec<F32>>,
    v: Vec<Vec<F32>>,
) -> (r: Stepped)
    requires
        same_lens(rows_view(g@), rows_view(p@)),
        same_lens(rows_view(m@), rows_view(p@)),
        same_lens(rows_view(v@), rows_view(p@)),
    ensures
        all_stepped(
            *model,
            *adam,
            lr,
            decay,
            bc1,
            bc2,
            rows_view(g@),
            (rows_view(p@), rows_view(m@), rows_view(v@)),
            (rows_view(r.p@), rows_view(r.m@), rows_view(r.v@)),
        ),
        same_lens(rows_view(r.p@), rows_view(p@)),
        same_lens(rows_view(r.m@), rows_view(p@)),
        same_lens(rows_view(r.v@), rows_view(p@)),
{
    let ghost gv = rows_view(g@);
    let ghost p0 = rows_view(p@);
    let ghost m0 = rows_view(m@);
    let ghost v0 = rows_view(v@);
    let mut np: Vec<Vec<F32>> = Vec::new();
    let mut nm: Vec<Vec<F32>> = Vec::new();
    let mut nv: Vec<Vec<F32>> = Vec::new();
    let mut i: usize = 0;
    while i < p.len()
        invariant
            gv == rows_view(g@),
            p0 == rows_view(p@),
            m0 == rows_view(m@),
            v0 == rows_view(v@),
            same_lens(gv, p0),
            same_lens(m0, p0),
            same_lens(v0, p0),
            i <= p@.len(),
            np@.len() == i,
            nm@.len() == i,
            nv@.len() == i,
            forall|k: int|
                0 <= k < i ==> settings_for(
                    *adam,
                    lr,
                    decay,
                    part_is_matrix(*model, k),
                ).stepped(
                    bc1,
                    bc2,
                    gv[k],
                    (p0[k], m0[k], v0[k]),
                    ((#[trigger] np@[k])@, nm@[k]@, nv@[k]@),
                    gv[k].len() as int,
                ),
        decreases p@.len() - i,
    {
        let (_rows, is_matrix) = part_meta(model, i);
        let settings: Adam = Adam {
            lr,
            beta1: adam.beta1,
            beta2: adam.beta2,
            eps: adam.eps,
            weight_decay: if is_matrix {
                decay
            } else {
                F32::zero()
            },
        };
        proof {
            assert(gv[i as int].len() == p0[i as int].len());
            assert(m0[i as int].len() == p0[i as int].len());
            assert(v0[i as int].len() == p0[i as int].len());
        }
        let mut a: Vec<F32> = copy_f32(p[i].as_slice());
        let mut b: Vec<F32> = copy_f32(m[i].as_slice());
        let mut c: Vec<F32> = copy_f32(v[i].as_slice());
        settings.step_numbers(bc1, bc2, &mut a, g[i].as_slice(), &mut b, &mut c);
        np.push(a);
        nm.push(b);
        nv.push(c);
        i = i + 1;
    }
    proof {
        let (a, b, c) = (rows_view(np@), rows_view(nm@), rows_view(nv@));
        assert forall|k: int| 0 <= k < p0.len() implies settings_for(
            *adam,
            lr,
            decay,
            part_is_matrix(*model, k),
        ).stepped(
            bc1,
            bc2,
            gv[k],
            (p0[k], m0[k], v0[k]),
            (#[trigger] a[k], b[k], c[k]),
            gv[k].len() as int,
        ) by {
            assert(a[k] == np@[k]@ && b[k] == nm@[k]@ && c[k] == nv@[k]@);
        }
        lemma_stepped_lens(
            *model,
            *adam,
            lr,
            decay,
            bc1,
            bc2,
            gv,
            (p0, m0, v0),
            (a, b, c),
        );
    }
    Stepped { p: np, m: nm, v: nv }
}

/// A step keeps all sizes.
proof fn lemma_stepped_lens(
    model: LlamaModel,
    adam: Adam,
    lr: F32,
    decay: F32,
    bc1: F32,
    bc2: F32,
    g: Seq<Seq<F32>>,
    before: (Seq<Seq<F32>>, Seq<Seq<F32>>, Seq<Seq<F32>>),
    after: (Seq<Seq<F32>>, Seq<Seq<F32>>, Seq<Seq<F32>>),
)
    requires
        all_stepped(model, adam, lr, decay, bc1, bc2, g, before, after),
        same_lens(before.1, before.0),
        same_lens(before.2, before.0),
    ensures
        same_lens(after.0, before.0),
        same_lens(after.1, before.0),
        same_lens(after.2, before.0),
{
    assert forall|i: int| 0 <= i < before.0.len() implies (#[trigger] after.0[i]).len()
        == before.0[i].len() && after.1[i].len() == before.0[i].len() && after.2[i].len()
        == before.0[i].len() by {
        let (b1, b2) = (before.1, before.2);
        assert(b1[i].len() == before.0[i].len());
        assert(b2[i].len() == before.0[i].len());
        assert(settings_for(adam, lr, decay, part_is_matrix(model, i)).stepped(
            bc1,
            bc2,
            g[i],
            (before.0[i], before.1[i], before.2[i]),
            (after.0[i], after.1[i], after.2[i]),
            g[i].len() as int,
        ));
    }
    assert forall|i: int| 0 <= i < before.0.len() implies (#[trigger] after.1[i]).len()
        == before.0[i].len() by {
        assert(after.0[i].len() == before.0[i].len());
    }
    assert forall|i: int| 0 <= i < before.0.len() implies (#[trigger] after.2[i]).len()
        == before.0[i].len() by {
        assert(after.0[i].len() == before.0[i].len());
    }
}

} // verus!
