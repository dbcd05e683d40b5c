//! Checkpoints of training: the parameters, the moments, the step and the state
//! of the generator.
use crate::bytes::{
    get_u32, get_u64, le32, le64, lemma_le32, lemma_le64, lemma_stands_in, lemma_stands_split,
    push_u32, push_u64, put32, put64, stands_at,
};
use crate::decoder::LlamaConfig;
use crate::error::{InferError, Result};
use crate::finf_weights::{
    floats_at, lemma_floats_are_read, lemma_floats_len, push_floats, push_size, put_floats,
    put_size, read_floats,
};
use crate::float::F32;
use crate::llm_train::{
    lemma_loaded_suits, lemma_same_lens_chain, lemma_same_self, lemma_still_suits,
    lemma_still_trains, LlamaTrainer,
};
use crate::llm::LlamaBlock;
use crate::rng::Rng;
use crate::train_attention::rows_view;
use crate::train_block::block_is_plain;
use crate::train_model::block_configured;
use crate::train_params::{
    block_part, lemma_suits, load_model, model_parts, model_parts_exec, same_lens, same_model,
};
use crate::train_steps::{join_parts, joined_parts, lemma_joined_grows};
use vstd::prelude::*;

verus! {

/// The bytes before the parameters.
pub const HEADER_LEN: usize = 53;

// ---------------------------------------------------------------------------
// Writing
// ---------------------------------------------------------------------------

/// The four bytes that a checkpoint begins with.
pub open spec fn magic() -> Seq<u8> {
    seq![0x46u8, 0x4cu8, 0x43u8, 0x4bu8]
}

/// The sizes of a model, in the order of a checkpoint.
pub open spec fn shape_of(c: LlamaConfig) -> Seq<usize> {
    seq![
        c.vocab_size,
        c.model_dim,
        c.n_layers,
        c.n_heads,
        c.n_kv_heads,
        c.head_dim,
        c.ffn_dim,
    ]
}

/// The bytes of the first `n` sizes.
pub open spec fn put_shape(s: Seq<usize>, n: nat) -> Seq<u8>
    decreases n,
{
    if n == 0 {
        Seq::empty()
    } else {
        put_shape(s, (n - 1) as nat) + put_size(s[n - 1] as int)
    }
}

/// All numbers of a list.
pub open spec fn flat(p: Seq<Seq<F32>>) -> Seq<F32> {
    joined_parts(p, p.len())
}

/// The bytes of the settings of a checkpoint.
pub open spec fn put_state(qat: bool, step: u64, state: u64) -> Seq<u8> {
    seq![
        if qat {
            1u8
        } else {
            0u8
        },
    ] + put64(step as int) + put64(state as int)
}

/// The bytes of a checkpoint.
#[verifier::opaque]
pub open spec fn checkpoint_bytes(t: LlamaTrainer, state: u64) -> Seq<u8> {
    magic() + put32(1) + put_shape(shape_of(t.model.cfg), 7) + put_state(t.qat, t.step_t, state)
        + put_floats(flat(model_parts(t.model))) + put_floats(flat(t.m.parts())) + put_floats(
        flat(t.v.parts()),
    )
}

fn shape_exec(c: &LlamaConfig) -> (s: Vec<usize>)
    ensures
        s@ == shape_of(*c),
{
    let mut s: Vec<usize> = Vec::new();
    s.push(c.vocab_size);
    s.push(c.model_dim);
    s.push(c.n_layers);
    s.push(c.n_heads);
    s.push(c.n_kv_heads);
    s.push(c.head_dim);
    s.push(c.ffn_dim);
    assert(s@ =~= shape_of(*c));
    s
}

impl LlamaTrainer {
    /// The state of the training, and of the generator, as bytes.
    pub fn save_checkpoint(&self, rng: &Rng) -> (out: Vec<u8>)
        ensures
            out@ == checkpoint_bytes(*self, rng@),
    {
        let mut out: Vec<u8> = Vec::new();
        out.push(0x46);
        out.push(0x4c);
        out.push(0x43);
        out.push(0x4b);
        assert(out@ =~= magic());
        push_u32(&mut out, 1);
        let shape: Vec<usize> = shape_exec(&self.model.cfg);
        let ghost head = out@;
        let mut i: usize = 0;
        assert(head + put_shape(shape@, 0) =~= head);
        while i < 7
            invariant
                i <= 7,
                shape@.len() == 7,
                out@ == head + put_shape(shape@, i as nat),
            decreases 7 - i,
        {
            let ghost before = put_shape(shape@, i as nat);
            push_size(&mut out, shape[i]);
            proof {
                assert((i + 1 - 1) as nat == i as nat);
                assert(head + before + put_size(shape@[i as int] as int) =~= head + (before
                    + put_size(shape@[i as int] as int)));
            }
            i = i + 1;
        }
        let ghost sized = out@;
        out.push(
            if self.qat {
                1
            } else {
                0
            },
        );
        push_u64(&mut out, self.step_t);
        push_u64(&mut out, rng.state());
        assert(out@ =~= sized + put_state(self.qat, self.step_t, rng@));
        push_floats(&mut out, join_parts(&model_parts_exec(&self.model)).as_slice());
        push_floats(&mut out, join_parts(&self.m.to_parts()).as_slice());
        push_floats(&mut out, join_parts(&self.v.to_parts()).as_slice());
        proof {
            reveal(checkpoint_bytes);
        }
        out
    }
}

// ---------------------------------------------------------------------------
// Reading
// ---------------------------------------------------------------------------

/// The sizes at byte 8 on are those of a model.
pub open spec fn shape_matches(b: Seq<u8>, s: Seq<usize>) -> bool {
    forall|i: int| 0 <= i < s.len() ==> le32(b, 8 + 4 * i) == #[trigger] s[i]
}

/// Bytes begin as a checkpoint of a model does.
pub open spec fn header_ok(b: Seq<u8>, c: LlamaConfig) -> bool {
    &&& b.len() >= 36
    &&& b.subrange(0, 4) == magic()
    &&& le32(b, 4) == 1
    &&& shape_matches(b, shape_of(c))
}

/// Lists of the sizes of `shape` at `p`.
pub open spec fn parts_at(b: Seq<u8>, p: int, shape: Seq<Seq<F32>>) -> Seq<Seq<F32>> {
    Seq::new(
        shape.len(),
        |i: int|
            floats_at(b, p + 4 * joined_parts(shape, i as nat).len(), shape[i].len() as int),
    )
}

/// What of a checkpoint is taken over by trainer `a`, as far as the bytes go.
pub open spec fn taken_over(b: Seq<u8>, a: LlamaTrainer, t: LlamaTrainer) -> bool {
    let shape = model_parts(a.model);
    let n = flat(shape).len() as int;
    let h = HEADER_LEN as int;
    let ok = header_ok(b, a.model.cfg);
    &&& t.adam == a.adam && t.weight_decay == a.weight_decay && t.grad_clip == a.grad_clip
    &&& t.lr_schedule == a.lr_schedule && t.dropout == a.dropout && t.grads == a.grads
    &&& t.qat == if ok && b.len() >= 37 {
        b[36] != 0
    } else {
        a.qat
    }
    &&& t.step_t == if ok && b.len() >= 45 {
        le64(b, 37)
    } else {
        a.step_t as int
    }
    &&& if ok && b.len() >= h + 4 * n {
        same_model(a.model, t.model) && model_parts(t.model) == parts_at(b, h, shape)
    } else {
        t.model == a.model
    }
    &&& if ok && b.len() >= h + 8 * n {
        t.m.parts() == parts_at(b, h + 4 * n, shape)
    } else {
        t.m == a.m
    }
    &&& if ok && b.len() >= h + 12 * n {
        t.v.parts() == parts_at(b, h + 8 * n, shape)
    } else {
        t.v == a.v
    }
}

/// Lists of the sizes of `shape` at `p`, if they are there.
fn read_parts(b: &[u8], p: usize, shape: &Vec<Vec<F32>>) -> (r: Result<(Vec<Vec<F32>>, usize)>)
    requires
        p <= b@.len(),
    ensures
        match r {
            Ok(t) => {
                &&& t.1 == p + 4 * flat(rows_view(shape@)).len()
                &&& t.1 <= b@.len()
                &&& rows_view(t.0@) == parts_at(b@, p as int, rows_view(shape@))
                &&& same_lens(rows_view(t.0@), rows_view(shape@))
            },
            Err(e) => e is Format && p + 4 * flat(rows_view(shape@)).len() > b@.len(),
        },
{
    let ghost sv = rows_view(shape@);
    let ghost goal = parts_at(b@, p as int, sv);
    let mut out: Vec<Vec<F32>> = Vec::new();
    let mut at: usize = p;
    let mut i: usize = 0;
    while i < shape.len()
        invariant
            sv == rows_view(shape@),
            goal == parts_at(b@, p as int, sv),
            i <= shape@.len(),
            p <= at <= b@.len(),
            at == p + 4 * joined_parts(sv, i as nat).len(),
            out@.len() == i,
            forall|k: int| 0 <= k < i ==> (#[trigger] out@[k])@ == goal[k],
        decreases shape@.len() - i,
    {
        proof {
            assert((i + 1 - 1) as nat == i as nat);
            lemma_joined_grows(sv, (i + 1) as nat, sv.len());
        }
        let (x, next) = match read_floats(b, at, shape[i].len()) {
            Ok(t) => t,
            Err(_) => {
                return Err(InferError::Format("checkpoint truncated".to_owned()));
            },
        };
        out.push(x);
        at = next;
        i = i + 1;
    }
    proof {
        assert(rows_view(out@) =~= goal);
        assert forall|k: int| 0 <= k < out@.len() implies (#[trigger] rows_view(out@)[k]).len()
            == sv[k].len() by {
            assert(out@[k]@ == goal[k]);
        }
    }
    Ok((out, at))
}

fn header_exec(b: &[u8], c: &LlamaConfig) -> (r: Result<()>)
    ensures
        r is Ok <==> header_ok(b@, *c),
        r is Err ==> r->Err_0 is Format,
{
    if b.len() < 36 {
        return Err(InferError::Format("checkpoint truncated".to_owned()));
    }
    if b[0] != 0x46 || b[1] != 0x4c || b[2] != 0x43 || b[3] != 0x4b {
        proof {
            let m = b@.subrange(0, 4);
            if m == magic() {
                assert(m[0] == magic()[0] && m[1] == magic()[1] && m[2] == magic()[2] && m[3]
                    == magic()[3]);
            }
        }
        return Err(InferError::Format("bad checkpoint magic".to_owned()));
    }
    assert(b@.subrange(0, 4) =~= magic());
    if get_u32(b, 4) != 1 {
        return Err(InferError::Format("unsupported checkpoint version".to_owned()));
    }
    let shape: Vec<usize> = shape_exec(c);
    let mut i: usize = 0;
    while i < 7
        invariant
            i <= 7,
            b@.len() >= 36,
            shape@ == shape_of(*c),
            forall|k: int| 0 <= k < i ==> le32(b@, 8 + 4 * k) == #[trigger] shape@[k],
        decreases 7 - i,
    {
        if get_u32(b, 8 + 4 * i) as usize != shape[i] {
            assert(le32(b@, 8 + 4 * i) != shape@[i as int]);
            return Err(
                InferError::Format("checkpoint shape does not match this model".to_owned()),
            );
        }
        i = i + 1;
    }
    Ok(())
}

impl LlamaTrainer {
    /// Takes over a checkpoint of a model of the same sizes; the generator that
    /// was saved. Where the bytes end too early, what was read before is taken
    /// over.
    pub fn load_checkpoint_into(&mut self, bytes: &[u8]) -> (r: Result<Rng>)
        requires
            old(self).wf(),
        ensures
            final(self).wf(),
            taken_over(bytes@, *old(self), *final(self)),
            r is Ok <==> header_ok(bytes@, old(self).model.cfg) && bytes@.len() >= HEADER_LEN + 12
                * flat(model_parts(old(self).model)).len(),
            match r {
                Ok(rng) => rng@ == le64(bytes@, 45),
                Err(e) => e is Format,
            },
    {
        let ghost a = *self;
        let ghost shape = model_parts(self.model);
        proof {
            lemma_same_self(self.model);
            lemma_suits(self.m, self.model);
            lemma_suits(self.v, self.model);
        }
        match header_exec(bytes, &self.model.cfg) {
            Ok(_) => {},
            Err(e) => return Err(e),
        }
        if bytes.len() < 37 {
            return Err(InferError::Format("checkpoint truncated".to_owned()));
        }
        self.qat = bytes[36] != 0;
        if bytes.len() < 45 {
            return Err(InferError::Format("checkpoint truncated".to_owned()));
        }
        self.step_t = get_u64(bytes, 37);
        if bytes.len() < 53 {
            return Err(InferError::Format("checkpoint truncated".to_owned()));
        }
        let state: u64 = get_u64(bytes, 45);
        let sizes: Vec<Vec<F32>> = model_parts_exec(&self.model);
        let (p, at) = match read_parts(bytes, HEADER_LEN, &sizes) {
            Ok(t) => t,
            Err(e) => return Err(e),
        };
        load_model(&mut self.model, &p);
        proof {
            lemma_still_trains(a.model, self.model);
            lemma_still_suits(self.grads, a.model, self.model);
            lemma_still_suits(self.m, a.model, self.model);
            lemma_still_suits(self.v, a.model, self.model);
        }
        let (m, at) = match read_parts(bytes, at, &sizes) {
            Ok(t) => t,
            Err(e) => return Err(e),
        };
        self.m.load_parts(&m);
        proof {
            lemma_loaded_suits(a.m, self.m, a.model, self.model);
        }
        let (v, _end) = match read_parts(bytes, at, &sizes) {
            Ok(t) => t,
            Err(e) => return Err(e),
        };
        self.v.load_parts(&v);
        proof {
            lemma_loaded_suits(a.v, self.v, a.model, self.model);
        }
        Ok(Rng::from_state(state))
    }
}

// ---------------------------------------------------------------------------
// What is saved is taken over
// ---------------------------------------------------------------------------

proof fn lemma_shape_len(s: Seq<usize>, n: nat)
    requires
        n <= s.len(),
    ensures
        put_shape(s, n).len() == 4 * n,
    decreases n,
{
    if n > 0 {
        lemma_shape_len(s, (n - 1) as nat);
    }
}

/// Sizes that were written are read.
proof fn lemma_shape_is_read(b: Seq<u8>, p: int, s: Seq<usize>, n: nat)
    requires
        n <= s.len(),
        stands_at(b, p, put_shape(s, n)),
        forall|i: int| 0 <= i < s.len() ==> #[trigger] s[i] < 0x1_0000_0000,
    ensures
        forall|i: int| 0 <= i < n ==> le32(b, p + 4 * i) == #[trigger] s[i],
    decreases n,
{
    if n > 0 {
        let before = put_shape(s, (n - 1) as nat);
        lemma_shape_len(s, (n - 1) as nat);
        lemma_stands_split(b, p, before, put_size(s[n - 1] as int));
        lemma_shape_is_read(b, p, s, (n - 1) as nat);
        assert(s[n - 1] < 0x1_0000_0000);
        lemma_le32(b, p + 4 * (n - 1), s[n - 1] as int);
    }
}

/// A part stands in its place among all numbers.
proof fn lemma_part_in_flat(p: Seq<Seq<F32>>, i: int, n: nat)
    requires
        0 <= i < n <= p.len(),
    ensures
        joined_parts(p, i as nat).len() + p[i].len() <= joined_parts(p, n).len(),
        joined_parts(p, n).subrange(
            joined_parts(p, i as nat).len() as int,
            (joined_parts(p, i as nat).len() + p[i].len()) as int,
        ) == p[i],
    decreases n,
{
    let from = joined_parts(p, i as nat).len() as int;
    let to = from + p[i].len();
    let all = joined_parts(p, n);
    let before = joined_parts(p, (n - 1) as nat);
    assert(all == before + p[n - 1]);
    if i == n - 1 {
        assert(all.subrange(from, to) =~= p[i]);
    } else {
        lemma_part_in_flat(p, i, (n - 1) as nat);
        assert(all.subrange(from, to) =~= before.subrange(from, to));
    }
}

/// The places of parts depend on the sizes alone.
proof fn lemma_same_places(a: Seq<Seq<F32>>, b: Seq<Seq<F32>>, n: nat)
    requires
        same_lens(a, b),
        n <= a.len(),
    ensures
        joined_parts(a, n).len() == joined_parts(b, n).len(),
    decreases n,
{
    if n > 0 {
        lemma_same_places(a, b, (n - 1) as nat);
        assert(a[n - 1].len() == b[n - 1].len());
    }
}

/// Lists that were written are read.
proof fn lemma_parts_are_read(b: Seq<u8>, p: int, parts: Seq<Seq<F32>>, shape: Seq<Seq<F32>>)
    requires
        same_lens(parts, shape),
        stands_at(b, p, put_floats(flat(parts))),
    ensures
        parts_at(b, p, shape) == parts,
        flat(parts).len() == flat(shape).len(),
        put_floats(flat(parts)).len() == 4 * flat(shape).len(),
{
    let all = flat(parts);
    lemma_floats_len(all);
    lemma_floats_are_read(b, p, all);
    lemma_same_places(parts, shape, parts.len());
    assert forall|i: int| 0 <= i < parts.len() implies parts_at(b, p, shape)[i] == parts[i] by {
        lemma_same_places(parts, shape, i as nat);
        lemma_part_in_flat(parts, i, parts.len());
        assert(parts[i].len() == shape[i].len());
        let from = joined_parts(parts, i as nat).len() as int;
        let whole = floats_at(b, p, all.len() as int);
        assert forall|j: int| 0 <= j < parts[i].len() implies parts_at(b, p, shape)[i][j]
            == parts[i][j] by {
            assert(p + 4 * from + 4 * j == p + 4 * (from + j));
            assert(whole[from + j] == all[from + j]);
            assert(all.subrange(from, from + parts[i].len())[j] == all[from + j]);
        }
        assert(parts_at(b, p, shape)[i] =~= parts[i]);
    }
    assert(parts_at(b, p, shape) =~= parts);
}

/// The parts of a checkpoint stand in their places.
proof fn lemma_places(t: LlamaTrainer, state: u64)
    ensures
        ({
            let b = checkpoint_bytes(t, state);
            let n = put_floats(flat(model_parts(t.model))).len() as int;
            let k = put_floats(flat(t.m.parts())).len() as int;
            &&& stands_at(b, 0, magic())
            &&& stands_at(b, 4, put32(1))
            &&& stands_at(b, 8, put_shape(shape_of(t.model.cfg), 7))
            &&& stands_at(b, 36, put_state(t.qat, t.step_t, state))
            &&& stands_at(b, 53, put_floats(flat(model_parts(t.model))))
            &&& stands_at(b, 53 + n, put_floats(flat(t.m.parts())))
            &&& stands_at(b, 53 + n + k, put_floats(flat(t.v.parts())))
            &&& b.len() == 53 + n + k + put_floats(flat(t.v.parts())).len()
        }),
{
    reveal(checkpoint_bytes);
    let b = checkpoint_bytes(t, state);
    let shape = put_shape(shape_of(t.model.cfg), 7);
    let st = put_state(t.qat, t.step_t, state);
    let x = put_floats(flat(model_parts(t.model)));
    let y = put_floats(flat(t.m.parts()));
    let z = put_floats(flat(t.v.parts()));
    lemma_shape_len(shape_of(t.model.cfg), 7);
    let h1 = magic();
    let h2 = h1 + put32(1);
    let h3 = h2 + shape;
    let h4 = h3 + st;
    let h5 = h4 + x;
    let h6 = h5 + y;
    assert(b == h6 + z);
    assert(h1.len() == 4 && h2.len() == 8 && h3.len() == 36 && h4.len() == 53);
    assert(b =~= Seq::empty() + h1 + (put32(1) + shape + st + x + y + z));
    lemma_stands_in(b, Seq::empty(), h1, put32(1) + shape + st + x + y + z);
    assert(b =~= h1 + put32(1) + (shape + st + x + y + z));
    lemma_stands_in(b, h1, put32(1), shape + st + x + y + z);
    assert(b =~= h2 + shape + (st + x + y + z));
    lemma_stands_in(b, h2, shape, st + x + y + z);
    assert(b =~= h3 + st + (x + y + z));
    lemma_stands_in(b, h3, st, x + y + z);
    assert(b =~= h4 + x + (y + z));
    lemma_stands_in(b, h4, x, y + z);
    assert(b =~= h5 + y + z);
    lemma_stands_in(b, h5, y, z);
    assert(b =~= h6 + z + Seq::empty());
    lemma_stands_in(b, h6, z, Seq::empty());
}

proof fn lemma_header_is_read(b: Seq<u8>, t: LlamaConfig, u: LlamaConfig)
    requires
        b.len() >= 36,
        stands_at(b, 0, magic()),
        stands_at(b, 4, put32(1)),
        stands_at(b, 8, put_shape(shape_of(t), 7)),
        shape_of(t) == shape_of(u),
        forall|i: int| 0 <= i < 7 ==> #[trigger] shape_of(t)[i] < 0x1_0000_0000,
    ensures
        header_ok(b, u),
{
    let s = shape_of(t);
    assert(s.len() == 7);
    lemma_shape_is_read(b, 8, s, 7);
    lemma_le32(b, 4, 1);
    assert(b.subrange(0, 4) == magic());
}

proof fn lemma_state_is_read(b: Seq<u8>, qat: bool, step: u64, state: u64)
    requires
        stands_at(b, 36, put_state(qat, step, state)),
    ensures
        (b[36] != 0) == qat,
        le64(b, 37) == step,
        le64(b, 45) == state,
{
    let q = seq![
        if qat {
            1u8
        } else {
            0u8
        },
    ];
    let rest = put64(step as int) + put64(state as int);
    assert(put_state(qat, step, state) =~= q + rest);
    lemma_stands_split(b, 36, q, rest);
    assert(b.subrange(36, 37) == q);
    assert(b[36] == b.subrange(36, 37)[0]);
    lemma_stands_split(b, 37, put64(step as int), put64(state as int));
    lemma_le64(b, 37, step as int);
    lemma_le64(b, 45, state as int);
}

/// Models of the same shape have parameters of the same sizes.
#[verifier::rlimit(60)]
#[verifier::spinoff_prover]
proof fn lemma_same_shape(t: LlamaTrainer, u: LlamaTrainer)
    requires
        t.wf(),
        u.wf(),
        shape_of(t.model.cfg) == shape_of(u.model.cfg),
    ensures
        same_lens(model_parts(t.model), model_parts(u.model)),
{
    let c = t.model.cfg;
    let e = u.model.cfg;
    let sc = shape_of(c);
    let se = shape_of(e);
    assert(sc[0] == se[0] && sc[1] == se[1] && sc[2] == se[2] && sc[3] == se[3] && sc[4] == se[4]
        && sc[5] == se[5] && sc[6] == se[6]);
    let n = t.model.blocks@.len();
    let p = model_parts(t.model);
    let q = model_parts(u.model);
    assert forall|i: int| 0 <= i < p.len() implies (#[trigger] p[i]).len() == q[i].len() by {
        if 0 < i < 1 + 16 * n {
            let l = (i - 1) / 16;
            lemma_same_block(c, e, t.model.blocks@[l], u.model.blocks@[l], (i - 1) % 16);
        }
    }
}

/// Blocks that two configurations of one shape describe have parts of the same
/// sizes.
proof fn lemma_same_block(c: LlamaConfig, e: LlamaConfig, a: LlamaBlock, b: LlamaBlock, k: int)
    requires
        c.n_heads == e.n_heads,
        c.n_kv_heads == e.n_kv_heads,
        c.head_dim == e.head_dim,
        c.ffn_dim == e.ffn_dim,
        block_configured(c, a),
        block_configured(e, b),
        a.attn.head_dim == c.head_dim,
        b.attn.head_dim == e.head_dim,
        block_is_plain(a),
        block_is_plain(b),
        a.dim() == b.dim(),
        0 <= k < 16,
    ensures
        block_part(a, k).len() == block_part(b, k).len(),
{
}

/// What is taken over of a checkpoint that was saved: the parameters, both
/// moments, the step, the int8 setting and the state of the generator. Saving it
/// again gives the same bytes.
pub open spec fn resumes(t: LlamaTrainer, state: u64, u: LlamaTrainer, w: LlamaTrainer) -> bool {
    &&& model_parts(w.model) == model_parts(t.model)
    &&& w.m.parts() == t.m.parts()
    &&& w.v.parts() == t.v.parts()
    &&& w.step_t == t.step_t
    &&& w.qat == t.qat
    &&& same_model(u.model, w.model)
    &&& checkpoint_bytes(w, state) == checkpoint_bytes(t, state)
}

/// A checkpoint that was saved is taken over whole by a trainer `u` of a model of
/// the same shape: it is not refused, the state of the generator is the one that
/// was saved, and so is everything that a checkpoint holds. Saving again gives the
/// same bytes.
pub proof fn checkpoints_are_taken_over(t: LlamaTrainer, state: u64, u: LlamaTrainer)
    requires
        t.wf(),
        u.wf(),
        shape_of(t.model.cfg) == shape_of(u.model.cfg),
        forall|i: int|
            0 <= i < 7 ==> #[trigger] shape_of(t.model.cfg)[i] < 0x1_0000_0000,
    ensures
        ({
            let b = checkpoint_bytes(t, state);
            &&& header_ok(b, u.model.cfg)
            &&& b.len() == HEADER_LEN + 12 * flat(model_parts(u.model)).len()
            &&& le64(b, 45) == state
            &&& forall|w: LlamaTrainer| #[trigger] taken_over(b, u, w) ==> resumes(t, state, u, w)
        }),
{
    let b = checkpoint_bytes(t, state);
    let shape = model_parts(u.model);
    lemma_same_shape(t, u);
    lemma_places(t, state);
    lemma_header_is_read(b, t.model.cfg, u.model.cfg);
    lemma_state_is_read(b, t.qat, t.step_t, state);
    lemma_suits(t.m, t.model);
    lemma_suits(t.v, t.model);
    lemma_same_lens_chain(t.m.parts(), model_parts(t.model), shape);
    lemma_same_lens_chain(t.v.parts(), model_parts(t.model), shape);
    let n = flat(shape).len() as int;
    lemma_parts_are_read(b, 53, model_parts(t.model), shape);
    lemma_parts_are_read(b, 53 + 4 * n, t.m.parts(), shape);
    lemma_parts_are_read(b, 53 + 8 * n, t.v.parts(), shape);
    assert forall|w: LlamaTrainer| #[trigger] taken_over(b, u, w) implies resumes(t, state, u, w) by {
        reveal(checkpoint_bytes);
    }
}

/// A checkpoint of a model of another shape is refused.
pub proof fn checkpoints_of_other_shapes_are_refused(t: LlamaTrainer, state: u64, c: LlamaConfig)
    requires
        shape_of(t.model.cfg) != shape_of(c),
        forall|i: int|
            0 <= i < 7 ==> #[trigger] shape_of(t.model.cfg)[i] < 0x1_0000_0000,
    ensures
        !header_ok(checkpoint_bytes(t, state), c),
{
    let b = checkpoint_bytes(t, state);
    let s = shape_of(t.model.cfg);
    lemma_places(t, state);
    assert(s.len() == 7);
    lemma_shape_is_read(b, 8, s, 7);
    if header_ok(b, c) {
        assert forall|i: int| 0 <= i < 7 implies s[i] == shape_of(c)[i] by {
            assert(le32(b, 8 + 4 * i) == shape_of(c)[i]);
        }
        assert(s =~= shape_of(c));
    }
}

/// Bytes that do not begin as a checkpoint of the model does change nothing.
pub proof fn refused_headers_change_nothing(b: Seq<u8>, a: LlamaTrainer, w: LlamaTrainer)
    requires
        !header_ok(b, a.model.cfg),
        taken_over(b, a, w),
    ensures
        w == a,
{
}

} // verus!
