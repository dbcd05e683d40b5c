//! Making a decoder model of a GGUF file whose tensors come one at a time.
use crate::decoder::{LlamaConfig, LlamaModel};
use crate::error::{InferError, Result};
use crate::float::F32;
use crate::gguf::{
    carries, layer_name, linear_with, span_of, transpose_2d, transposed, Gguf, Sizes,
};
use crate::gguf_blocks::{dequantize_bytes, format_error};
use crate::gguf_listing::{layer_tensor, Directory, Listing};
use crate::gguf_read::{elements, Entry, TensorInfo};
use crate::layer::Linear;
use crate::llm::{Attention, FeedForward, LlamaBlock, RmsNorm, RopeType};
use crate::quant::QKind;
use crate::tensor::{copy_f32, zeros, Tensor};
use crate::text::{joined, same_text};
use vstd::prelude::*;

verus! {

/// What is made of a tensor.
pub enum Part {
    /// Its numbers.
    Numbers(Vec<F32>),
    /// A layer without a bias.
    Layer(Linear),
    /// Nothing: the file has no such tensor.
    Absent,
}

/// The tensors of a layer, in order.
pub open spec fn slot_name(slot: int) -> Seq<char> {
    if slot == 0 {
        ".attn_norm.weight"@
    } else if slot == 1 {
        ".attn_q.weight"@
    } else if slot == 2 {
        ".attn_q.bias"@
    } else if slot == 3 {
        ".attn_k.weight"@
    } else if slot == 4 {
        ".attn_k.bias"@
    } else if slot == 5 {
        ".attn_v.weight"@
    } else if slot == 6 {
        ".attn_v.bias"@
    } else if slot == 7 {
        ".attn_output.weight"@
    } else if slot == 8 {
        ".ffn_norm.weight"@
    } else if slot == 9 {
        ".ffn_gate.weight"@
    } else if slot == 10 {
        ".ffn_up.weight"@
    } else {
        ".ffn_down.weight"@
    }
}

/// The tensor of a slot is a weight.
pub open spec fn slot_is_weight(slot: int) -> bool {
    slot == 1 || slot == 3 || slot == 5 || slot == 7 || slot >= 9
}

/// The tensor of a slot may be absent.
pub open spec fn slot_is_bias(slot: int) -> bool {
    slot == 2 || slot == 4 || slot == 6
}

/// How many tensors a model of `n` layers asks for: the vectors of the tokens,
/// twelve for each layer, the last norm and the head.
pub open spec fn parts_count(n: int) -> int {
    12 * n + 3
}

/// The name of the tensor that is asked for at place `k`.
pub open spec fn name_at(k: int, n: int) -> Seq<char> {
    if k == 0 {
        "token_embd.weight"@
    } else if k <= 12 * n {
        layer_name((k - 1) / 12, slot_name((k - 1) % 12))
    } else if k == 12 * n + 1 {
        "output_norm.weight"@
    } else {
        "output.weight"@
    }
}

/// The tensor at place `k` is a weight.
pub open spec fn weight_at(k: int, n: int) -> bool {
    if 0 < k <= 12 * n {
        slot_is_weight((k - 1) % 12)
    } else {
        k == 12 * n + 2
    }
}

/// The tensor at place `k` may be absent.
pub open spec fn may_lack(k: int, n: int) -> bool {
    if 0 < k <= 12 * n {
        slot_is_bias((k - 1) % 12)
    } else {
        k == 12 * n + 2
    }
}

/// `p` has the sizes of the tensor at place `k`.
pub open spec fn is_sized(d: Directory, k: int, n: int, p: Part) -> bool {
    match d.entry(name_at(k, n)) {
        Some(e) => if weight_at(k, n) {
            &&& p is Layer
            &&& p->Layer_0.fits()
            &&& p->Layer_0.in_f == e.dims[0]
            &&& p->Layer_0.out_f == e.dims[1]
        } else {
            p is Numbers && p->Numbers_0@.len() == elements(e.dims)
        },
        None => p is Absent,
    }
}

/// `p` is made of the tensor at place `k` of the file `g`.
pub open spec fn is_part(g: Gguf, k: int, n: int, prec: Option<QKind>, p: Part) -> bool {
    match g.entry(name_at(k, n)) {
        Some(e) => if weight_at(k, n) {
            p is Layer && carries(
                p->Layer_0,
                transposed(g.data_of(e)->0, e.dims[1] as int, e.dims[0] as int),
                e.dims[0] as int,
                e.dims[1] as int,
                no_bias(e.dims[1] as int),
                prec,
            )
        } else {
            p is Numbers && p->Numbers_0@ == g.data_of(e)->0
        },
        None => p is Absent,
    }
}

/// The bias of a layer that has none.
pub open spec fn no_bias(n: int) -> Seq<F32> {
    Seq::new(n as nat, |i: int| F32 { bits: 0 })
}

/// A decoder model in the making: what is known of the file, and what was made
/// of the tensors that have come.
pub struct LlamaLoader<'a> {
    pub listing: Listing<'a>,
    pub z: Sizes,
    pub vocab: usize,
    pub prec: Option<QKind>,
    pub parts: Vec<Part>,
}

/// A tensor that is there is all there, and a weight has two dimensions.
proof fn lemma_whole(d: Directory, z: Sizes, k: int)
    requires
        d.is_complete(z),
        0 <= k < parts_count(z.n_layers as int),
    ensures
        !may_lack(k, z.n_layers as int) ==> d.entry(name_at(k, z.n_layers as int)) is Some,
        match d.entry(name_at(k, z.n_layers as int)) {
            Some(e) => {
                &&& d.has_data(e)
                &&& weight_at(k, z.n_layers as int) ==> {
                    &&& e.dims.len() == 2
                    &&& e.dims[0] <= usize::MAX
                    &&& e.dims[1] <= usize::MAX
                    &&& elements(e.dims) == e.dims[0] * e.dims[1]
                }
            },
            None => true,
        },
{
    let n = z.n_layers as int;
    if 0 < k <= 12 * n {
        assert(d.has_layer((k - 1) / 12));
    }
    if let Some(e) = d.entry(name_at(k, n)) {
        if weight_at(k, n) {
            lemma_two(e);
        }
    }
}

proof fn lemma_two(e: Entry)
    ensures
        e.dims.len() == 2 ==> elements(e.dims) == e.dims[0] * e.dims[1],
{
    if e.dims.len() == 2 {
        let d = e.dims;
        assert(d.drop_last().drop_last() =~= Seq::<u64>::empty());
        assert(elements(d.drop_last().drop_last()) == 1);
        assert(elements(d.drop_last()) == 1 * d[0] as nat);
        assert(elements(d) == elements(d.drop_last()) * d[1] as nat);
    }
}

fn pop_part(parts: &mut Vec<Part>) -> (p: Part)
    requires
        old(parts)@.len() > 0,
    ensures
        p == old(parts)@.last(),
        final(parts)@ == old(parts)@.drop_last(),
{
    match parts.pop() {
        Some(p) => p,
        None => Part::Absent,
    }
}

fn pop_numbers(parts: &mut Vec<Part>) -> (v: Vec<F32>)
    requires
        old(parts)@.len() > 0,
        old(parts)@.last() is Numbers,
    ensures
        old(parts)@.last() == Part::Numbers(v),
        final(parts)@ == old(parts)@.drop_last(),
{
    match pop_part(parts) {
        Part::Numbers(v) => v,
        _ => Vec::new(),
    }
}

fn pop_layer(parts: &mut Vec<Part>) -> (l: Linear)
    requires
        old(parts)@.len() > 0,
        old(parts)@.last() is Layer,
    ensures
        old(parts)@.last() == Part::Layer(l),
        final(parts)@ == old(parts)@.drop_last(),
{
    match pop_part(parts) {
        Part::Layer(l) => l,
        _ => Linear {
            weight: Tensor::vector(Vec::new()),
            bias: Tensor::vector(Vec::new()),
            in_f: 0,
            out_f: 0,
            quant: None,
        },
    }
}

/// A layer with the bias that a part holds, if it holds one.
fn with_bias(l: Linear, p: Part) -> (r: Linear)
    ensures
        r.weight == l.weight,
        r.in_f == l.in_f,
        r.out_f == l.out_f,
        r.quant == l.quant,
        r.bias.data@ == (match p {
            Part::Numbers(b) => b@,
            _ => l.bias.data@,
        }),
{
    match p {
        Part::Numbers(b) => Linear {
            weight: l.weight,
            bias: Tensor::vector(b),
            in_f: l.in_f,
            out_f: l.out_f,
            quant: l.quant,
        },
        _ => l,
    }
}

/// The layers of a file are what its parts say.
proof fn lemma_linear(
    g: Gguf,
    z: Sizes,
    k: int,
    prec: Option<QKind>,
    p: Part,
    q: Option<Part>,
    l: Linear,
)
    requires
        g.is_complete(z),
        0 <= k < parts_count(z.n_layers as int),
        weight_at(k, z.n_layers as int),
        g.entry(name_at(k, z.n_layers as int)) is Some,
        is_part(g, k, z.n_layers as int, prec, p),
        g.has_linear(
            name_at(k, z.n_layers as int),
            if q is Some {
                Some(name_at(k + 1, z.n_layers as int))
            } else {
                None
            },
        ),
        q is Some ==> !weight_at(k + 1, z.n_layers as int) && is_part(
            g,
            k + 1,
            z.n_layers as int,
            prec,
            q->0,
        ),
        l.weight == p->Layer_0.weight,
        l.in_f == p->Layer_0.in_f,
        l.out_f == p->Layer_0.out_f,
        l.quant == p->Layer_0.quant,
        l.bias.data@ == (match q {
            Some(Part::Numbers(b)) => b@,
            _ => p->Layer_0.bias.data@,
        }),
    ensures
        g.is_linear(
            name_at(k, z.n_layers as int),
            if q is Some {
                Some(name_at(k + 1, z.n_layers as int))
            } else {
                None
            },
            prec,
            l,
        ),
{
    let e = g.entry(name_at(k, z.n_layers as int))->0;
    let bias = if q is Some {
        Some(name_at(k + 1, z.n_layers as int))
    } else {
        None::<Seq<char>>
    };
    assert(g.bias_of(bias, e.dims[1] as int)->0 =~= l.bias.data@);
}

/// Takes the parts of layer `i`, the last ones, and makes the layer.
#[verifier::rlimit(60)]
#[verifier::spinoff_prover]
fn take_layer(
    parts: &mut Vec<Part>,
    i: usize,
    z: &Sizes,
    Ghost(d): Ghost<Directory>,
    Ghost(prec): Ghost<Option<QKind>>,
) -> (r: Result<LlamaBlock>)
    requires
        i < z.n_layers,
        d.is_complete(*z),
        old(parts)@.len() == 12 * i + 13,
        forall|k: int|
            0 <= k < old(parts)@.len() ==> is_sized(
                d,
                k,
                z.n_layers as int,
                #[trigger] old(parts)@[k],
            ),
    ensures
        final(parts)@ == old(parts)@.take(12 * i + 1),
        r is Ok,
        forall|g: Gguf|
            #[trigger] are_parts(g, *z, prec, old(parts)@) && g.dir() == d ==> g.is_layer(
                i as int,
                *z,
                prec,
                r->Ok_0,
            ),
{
    let ghost all = parts@;
    let ghost n = z.n_layers as int;
    let ghost at = 12 * i + 1;
    proof {
        assert(d.has_layer(i as int));
        assert forall|s: int| 0 <= s < 12 implies #[trigger] name_at(at + s, n) == layer_name(
            i as int,
            slot_name(s),
        ) && weight_at(at + s, n) == slot_is_weight(s) && is_sized(d, at + s, n, all[at + s]) by {}
    }
    assert(name_at(at + 11, n) == layer_name(i as int, slot_name(11)));
    let down: Linear = pop_layer(parts);
    assert(name_at(at + 10, n) == layer_name(i as int, slot_name(10)));
    let up: Linear = pop_layer(parts);
    assert(name_at(at + 9, n) == layer_name(i as int, slot_name(9)));
    let gate: Linear = pop_layer(parts);
    assert(name_at(at + 8, n) == layer_name(i as int, slot_name(8)));
    let ffn_norm: Vec<F32> = pop_numbers(parts);
    assert(name_at(at + 7, n) == layer_name(i as int, slot_name(7)));
    let wo: Linear = pop_layer(parts);
    let vb: Part = pop_part(parts);
    assert(name_at(at + 5, n) == layer_name(i as int, slot_name(5)));
    let v: Linear = pop_layer(parts);
    let kb: Part = pop_part(parts);
    assert(name_at(at + 3, n) == layer_name(i as int, slot_name(3)));
    let k: Linear = pop_layer(parts);
    let qb: Part = pop_part(parts);
    assert(name_at(at + 1, n) == layer_name(i as int, slot_name(1)));
    let q: Linear = pop_layer(parts);
    assert(name_at(at, n) == layer_name(i as int, slot_name(0))) by {
        assert(name_at(at + 0, n) == layer_name(i as int, slot_name(0)));
    }
    let attn_norm: Vec<F32> = pop_numbers(parts);
    assert(parts@ =~= all.take(at));
    let wq: Linear = with_bias(q, qb);
    let wk: Linear = with_bias(k, kb);
    let wv: Linear = with_bias(v, vb);
    let attn: Attention = match Attention::new(
        wq,
        wk,
        wv,
        wo,
        z.n_heads,
        z.n_kv,
        z.head_dim,
        z.rope_dim,
        z.rope_base,
        RopeType::Norm,
    ) {
        Ok(a) => a,
        Err(e) => return Err(e),
    };
    let b = LlamaBlock {
        attn_norm: RmsNorm::new(attn_norm, z.eps),
        attn,
        ffn_norm: RmsNorm::new(ffn_norm, z.eps),
        ffn: FeedForward::new(gate, up, down),
    };
    proof {
        assert forall|g: Gguf| #[trigger] are_parts(g, *z, prec, all) && g.dir() == d implies g.is_layer(
            i as int,
            *z,
            prec,
            b,
        ) by {
            lemma_layer(g, *z, prec, all, i as int, b);
        }
    }
    Ok(b)
}

/// All parts are made of the file `g`.
pub open spec fn are_parts(g: Gguf, z: Sizes, prec: Option<QKind>, parts: Seq<Part>) -> bool {
    forall|k: int|
        0 <= k < parts.len() ==> is_part(g, k, z.n_layers as int, prec, #[trigger] parts[k])
}

/// `l` is the layer of a part, with the bias of another.
spec fn is_joined(l: Linear, p: Part, q: Part) -> bool {
    &&& p is Layer
    &&& l.weight == p->Layer_0.weight
    &&& l.in_f == p->Layer_0.in_f
    &&& l.out_f == p->Layer_0.out_f
    &&& l.quant == p->Layer_0.quant
    &&& l.bias.data@ == (match q {
        Part::Numbers(b) => b@,
        _ => p->Layer_0.bias.data@,
    })
}

#[verifier::spinoff_prover]
#[verifier::rlimit(60)]
proof fn lemma_layer(
    g: Gguf,
    z: Sizes,
    prec: Option<QKind>,
    all: Seq<Part>,
    i: int,
    b: LlamaBlock,
)
    requires
        0 <= i < z.n_layers,
        g.is_complete(z),
        all.len() >= 12 * i + 13,
        are_parts(g, z, prec, all),
        all[12 * i + 1] is Numbers,
        all[12 * i + 1]->Numbers_0@ == b.attn_norm.weight@,
        b.attn_norm.eps == z.eps,
        is_joined(b.attn.wq, all[12 * i + 2], all[12 * i + 3]),
        is_joined(b.attn.wk, all[12 * i + 4], all[12 * i + 5]),
        is_joined(b.attn.wv, all[12 * i + 6], all[12 * i + 7]),
        all[12 * i + 8] == Part::Layer(b.attn.wo),
        b.attn.n_heads == z.n_heads,
        b.attn.n_kv_heads == z.n_kv,
        b.attn.head_dim == z.head_dim,
        b.attn.rope_dim == z.rope_dim,
        b.attn.rope_base == z.rope_base,
        b.attn.rope_type == RopeType::Norm,
        all[12 * i + 9] is Numbers,
        all[12 * i + 9]->Numbers_0@ == b.ffn_norm.weight@,
        b.ffn_norm.eps == z.eps,
        all[12 * i + 10] == Part::Layer(b.ffn.gate),
        all[12 * i + 11] == Part::Layer(b.ffn.up),
        all[12 * i + 12] == Part::Layer(b.ffn.down),
    ensures
        g.is_layer(i, z, prec, b),
{
    let n = z.n_layers as int;
    let at = 12 * i + 1;
    assert(g.has_layer(i));
    assert forall|s: int| 0 <= s < 12 implies #[trigger] name_at(at + s, n) == layer_name(
        i,
        slot_name(s),
    ) && weight_at(at + s, n) == slot_is_weight(s) && is_part(g, at + s, n, prec, all[at + s]) by {
        assert(all[at + s] == all[at + s]);
    }
    assert(name_at(at + 0, n) == layer_name(i, slot_name(0)));
    assert(name_at(at + 1, n) == layer_name(i, slot_name(1)));
    assert(name_at(at + 2, n) == layer_name(i, slot_name(2)));
    assert(name_at(at + 3, n) == layer_name(i, slot_name(3)));
    assert(name_at(at + 4, n) == layer_name(i, slot_name(4)));
    assert(name_at(at + 5, n) == layer_name(i, slot_name(5)));
    assert(name_at(at + 6, n) == layer_name(i, slot_name(6)));
    assert(name_at(at + 7, n) == layer_name(i, slot_name(7)));
    assert(name_at(at + 8, n) == layer_name(i, slot_name(8)));
    assert(name_at(at + 9, n) == layer_name(i, slot_name(9)));
    assert(name_at(at + 10, n) == layer_name(i, slot_name(10)));
    assert(name_at(at + 11, n) == layer_name(i, slot_name(11)));
    lemma_linear(g, z, at + 1, prec, all[at + 1], Some(all[at + 2]), b.attn.wq);
    lemma_linear(g, z, at + 3, prec, all[at + 3], Some(all[at + 4]), b.attn.wk);
    lemma_linear(g, z, at + 5, prec, all[at + 5], Some(all[at + 6]), b.attn.wv);
    lemma_linear(g, z, at + 7, prec, all[at + 7], None, b.attn.wo);
    lemma_linear(g, z, at + 9, prec, all[at + 9], None, b.ffn.gate);
    lemma_linear(g, z, at + 10, prec, all[at + 10], None, b.ffn.up);
    lemma_linear(g, z, at + 11, prec, all[at + 11], None, b.ffn.down);
}

impl<'a> LlamaLoader<'a> {
    /// What is known of the file is enough for a model, and the parts have the
    /// sizes of their tensors.
    pub open spec fn wf(self) -> bool {
        &&& self.listing.wf()
        &&& self.listing@.is_decoder()
        &&& self.listing@.has_sizes()
        &&& self.listing@.sizes_are(self.z)
        &&& self.listing@.is_complete(self.z)
        &&& self.listing@.vocab_of() == Some(self.vocab as int)
        &&& self.parts@.len() <= parts_count(self.z.n_layers as int)
        &&& forall|k: int|
            0 <= k < self.parts@.len() ==> is_sized(
                self.listing@,
                k,
                self.z.n_layers as int,
                #[trigger] self.parts@[k],
            )
    }

    /// The file is `g`, as far as it is known: its header is what is listed, and
    /// the parts are made of its tensors.
    pub open spec fn follows(self, g: Gguf) -> bool {
        &&& self.wf()
        &&& g.dir() == self.listing@
        &&& are_parts(g, self.z, self.prec, self.parts@)
    }

    /// How many places are left.
    pub open spec fn missing(self) -> int {
        parts_count(self.z.n_layers as int) - self.parts@.len()
    }

    /// The bytes that are wanted next, if the file has the next tensor.
    pub open spec fn want(self) -> Option<(int, int)> {
        if self.missing() > 0 {
            match self.listing@.entry(
                name_at(self.parts@.len() as int, self.z.n_layers as int),
            ) {
                Some(e) => span_of(e, self.listing@.data_offset, self.listing@.total),
                None => None,
            }
        } else {
            None
        }
    }

    /// Everything but the parts is the same.
    pub open spec fn same_file(self, o: LlamaLoader<'a>) -> bool {
        &&& self.listing == o.listing
        &&& self.z == o.z
        &&& self.vocab == o.vocab
        &&& self.prec == o.prec
    }

    /// Begins a model of a file, its weights quantized or in full precision.
    /// Fails where the file cannot be a decoder model.
    pub fn new(listing: Listing<'a>, prec: Option<QKind>) -> (r: Result<LlamaLoader<'a>>)
        requires
            listing.wf(),
        ensures
            match r {
                Ok(l) => {
                    &&& l.wf()
                    &&& l.listing == listing
                    &&& l.prec == prec
                    &&& l.parts@.len() == 0
                },
                Err(e) => (e is Format || e is DimMismatch) && (listing@.is_decoder()
                    && listing@.has_sizes() ==> exists|z: Sizes|
                    listing@.sizes_are(z) && !#[trigger] listing@.is_complete(z)),
            },
    {
        let arch: &str = match listing.architecture() {
            Some(a) => a,
            None => return Err(format_error("GGUF missing general.architecture")),
        };
        if !same_text(arch, "llama") && !same_text(arch, "qwen2") {
            return Err(
                InferError::Format(
                    joined(
                        joined("architecture '", arch).as_str(),
                        "' is not supported by load_llama (llama / qwen2 only)",
                    ),
                ),
            );
        }
        let z: Sizes = match listing.sizes(arch) {
            Ok(z) => z,
            Err(e) => return Err(e),
        };
        let vocab: usize = match listing.check_model(arch, &z) {
            Ok(n) => n,
            Err(e) => {
                assert(!listing@.is_complete(z));
                return Err(e);
            },
        };
        Ok(LlamaLoader { listing, z, vocab, prec, parts: Vec::new() })
    }

    /// The name of the tensor at the next place.
    fn next_name(&self) -> (s: String)
        requires
            self.wf(),
            self.missing() > 0,
        ensures
            s@ == name_at(self.parts@.len() as int, self.z.n_layers as int),
    {
        let k: usize = self.parts.len();
        if k == 0 {
            return "token_embd.weight".to_owned();
        }
        let i: usize = (k - 1) / 12;
        let slot: usize = (k - 1) % 12;
        if i < self.z.n_layers {
            let rest: &str = if slot == 0 {
                ".attn_norm.weight"
            } else if slot == 1 {
                ".attn_q.weight"
            } else if slot == 2 {
                ".attn_q.bias"
            } else if slot == 3 {
                ".attn_k.weight"
            } else if slot == 4 {
                ".attn_k.bias"
            } else if slot == 5 {
                ".attn_v.weight"
            } else if slot == 6 {
                ".attn_v.bias"
            } else if slot == 7 {
                ".attn_output.weight"
            } else if slot == 8 {
                ".ffn_norm.weight"
            } else if slot == 9 {
                ".ffn_gate.weight"
            } else if slot == 10 {
                ".ffn_up.weight"
            } else {
                ".ffn_down.weight"
            };
            return layer_tensor(i, rest);
        }
        if slot == 0 {
            "output_norm.weight".to_owned()
        } else {
            "output.weight".to_owned()
        }
    }

    /// Whether all places are filled.
    fn is_full(&self) -> (b: bool)
        requires
            self.wf(),
        ensures
            b == (self.missing() == 0),
    {
        let k: usize = self.parts.len();
        k > 2 && (k - 3) % 12 == 0 && (k - 3) / 12 == self.z.n_layers
    }

    /// Whether the tensor at the next place is a weight.
    fn next_is_weight(&self) -> (b: bool)
        requires
            self.wf(),
            self.missing() > 0,
        ensures
            b == weight_at(self.parts@.len() as int, self.z.n_layers as int),
    {
        let k: usize = self.parts.len();
        if k == 0 {
            return false;
        }
        let slot: usize = (k - 1) % 12;
        if (k - 1) / 12 < self.z.n_layers {
            slot == 1 || slot == 3 || slot == 5 || slot == 7 || slot >= 9
        } else {
            slot == 1
        }
    }

    /// Where the bytes begin and end that are wanted next, or nothing if the
    /// model is complete. Tensors that the file does not have are passed over.
    #[verifier::rlimit(60)]
    #[verifier::spinoff_prover]
    pub fn wanted(&mut self) -> (r: Option<(usize, usize)>)
        requires
            old(self).wf(),
        ensures
            final(self).wf(),
            final(self).same_file(*old(self)),
            final(self).missing() <= old(self).missing(),
            forall|g: Gguf| #[trigger] old(self).follows(g) ==> final(self).follows(g),
            match r {
                Some(s) => final(self).want() == Some((s.0 as int, s.1 as int)),
                None => final(self).missing() == 0,
            },
    {
        while !self.is_full()
            invariant
                self.wf(),
                self.same_file(*old(self)),
                self.missing() <= old(self).missing(),
                forall|g: Gguf| #[trigger] old(self).follows(g) ==> self.follows(g),
            decreases self.missing(),
        {
            let name: String = self.next_name();
            let ghost k = self.parts@.len() as int;
            proof {
                lemma_whole(self.listing@, self.z, k);
            }
            let ghost before = *self;
            match self.listing.tensor(name.as_str()) {
                Some(t) => match self.listing.range(t) {
                    Ok(s) => return Some(s),
                    Err(_) => return None,
                },
                None => {
                    self.parts.push(Part::Absent);
                    proof {
                        assert forall|g: Gguf| #[trigger] old(self).follows(g) implies self.follows(
                            g,
                        ) by {
                            assert(before.follows(g));
                        }
                    }
                },
            }
        }
        None
    }

    /// Takes the bytes of the tensor that is wanted next.
    #[verifier::rlimit(60)]
    #[verifier::spinoff_prover]
    pub fn feed(&mut self, raw: &[u8])
        requires
            old(self).wf(),
            old(self).want() is Some,
            raw@.len() == (old(self).want()->0).1 - (old(self).want()->0).0,
        ensures
            final(self).wf(),
            final(self).same_file(*old(self)),
            final(self).missing() == old(self).missing() - 1,
            forall|g: Gguf|
                #[trigger] old(self).follows(g) && g.bytes@.subrange(
                    (old(self).want()->0).0,
                    (old(self).want()->0).1,
                ) == raw@ ==> final(self).follows(g),
    {
        let name: String = self.next_name();
        let ghost k = self.parts@.len() as int;
        let ghost n = self.z.n_layers as int;
        let ghost d = self.listing@;
        let is_weight: bool = self.next_is_weight();
        proof {
            lemma_whole(d, self.z, k);
        }
        let t: &TensorInfo = match self.listing.tensor(name.as_str()) {
            Some(t) => t,
            None => return,
        };
        let numbers: Vec<F32> = dequantize_bytes(t.ggml_type, raw, t.num_elements());
        let ghost held = numbers@;
        let part: Part = if is_weight {
            let n_in: usize = t.dims[0] as usize;
            let n_out: usize = t.dims[1] as usize;
            assert(n_in * n_out == n_out * n_in) by (nonlinear_arith);
            let w: Vec<F32> = transpose_2d(numbers, n_out, n_in);
            let bias: Vec<F32> = zeros(n_out);
            assert(bias@ =~= no_bias(n_out as int));
            match linear_with(w, n_in, n_out, bias, self.prec) {
                Ok(l) => Part::Layer(l),
                Err(_) => return,
            }
        } else {
            Part::Numbers(numbers)
        };
        self.parts.push(part);
        proof {
            assert forall|g: Gguf|
                #[trigger] old(self).follows(g) && g.bytes@.subrange(
                    (old(self).want()->0).0,
                    (old(self).want()->0).1,
                ) == raw@ implies self.follows(g) by {
                assert(g.data_of(t@) == Some(held));
                assert(is_part(g, k, n, self.prec, part));
            }
        }
    }

    /// Makes the model of all parts.
    #[verifier::rlimit(60)]
    #[verifier::spinoff_prover]
    pub fn finish(self) -> (r: Result<LlamaModel>)
        requires
            self.wf(),
            self.missing() == 0,
        ensures
            r is Ok,
            forall|g: Gguf|
                #[trigger] self.follows(g) ==> g.is_model(self.z, self.prec, r->Ok_0),
    {
        let ghost all = self.parts@;
        let ghost d = self.listing@;
        let ghost n = self.z.n_layers as int;
        let ghost prec = self.prec;
        let ghost whole = self;
        let z: Sizes = self.z;
        let vocab: usize = self.vocab;
        let mut parts: Vec<Part> = self.parts;
        proof {
            lemma_whole(d, z, 12 * n + 1);
            lemma_whole(d, z, 12 * n + 2);
            lemma_whole(d, z, 0);
        }
        let head: Part = pop_part(&mut parts);
        let norm: Vec<F32> = pop_numbers(&mut parts);
        let mut blocks: Vec<LlamaBlock> = Vec::new();
        let mut i: usize = z.n_layers;
        assert(parts@ =~= all.take(12 * n + 1));
        while i > 0
            invariant
                i <= z.n_layers,
                n == z.n_layers,
                d.is_complete(z),
                all.len() == 12 * n + 3,
                parts@ == all.take(12 * i + 1),
                blocks@.len() == n - i,
                forall|k: int| 0 <= k < all.len() ==> is_sized(d, k, n, #[trigger] all[k]),
                forall|g: Gguf, k: int|
                    #![trigger are_parts(g, z, prec, all), g.dir(), blocks@[k]]
                    are_parts(g, z, prec, all) && g.dir() == d && 0 <= k < n - i ==> g.is_layer(
                        i + k,
                        z,
                        prec,
                        blocks@[k],
                    ),
            decreases i,
        {
            i = i - 1;
            let ghost before = parts@;
            let ghost had = blocks@;
            let b: LlamaBlock = match take_layer(&mut parts, i, &z, Ghost(d), Ghost(prec)) {
                Ok(b) => b,
                Err(e) => return Err(e),
            };
            blocks.insert(0, b);
            proof {
                assert(before.take(12 * i + 1) =~= all.take(12 * i + 1));
                assert forall|g: Gguf, k: int|
                    #![trigger are_parts(g, z, prec, all), g.dir(), blocks@[k]]
                    are_parts(g, z, prec, all) && g.dir() == d && 0 <= k < n - i implies g.is_layer(
                    i + k,
                    z,
                    prec,
                    blocks@[k],
                ) by {
                    assert(are_parts(g, z, prec, before)) by {
                        assert forall|k: int| 0 <= k < before.len() implies is_part(
                            g,
                            k,
                            n,
                            prec,
                            #[trigger] before[k],
                        ) by {
                            assert(before[k] == all[k]);
                        }
                    }
                    if k > 0 {
                        assert(blocks@[k] == had[k - 1]);
                    }
                }
            }
        }
        assert(parts@ =~= all.take(1));
        let tok_emb: Vec<F32> = pop_numbers(&mut parts);
        let lm_head: Linear = match head {
            Part::Layer(l) => l,
            _ => {
                let bias: Vec<F32> = zeros(vocab);
                proof {
                    assert(bias@ =~= no_bias(vocab as int));
                    let v = vocab as int;
                    let w = z.dim as int;
                    assert(v * w == w * v) by (nonlinear_arith);
                }
                let w: Vec<F32> = transpose_2d(copy_f32(tok_emb.as_slice()), vocab, z.dim);
                match linear_with(w, z.dim, vocab, bias, self.prec) {
                    Ok(l) => l,
                    Err(e) => return Err(e),
                }
            },
        };
        let cfg: LlamaConfig = LlamaConfig {
            vocab_size: vocab,
            model_dim: z.dim,
            n_layers: z.n_layers,
            n_heads: z.n_heads,
            n_kv_heads: z.n_kv,
            head_dim: z.head_dim,
            ffn_dim: z.ffn,
            rope_dim: z.rope_dim,
            rope_base: z.rope_base,
            rope_type: RopeType::Norm,
            norm_eps: z.eps,
            context_len: z.ctx,
        };
        let m: LlamaModel = LlamaModel {
            cfg,
            tok_emb,
            blocks,
            final_norm: RmsNorm::new(norm, z.eps),
            lm_head,
        };
        proof {
            assert forall|g: Gguf| #[trigger] whole.follows(g) implies g.is_model(z, prec, m) by {
                assert(are_parts(g, z, prec, all));
                assert(g.dir() == d);
                assert(is_part(g, 0, n, prec, all[0]));
                assert(is_part(g, 12 * n + 1, n, prec, all[12 * n + 1]));
                assert(is_part(g, 12 * n + 2, n, prec, all[12 * n + 2]));
                assert forall|k: int| 0 <= k < n implies g.is_layer(
                    k,
                    z,
                    prec,
                    #[trigger] m.blocks@[k],
                ) by {
                    assert(g.is_layer(0 + k, z, prec, blocks@[k]));
                }
                if g.entry("output.weight"@) is Some {
                    lemma_linear(g, z, 12 * n + 2, prec, all[12 * n + 2], None, lm_head);
                } else {
                    assert(no_bias(vocab as int) =~= Seq::new(
                        vocab as nat,
                        |i: int| F32 { bits: 0 },
                    ));
                }
            }
        }
        Ok(m)
    }
}

} // verus!
