//! Exported decoder models are read back.
use crate::bytes::stands_at;
use crate::decoder::{LlamaConfig, LlamaModel};
use crate::float::F32;
use crate::gguf::{carries, layer_name, named, transposed, Gguf, Sizes};
use crate::gguf_blocks::{bytes_of, elements_of, is_whole, GGML_F32};
use crate::gguf_encode::{encoded, written_tensors_are_read_back};
use crate::gguf_export::{
    bias_pieces, is_renewed, kept, layer_pieces, layers_pieces, model_pairs, model_pieces,
    rows_by_output, tokens_piece, vector_piece, weight_piece, GgufQuant,
};
use crate::gguf_meta::{map_of, pairs_of, MetaView};
use crate::gguf_read::{elements, entries_of, rd_header, Entry};
use crate::gguf_write::{
    declared, directory_bytes, entry_of, file_bytes, header_bytes, is_writable, pairs_bytes,
    written_files_are_read_back, Piece,
};
use crate::index::{cell, lemma_cell, lemma_split};
use crate::layer::Linear;
use crate::llm::{Attention, LlamaBlock, RopeType};
use crate::text::{dec, digit};
use vstd::prelude::*;

verus! {

// ---------------------------------------------------------------------------
// Names
// ---------------------------------------------------------------------------

/// The digits of a number end where something else begins, and give the number.
proof fn lemma_digits_end(a: nat, b: nat, r: Seq<char>, s: Seq<char>)
    requires
        dec(a) + r == dec(b) + s,
        r.len() > 0,
        s.len() > 0,
        r[0] == '.',
        s[0] == '.',
    ensures
        a == b,
        r == s,
{
    lemma_all_digits(a);
    lemma_all_digits(b);
    let t = dec(a) + r;
    let n = dec(a).len() as int;
    let m = dec(b).len() as int;
    assert(t[n] == '.');
    assert(t[m] == '.');
    if n < m {
        assert(t[n] == dec(b)[n]);
    } else if m < n {
        assert(t[m] == dec(a)[m]);
    }
    assert(dec(a) =~= t.subrange(0, n));
    assert(dec(b) =~= t.subrange(0, n));
    assert(r =~= t.subrange(n, t.len() as int));
    assert(s =~= t.subrange(n, t.len() as int));
    lemma_digits_differ(a, b);
}

/// The digits of a number hold no dot.
proof fn lemma_all_digits(n: nat)
    ensures
        dec(n).len() > 0,
        forall|i: int| 0 <= i < dec(n).len() ==> #[trigger] dec(n)[i] != '.',
    decreases n,
{
    if n >= 10 {
        lemma_all_digits(n / 10);
    }
}

/// Numbers of the same digits are the same.
proof fn lemma_digits_differ(a: nat, b: nat)
    requires
        dec(a) == dec(b),
    ensures
        a == b,
    decreases a,
{
    lemma_all_digits(a / 10);
    lemma_all_digits(b / 10);
    if a >= 10 && b >= 10 {
        assert(dec(a).drop_last() =~= dec(a / 10));
        assert(dec(b).drop_last() =~= dec(b / 10));
        lemma_digits_differ(a / 10, b / 10);
        assert(dec(a).last() == digit(a % 10));
        assert(dec(b).last() == digit(b % 10));
    } else if a < 10 && b < 10 {
        assert(dec(a)[0] == digit(a));
        assert(dec(b)[0] == digit(b));
    } else if a < 10 {
        assert(dec(b).len() == dec(b / 10).len() + 1);
    } else {
        assert(dec(a).len() == dec(a / 10).len() + 1);
    }
}

/// Names of tensors of layers are the same only for the same layer and tensor.
proof fn lemma_layer_names(i: int, k: int, r: Seq<char>, s: Seq<char>)
    requires
        0 <= i,
        0 <= k,
        layer_name(i, r) == layer_name(k, s),
        r.len() > 0,
        s.len() > 0,
        r[0] == '.',
        s[0] == '.',
    ensures
        i == k,
        r == s,
{
    let p = "blk."@;
    let a = dec(i as nat) + r;
    let b = dec(k as nat) + s;
    assert(layer_name(i, r) =~= p + a);
    assert(layer_name(k, s) =~= p + b);
    assert(a =~= layer_name(i, r).subrange(p.len() as int, layer_name(i, r).len() as int));
    assert(b =~= layer_name(k, s).subrange(p.len() as int, layer_name(k, s).len() as int));
    lemma_digits_end(i as nat, k as nat, r, s);
}

/// A number by which the names of the tensors of a layer are told apart.
#[verifier::opaque]
spec fn tag(s: Seq<char>) -> int {
    s.len() * 0x1_0000 + s[5] as int * 0x100 + s[6] as int
}

/// The names of the tensors of a layer are different, and begin with a dot.
proof fn lemma_rests()
    ensures
        tag(".attn_norm.weight"@) == 0x115f6e,
        ".attn_norm.weight"@.len() > 0 && ".attn_norm.weight"@[0] == '.',
        tag(".attn_q.weight"@) == 0xe5f71,
        ".attn_q.weight"@.len() > 0 && ".attn_q.weight"@[0] == '.',
        tag(".attn_q.bias"@) == 0xc5f71,
        ".attn_q.bias"@.len() > 0 && ".attn_q.bias"@[0] == '.',
        tag(".attn_k.weight"@) == 0xe5f6b,
        ".attn_k.weight"@.len() > 0 && ".attn_k.weight"@[0] == '.',
        tag(".attn_k.bias"@) == 0xc5f6b,
        ".attn_k.bias"@.len() > 0 && ".attn_k.bias"@[0] == '.',
        tag(".attn_v.weight"@) == 0xe5f76,
        ".attn_v.weight"@.len() > 0 && ".attn_v.weight"@[0] == '.',
        tag(".attn_v.bias"@) == 0xc5f76,
        ".attn_v.bias"@.len() > 0 && ".attn_v.bias"@[0] == '.',
        tag(".attn_output.weight"@) == 0x135f6f,
        ".attn_output.weight"@.len() > 0 && ".attn_output.weight"@[0] == '.',
        tag(".ffn_norm.weight"@) == 0x106e6f,
        ".ffn_norm.weight"@.len() > 0 && ".ffn_norm.weight"@[0] == '.',
        tag(".ffn_gate.weight"@) == 0x106761,
        ".ffn_gate.weight"@.len() > 0 && ".ffn_gate.weight"@[0] == '.',
        tag(".ffn_up.weight"@) == 0xe7570,
        ".ffn_up.weight"@.len() > 0 && ".ffn_up.weight"@[0] == '.',
        tag(".ffn_down.weight"@) == 0x10646f,
        ".ffn_down.weight"@.len() > 0 && ".ffn_down.weight"@[0] == '.',
        tag(".ffn_gate.bias"@) == 0xe6761,
        ".ffn_gate.bias"@.len() > 0 && ".ffn_gate.bias"@[0] == '.',
        tag(".ffn_up.bias"@) == 0xc7570,
        ".ffn_up.bias"@.len() > 0 && ".ffn_up.bias"@[0] == '.',
        tag(".ffn_down.bias"@) == 0xe646f,
        ".ffn_down.bias"@.len() > 0 && ".ffn_down.bias"@[0] == '.',
{
    reveal(tag);
    reveal_strlit(".attn_norm.weight");
    reveal_strlit(".attn_q.weight");
    reveal_strlit(".attn_q.bias");
    reveal_strlit(".attn_k.weight");
    reveal_strlit(".attn_k.bias");
    reveal_strlit(".attn_v.weight");
    reveal_strlit(".attn_v.bias");
    reveal_strlit(".attn_output.weight");
    reveal_strlit(".ffn_norm.weight");
    reveal_strlit(".ffn_gate.weight");
    reveal_strlit(".ffn_up.weight");
    reveal_strlit(".ffn_down.weight");
    reveal_strlit(".ffn_gate.bias");
    reveal_strlit(".ffn_up.bias");
    reveal_strlit(".ffn_down.bias");
}

/// The tensor of layer `i` that is written under a name.
#[verifier::opaque]
spec fn layer_piece(b: LlamaBlock, i: int, rest: Seq<char>) -> Option<Piece> {
    if rest == ".attn_norm.weight"@ {
        Some(vector_piece(layer_name(i, rest), b.attn_norm.weight@))
    } else if rest == ".attn_q.weight"@ {
        Some(weight_piece(layer_name(i, rest), b.attn.wq, GgufQuant::F32))
    } else if rest == ".attn_q.bias"@ {
        Some(vector_piece(layer_name(i, rest), b.attn.wq.bias.data@))
    } else if rest == ".attn_k.weight"@ {
        Some(weight_piece(layer_name(i, rest), b.attn.wk, GgufQuant::F32))
    } else if rest == ".attn_k.bias"@ {
        Some(vector_piece(layer_name(i, rest), b.attn.wk.bias.data@))
    } else if rest == ".attn_v.weight"@ {
        Some(weight_piece(layer_name(i, rest), b.attn.wv, GgufQuant::F32))
    } else if rest == ".attn_v.bias"@ {
        Some(vector_piece(layer_name(i, rest), b.attn.wv.bias.data@))
    } else if rest == ".attn_output.weight"@ {
        Some(weight_piece(layer_name(i, rest), b.attn.wo, GgufQuant::F32))
    } else if rest == ".ffn_norm.weight"@ {
        Some(vector_piece(layer_name(i, rest), b.ffn_norm.weight@))
    } else if rest == ".ffn_gate.weight"@ {
        Some(weight_piece(layer_name(i, rest), b.ffn.gate, GgufQuant::F32))
    } else if rest == ".ffn_up.weight"@ {
        Some(weight_piece(layer_name(i, rest), b.ffn.up, GgufQuant::F32))
    } else if rest == ".ffn_down.weight"@ {
        Some(weight_piece(layer_name(i, rest), b.ffn.down, GgufQuant::F32))
    } else {
        None
    }
}

/// What is written under each name.
proof fn lemma_layer_piece(b: LlamaBlock, i: int)
    ensures
        layer_piece(b, i, ".attn_norm.weight"@) == Some(vector_piece(layer_name(i, ".attn_norm.weight"@), b.attn_norm.weight@)),
        layer_piece(b, i, ".attn_q.weight"@) == Some(weight_piece(layer_name(i, ".attn_q.weight"@), b.attn.wq, GgufQuant::F32)),
        layer_piece(b, i, ".attn_q.bias"@) == Some(vector_piece(layer_name(i, ".attn_q.bias"@), b.attn.wq.bias.data@)),
        layer_piece(b, i, ".attn_k.weight"@) == Some(weight_piece(layer_name(i, ".attn_k.weight"@), b.attn.wk, GgufQuant::F32)),
        layer_piece(b, i, ".attn_k.bias"@) == Some(vector_piece(layer_name(i, ".attn_k.bias"@), b.attn.wk.bias.data@)),
        layer_piece(b, i, ".attn_v.weight"@) == Some(weight_piece(layer_name(i, ".attn_v.weight"@), b.attn.wv, GgufQuant::F32)),
        layer_piece(b, i, ".attn_v.bias"@) == Some(vector_piece(layer_name(i, ".attn_v.bias"@), b.attn.wv.bias.data@)),
        layer_piece(b, i, ".attn_output.weight"@) == Some(weight_piece(layer_name(i, ".attn_output.weight"@), b.attn.wo, GgufQuant::F32)),
        layer_piece(b, i, ".ffn_norm.weight"@) == Some(vector_piece(layer_name(i, ".ffn_norm.weight"@), b.ffn_norm.weight@)),
        layer_piece(b, i, ".ffn_gate.weight"@) == Some(weight_piece(layer_name(i, ".ffn_gate.weight"@), b.ffn.gate, GgufQuant::F32)),
        layer_piece(b, i, ".ffn_up.weight"@) == Some(weight_piece(layer_name(i, ".ffn_up.weight"@), b.ffn.up, GgufQuant::F32)),
        layer_piece(b, i, ".ffn_down.weight"@) == Some(weight_piece(layer_name(i, ".ffn_down.weight"@), b.ffn.down, GgufQuant::F32)),
        layer_piece(b, i, ".ffn_gate.bias"@) is None,
        layer_piece(b, i, ".ffn_up.bias"@) is None,
        layer_piece(b, i, ".ffn_down.bias"@) is None,
{
    reveal(layer_piece);
    lemma_rests();
}

proof fn lemma_piece_name(b: LlamaBlock, i: int, rest: Seq<char>)
    ensures
        layer_piece(b, i, rest) is Some ==> layer_piece(b, i, rest)->0.name == layer_name(i, rest)
            && layer_piece(b, i, rest)->0.dims.len() <= 2,
{
    reveal(layer_piece);
}

/// The name is one under which layer `i` has a tensor in the new file.
spec fn is_written(i: int, rest: Seq<char>, source: Gguf) -> bool {
    &&& rest.len() > 0
    &&& rest[0] == '.'
    &&& (rest == ".attn_q.bias"@ || rest == ".attn_k.bias"@ || rest == ".attn_v.bias"@)
        ==> source.entry(layer_name(i, rest)) is Some
}

/// A tensor of layer `i`.
spec fn from_layer(p: Piece, b: LlamaBlock, i: int, source: Gguf) -> bool {
    exists|rest: Seq<char>|
        is_written(i, rest, source) && #[trigger] layer_piece(b, i, rest) == Some(p)
}

/// All are tensors of layer `i`.
spec fn all_from_layer(s: Seq<Piece>, b: LlamaBlock, i: int, source: Gguf) -> bool {
    forall|j: int| 0 <= j < s.len() ==> from_layer(#[trigger] s[j], b, i, source)
}

proof fn lemma_layer_joined(s: Seq<Piece>, t: Seq<Piece>, b: LlamaBlock, i: int, source: Gguf)
    requires
        all_from_layer(s, b, i, source),
        all_from_layer(t, b, i, source),
    ensures
        all_from_layer(s + t, b, i, source),
{
    let u = s + t;
    assert forall|j: int| 0 <= j < u.len() implies from_layer(#[trigger] u[j], b, i, source) by {
        if j < s.len() {
            assert(u[j] == s[j]);
        } else {
            assert(u[j] == t[j - s.len()]);
        }
    }
}

proof fn lemma_one_from_layer(b: LlamaBlock, i: int, rest: Seq<char>, source: Gguf)
    requires
        is_written(i, rest, source),
        layer_piece(b, i, rest) is Some,
    ensures
        all_from_layer(seq![layer_piece(b, i, rest)->0], b, i, source),
{
    assert(from_layer(layer_piece(b, i, rest)->0, b, i, source));
}

/// What is written of a layer are tensors of that layer.
proof fn lemma_layer_pieces(b: LlamaBlock, i: int, source: Gguf)
    ensures
        all_from_layer(layer_pieces(b, i, source, GgufQuant::F32), b, i, source),
{
    reveal(layer_pieces);
    lemma_rests();
    lemma_layer_piece(b, i);
    let none = Seq::<Piece>::empty();
    assert(all_from_layer(none, b, i, source));
    let mut acc = none;
    let part = seq![vector_piece(layer_name(i, ".attn_norm.weight"@), b.attn_norm.weight@)];
    lemma_one_from_layer(b, i, ".attn_norm.weight"@, source);
    assert(all_from_layer(part, b, i, source));
    lemma_layer_joined(acc, part, b, i, source);
    acc = acc + part;
    let part = seq![weight_piece(layer_name(i, ".attn_q.weight"@), b.attn.wq, GgufQuant::F32)];
    lemma_one_from_layer(b, i, ".attn_q.weight"@, source);
    assert(all_from_layer(part, b, i, source));
    lemma_layer_joined(acc, part, b, i, source);
    acc = acc + part;
    let part = bias_pieces(layer_name(i, ".attn_q.bias"@), b.attn.wq, source);
    if source.entry(layer_name(i, ".attn_q.bias"@)) is Some {
        lemma_one_from_layer(b, i, ".attn_q.bias"@, source);
    }
    assert(all_from_layer(part, b, i, source));
    lemma_layer_joined(acc, part, b, i, source);
    acc = acc + part;
    let part = seq![weight_piece(layer_name(i, ".attn_k.weight"@), b.attn.wk, GgufQuant::F32)];
    lemma_one_from_layer(b, i, ".attn_k.weight"@, source);
    assert(all_from_layer(part, b, i, source));
    lemma_layer_joined(acc, part, b, i, source);
    acc = acc + part;
    let part = bias_pieces(layer_name(i, ".attn_k.bias"@), b.attn.wk, source);
    if source.entry(layer_name(i, ".attn_k.bias"@)) is Some {
        lemma_one_from_layer(b, i, ".attn_k.bias"@, source);
    }
    assert(all_from_layer(part, b, i, source));
    lemma_layer_joined(acc, part, b, i, source);
    acc = acc + part;
    let part = seq![weight_piece(layer_name(i, ".attn_v.weight"@), b.attn.wv, GgufQuant::F32)];
    lemma_one_from_layer(b, i, ".attn_v.weight"@, source);
    assert(all_from_layer(part, b, i, source));
    lemma_layer_joined(acc, part, b, i, source);
    acc = acc + part;
    let part = bias_pieces(layer_name(i, ".attn_v.bias"@), b.attn.wv, source);
    if source.entry(layer_name(i, ".attn_v.bias"@)) is Some {
        lemma_one_from_layer(b, i, ".attn_v.bias"@, source);
    }
    assert(all_from_layer(part, b, i, source));
    lemma_layer_joined(acc, part, b, i, source);
    acc = acc + part;
    let part = seq![weight_piece(layer_name(i, ".attn_output.weight"@), b.attn.wo, GgufQuant::F32)];
    lemma_one_from_layer(b, i, ".attn_output.weight"@, source);
    assert(all_from_layer(part, b, i, source));
    lemma_layer_joined(acc, part, b, i, source);
    acc = acc + part;
    let part = seq![vector_piece(layer_name(i, ".ffn_norm.weight"@), b.ffn_norm.weight@)];
    lemma_one_from_layer(b, i, ".ffn_norm.weight"@, source);
    assert(all_from_layer(part, b, i, source));
    lemma_layer_joined(acc, part, b, i, source);
    acc = acc + part;
    let part = seq![weight_piece(layer_name(i, ".ffn_gate.weight"@), b.ffn.gate, GgufQuant::F32)];
    lemma_one_from_layer(b, i, ".ffn_gate.weight"@, source);
    assert(all_from_layer(part, b, i, source));
    lemma_layer_joined(acc, part, b, i, source);
    acc = acc + part;
    let part = seq![weight_piece(layer_name(i, ".ffn_up.weight"@), b.ffn.up, GgufQuant::F32)];
    lemma_one_from_layer(b, i, ".ffn_up.weight"@, source);
    assert(all_from_layer(part, b, i, source));
    lemma_layer_joined(acc, part, b, i, source);
    acc = acc + part;
    let part = seq![weight_piece(layer_name(i, ".ffn_down.weight"@), b.ffn.down, GgufQuant::F32)];
    lemma_one_from_layer(b, i, ".ffn_down.weight"@, source);
    assert(all_from_layer(part, b, i, source));
    lemma_layer_joined(acc, part, b, i, source);
    acc = acc + part;
    assert(acc == layer_pieces(b, i, source, GgufQuant::F32));
}

proof fn lemma_in_joined(s: Seq<Piece>, t: Seq<Piece>, p: Piece)
    requires
        s.contains(p) || t.contains(p),
    ensures
        (s + t).contains(p),
{
    if s.contains(p) {
        let j = s.index_of(p);
        assert((s + t)[j] == p);
    } else {
        let j = t.index_of(p);
        assert((s + t)[s.len() + j] == p);
    }
}

/// Every tensor of a layer is written.
proof fn lemma_layer_holds(b: LlamaBlock, i: int, rest: Seq<char>, source: Gguf)
    requires
        is_written(i, rest, source),
        layer_piece(b, i, rest) is Some,
    ensures
        layer_pieces(b, i, source, GgufQuant::F32).contains(layer_piece(b, i, rest)->0),
{
    reveal(layer_pieces);
    reveal(layer_piece);
    lemma_rests();
    let p = layer_piece(b, i, rest)->0;
    let mut acc = Seq::<Piece>::empty();
    let mut found = false;
    let part = seq![vector_piece(layer_name(i, ".attn_norm.weight"@), b.attn_norm.weight@)];
    if rest == ".attn_norm.weight"@ {
        assert(part[0] == p);
        found = true;
    }
    assert(found ==> acc.contains(p) || part.contains(p));
    if found {
        lemma_in_joined(acc, part, p);
    }
    acc = acc + part;
    let part = seq![weight_piece(layer_name(i, ".attn_q.weight"@), b.attn.wq, GgufQuant::F32)];
    if rest == ".attn_q.weight"@ {
        assert(part[0] == p);
        found = true;
    }
    assert(found ==> acc.contains(p) || part.contains(p));
    if found {
        lemma_in_joined(acc, part, p);
    }
    acc = acc + part;
    let part = bias_pieces(layer_name(i, ".attn_q.bias"@), b.attn.wq, source);
    if rest == ".attn_q.bias"@ {
        assert(part[0] == p);
        found = true;
    }
    assert(found ==> acc.contains(p) || part.contains(p));
    if found {
        lemma_in_joined(acc, part, p);
    }
    acc = acc + part;
    let part = seq![weight_piece(layer_name(i, ".attn_k.weight"@), b.attn.wk, GgufQuant::F32)];
    if rest == ".attn_k.weight"@ {
        assert(part[0] == p);
        found = true;
    }
    assert(found ==> acc.contains(p) || part.contains(p));
    if found {
        lemma_in_joined(acc, part, p);
    }
    acc = acc + part;
    let part = bias_pieces(layer_name(i, ".attn_k.bias"@), b.attn.wk, source);
    if rest == ".attn_k.bias"@ {
        assert(part[0] == p);
        found = true;
    }
    assert(found ==> acc.contains(p) || part.contains(p));
    if found {
        lemma_in_joined(acc, part, p);
    }
    acc = acc + part;
    let part = seq![weight_piece(layer_name(i, ".attn_v.weight"@), b.attn.wv, GgufQuant::F32)];
    if rest == ".attn_v.weight"@ {
        assert(part[0] == p);
        found = true;
    }
    assert(found ==> acc.contains(p) || part.contains(p));
    if found {
        lemma_in_joined(acc, part, p);
    }
    acc = acc + part;
    let part = bias_pieces(layer_name(i, ".attn_v.bias"@), b.attn.wv, source);
    if rest == ".attn_v.bias"@ {
        assert(part[0] == p);
        found = true;
    }
    assert(found ==> acc.contains(p) || part.contains(p));
    if found {
        lemma_in_joined(acc, part, p);
    }
    acc = acc + part;
    let part = seq![weight_piece(layer_name(i, ".attn_output.weight"@), b.attn.wo, GgufQuant::F32)];
    if rest == ".attn_output.weight"@ {
        assert(part[0] == p);
        found = true;
    }
    assert(found ==> acc.contains(p) || part.contains(p));
    if found {
        lemma_in_joined(acc, part, p);
    }
    acc = acc + part;
    let part = seq![vector_piece(layer_name(i, ".ffn_norm.weight"@), b.ffn_norm.weight@)];
    if rest == ".ffn_norm.weight"@ {
        assert(part[0] == p);
        found = true;
    }
    assert(found ==> acc.contains(p) || part.contains(p));
    if found {
        lemma_in_joined(acc, part, p);
    }
    acc = acc + part;
    let part = seq![weight_piece(layer_name(i, ".ffn_gate.weight"@), b.ffn.gate, GgufQuant::F32)];
    if rest == ".ffn_gate.weight"@ {
        assert(part[0] == p);
        found = true;
    }
    assert(found ==> acc.contains(p) || part.contains(p));
    if found {
        lemma_in_joined(acc, part, p);
    }
    acc = acc + part;
    let part = seq![weight_piece(layer_name(i, ".ffn_up.weight"@), b.ffn.up, GgufQuant::F32)];
    if rest == ".ffn_up.weight"@ {
        assert(part[0] == p);
        found = true;
    }
    assert(found ==> acc.contains(p) || part.contains(p));
    if found {
        lemma_in_joined(acc, part, p);
    }
    acc = acc + part;
    let part = seq![weight_piece(layer_name(i, ".ffn_down.weight"@), b.ffn.down, GgufQuant::F32)];
    if rest == ".ffn_down.weight"@ {
        assert(part[0] == p);
        found = true;
    }
    assert(found ==> acc.contains(p) || part.contains(p));
    if found {
        lemma_in_joined(acc, part, p);
    }
    acc = acc + part;
    assert(acc == layer_pieces(b, i, source, GgufQuant::F32));
}

// ---------------------------------------------------------------------------
// The tensors of a model
// ---------------------------------------------------------------------------

/// A tensor of the model.
spec fn belongs(p: Piece, m: LlamaModel, source: Gguf) -> bool {
    ||| p == tokens_piece(m, GgufQuant::F32)
    ||| p == vector_piece("output_norm.weight"@, m.final_norm.weight@)
    ||| source.entry("output.weight"@) is Some && p == weight_piece(
        "output.weight"@,
        m.lm_head,
        GgufQuant::F32,
    )
    ||| exists|k: int|
        0 <= k < m.blocks@.len() && from_layer(p, #[trigger] m.blocks@[k], k, source)
}

spec fn all_belong(s: Seq<Piece>, m: LlamaModel, source: Gguf) -> bool {
    forall|j: int| 0 <= j < s.len() ==> belongs(#[trigger] s[j], m, source)
}

proof fn lemma_belong_joined(s: Seq<Piece>, t: Seq<Piece>, m: LlamaModel, source: Gguf)
    requires
        all_belong(s, m, source),
        all_belong(t, m, source),
    ensures
        all_belong(s + t, m, source),
{
    let u = s + t;
    assert forall|j: int| 0 <= j < u.len() implies belongs(#[trigger] u[j], m, source) by {
        if j < s.len() {
            assert(u[j] == s[j]);
        } else {
            assert(u[j] == t[j - s.len()]);
        }
    }
}

proof fn lemma_layers_belong(m: LlamaModel, n: nat, source: Gguf)
    requires
        n <= m.blocks@.len(),
    ensures
        all_belong(layers_pieces(m, n, source, GgufQuant::F32), m, source),
    decreases n,
{
    if n > 0 {
        let k = n - 1;
        lemma_layers_belong(m, k as nat, source);
        let part = layer_pieces(m.blocks@[k], k, source, GgufQuant::F32);
        lemma_layer_pieces(m.blocks@[k], k, source);
        assert forall|j: int| 0 <= j < part.len() implies belongs(#[trigger] part[j], m, source) by {
            assert(from_layer(part[j], m.blocks@[k], k, source));
        }
        lemma_belong_joined(layers_pieces(m, k as nat, source, GgufQuant::F32), part, m, source);
    }
}

/// What is written of a model are its tensors.
proof fn lemma_model_belongs(m: LlamaModel, source: Gguf)
    ensures
        all_belong(model_pieces(m, source, GgufQuant::F32), m, source),
{
    let q = GgufQuant::F32;
    let a = seq![tokens_piece(m, q)];
    let b = layers_pieces(m, m.blocks@.len(), source, q);
    let c = seq![vector_piece("output_norm.weight"@, m.final_norm.weight@)];
    let d = if source.entry("output.weight"@) is Some {
        seq![weight_piece("output.weight"@, m.lm_head, q)]
    } else {
        Seq::empty()
    };
    assert(all_belong(a, m, source));
    lemma_layers_belong(m, m.blocks@.len(), source);
    assert(all_belong(c, m, source));
    assert(all_belong(d, m, source));
    lemma_belong_joined(a, b, m, source);
    lemma_belong_joined(a + b, c, m, source);
    lemma_belong_joined(a + b + c, d, m, source);
}

proof fn lemma_layers_hold(m: LlamaModel, n: nat, i: int, p: Piece, source: Gguf)
    requires
        0 <= i < n <= m.blocks@.len(),
        layer_pieces(m.blocks@[i], i, source, GgufQuant::F32).contains(p),
    ensures
        layers_pieces(m, n, source, GgufQuant::F32).contains(p),
    decreases n,
{
    let k = n - 1;
    if i < k {
        lemma_layers_hold(m, k as nat, i, p, source);
    }
    lemma_in_joined(
        layers_pieces(m, k as nat, source, GgufQuant::F32),
        layer_pieces(m.blocks@[k], k, source, GgufQuant::F32),
        p,
    );
}

/// Every tensor of a model is written.
proof fn lemma_model_holds(m: LlamaModel, p: Piece, source: Gguf)
    requires
        belongs(p, m, source),
    ensures
        model_pieces(m, source, GgufQuant::F32).contains(p),
{
    let q = GgufQuant::F32;
    let a = seq![tokens_piece(m, q)];
    let b = layers_pieces(m, m.blocks@.len(), source, q);
    let c = seq![vector_piece("output_norm.weight"@, m.final_norm.weight@)];
    let d = if source.entry("output.weight"@) is Some {
        seq![weight_piece("output.weight"@, m.lm_head, q)]
    } else {
        Seq::empty()
    };
    if p == tokens_piece(m, q) {
        assert(a[0] == p);
        lemma_in_joined(a, b, p);
        lemma_in_joined(a + b, c, p);
        lemma_in_joined(a + b + c, d, p);
    } else if p == vector_piece("output_norm.weight"@, m.final_norm.weight@) {
        assert(c[0] == p);
        lemma_in_joined(a + b, c, p);
        lemma_in_joined(a + b + c, d, p);
    } else if source.entry("output.weight"@) is Some && p == weight_piece(
        "output.weight"@,
        m.lm_head,
        q,
    ) {
        assert(d[0] == p);
        lemma_in_joined(a + b + c, d, p);
    } else {
        let k = choose|k: int|
            0 <= k < m.blocks@.len() && from_layer(p, #[trigger] m.blocks@[k], k, source);
        let rest = choose|rest: Seq<char>|
            is_written(k, rest, source) && #[trigger] layer_piece(m.blocks@[k], k, rest) == Some(p);
        lemma_layer_holds(m.blocks@[k], k, rest, source);
        lemma_layers_hold(m, m.blocks@.len(), k, p, source);
        lemma_in_joined(a, b, p);
        lemma_in_joined(a + b, c, p);
        lemma_in_joined(a + b + c, d, p);
    }
}

/// No tensor of a layer has one of the other names.
proof fn lemma_other_names(i: int, rest: Seq<char>)
    ensures
        layer_name(i, rest) != "token_embd.weight"@,
        layer_name(i, rest) != "output_norm.weight"@,
        layer_name(i, rest) != "output.weight"@,
        layer_name(i, rest) != "output.bias"@,
        "token_embd.weight"@ != "output_norm.weight"@,
        "token_embd.weight"@ != "output.weight"@,
        "token_embd.weight"@ != "output.bias"@,
        "output_norm.weight"@ != "output.weight"@,
        "output_norm.weight"@ != "output.bias"@,
        "output.weight"@ != "output.bias"@,
{
    reveal_strlit("blk.");
    reveal_strlit("token_embd.weight");
    reveal_strlit("output_norm.weight");
    reveal_strlit("output.weight");
    reveal_strlit("output.bias");
    assert(layer_name(i, rest)[0] == 'b');
    assert("token_embd.weight"@[0] == 't');
    assert("output_norm.weight"@[0] == 'o');
    assert("output.weight"@[0] == 'o');
    assert("output.bias"@[0] == 'o');
    assert("output_norm.weight"@.len() == 18);
    assert("output.weight"@.len() == 13);
    assert("output.bias"@.len() == 11);
}

/// The tensor of a layer that has a name is the one of that layer.
proof fn lemma_layer_is_named(p: Piece, m: LlamaModel, source: Gguf, i: int, rest: Seq<char>)
    requires
        belongs(p, m, source),
        0 <= i,
        rest.len() > 0,
        rest[0] == '.',
        p.name == layer_name(i, rest),
    ensures
        i < m.blocks@.len(),
        is_written(i, rest, source),
        layer_piece(m.blocks@[i], i, rest) == Some(p),
{
    lemma_other_names(i, rest);
    let k = choose|k: int|
        0 <= k < m.blocks@.len() && from_layer(p, #[trigger] m.blocks@[k], k, source);
    let r = choose|r: Seq<char>|
        is_written(k, r, source) && #[trigger] layer_piece(m.blocks@[k], k, r) == Some(p);
    lemma_piece_name(m.blocks@[k], k, r);
    lemma_layer_names(i, k, rest, r);
}

/// A tensor that has one of the other names is none of a layer.
proof fn lemma_other_is_named(p: Piece, m: LlamaModel, source: Gguf)
    requires
        belongs(p, m, source),
    ensures
        p.name == "token_embd.weight"@ ==> p == tokens_piece(m, GgufQuant::F32),
        p.name == "output_norm.weight"@ ==> p == vector_piece(
            "output_norm.weight"@,
            m.final_norm.weight@,
        ),
        p.name == "output.weight"@ ==> source.entry("output.weight"@) is Some && p == weight_piece(
            "output.weight"@,
            m.lm_head,
            GgufQuant::F32,
        ),
        p.name != "output.bias"@,
{
    lemma_other_names(0, Seq::empty());
    if exists|k: int|
        0 <= k < m.blocks@.len() && from_layer(p, #[trigger] m.blocks@[k], k, source) {
        let k = choose|k: int|
            0 <= k < m.blocks@.len() && from_layer(p, #[trigger] m.blocks@[k], k, source);
        let r = choose|r: Seq<char>|
            is_written(k, r, source) && #[trigger] layer_piece(m.blocks@[k], k, r) == Some(p);
        lemma_piece_name(m.blocks@[k], k, r);
        lemma_other_names(k, r);
    }
}

// ---------------------------------------------------------------------------
// Reading
// ---------------------------------------------------------------------------

/// The first entry of a name is one of that name.
proof fn lemma_named(es: Seq<Entry>, name: Seq<char>)
    ensures
        match named(es, name) {
            Some(e) => exists|k: int| 0 <= k < es.len() && #[trigger] es[k] == e && e.name == name,
            None => forall|k: int| 0 <= k < es.len() ==> (#[trigger] es[k]).name != name,
        },
    decreases es.len(),
{
    if es.len() > 0 && es[0].name != name {
        let rest = es.drop_first();
        lemma_named(rest, name);
        match named(rest, name) {
            Some(e) => {
                let k = choose|k: int|
                    0 <= k < rest.len() && #[trigger] rest[k] == e && e.name == name;
                assert(es[k + 1] == e);
            },
            None => {
                assert forall|k: int| 0 <= k < es.len() implies (#[trigger] es[k]).name != name by {
                    if k > 0 {
                        assert(rest[k - 1] == es[k]);
                    }
                }
            },
        }
    } else if es.len() > 0 {
        assert(es[0] == named(es, name)->0);
    }
}


/// The file holds these tensors at an alignment, and each stands where its entry
/// says.
spec fn opened_at(g: Gguf, ts: Seq<Piece>, a: int) -> bool {
    &&& entries_of(g.tensors@) == Seq::new(ts.len(), |i: int| entry_of(ts, i, a))
    &&& forall|i: int|
        0 <= i < ts.len() ==> stands_at(
            g.bytes@,
            g.data_offset + entry_of(ts, i, a).offset,
            (#[trigger] ts[i]).data,
        )
}

/// The file holds these tensors, and each stands where its entry says.
#[verifier::opaque]
spec fn opened(g: Gguf, ts: Seq<Piece>) -> bool {
    exists|a: int| opened_at(g, ts, a)
}

/// No other tensor has the name of this one.
#[verifier::opaque]
spec fn alone(ts: Seq<Piece>, p: Piece) -> bool {
    &&& ts.contains(p)
    &&& forall|j: int| 0 <= j < ts.len() && (#[trigger] ts[j]).name == p.name ==> ts[j] == p
}

/// Numbers in full precision come back.
proof fn lemma_full_precision(data: Seq<F32>)
    ensures
        is_whole(GGML_F32, data.len() as int),
        encoded(GGML_F32, data).len() == bytes_of(GGML_F32, data.len() as int),
        elements_of(GGML_F32, encoded(GGML_F32, data), data.len() as int) == data,
{
    let raw = encoded(GGML_F32, data);
    let n = data.len() as int;
    assert forall|i: int| 0 <= i < n implies elements_of(GGML_F32, raw, n)[i] == data[i] by {
        written_tensors_are_read_back(GGML_F32, data, i);
    }
    assert(elements_of(GGML_F32, raw, n) =~= data);
    if n > 0 {
        written_tensors_are_read_back(GGML_F32, data, 0);
    }
}

/// A tensor in full precision is found under its name and read back.
proof fn lemma_found(g: Gguf, ts: Seq<Piece>, p: Piece, data: Seq<F32>)
    requires
        opened(g, ts),
        alone(ts, p),
        p.ggml_type == GGML_F32,
        p.data == encoded(GGML_F32, data),
        elements(p.dims) == data.len(),
        data.len() <= usize::MAX,
    ensures
        g.entry(p.name) is Some,
        g.entry(p.name)->0.dims == p.dims,
        g.data_of(g.entry(p.name)->0) == Some(data),
        g.data_named(p.name) == Some(data),
{
    reveal(opened);
    reveal(alone);
    let a = choose|a: int| opened_at(g, ts, a);
    let es = entries_of(g.tensors@);
    lemma_named(es, p.name);
    let at = ts.index_of(p);
    assert(ts[at] == p);
    assert(es[at].name == p.name);
    let k = choose|k: int|
        0 <= k < es.len() && #[trigger] es[k] == named(es, p.name)->0 && es[k].name == p.name;
    assert(es[k] == entry_of(ts, k, a));
    assert(ts[k].name == p.name);
    assert(ts[k] == p);
    lemma_full_precision(data);
}

/// A name that no tensor has is not found.
proof fn lemma_not_found(g: Gguf, ts: Seq<Piece>, name: Seq<char>)
    requires
        opened(g, ts),
        forall|j: int| 0 <= j < ts.len() ==> (#[trigger] ts[j]).name != name,
    ensures
        g.entry(name) is None,
{
    reveal(opened);
    let a = choose|a: int| opened_at(g, ts, a);
    let es = entries_of(g.tensors@);
    lemma_named(es, name);
    if named(es, name) is Some {
        let k = choose|k: int|
            0 <= k < es.len() && #[trigger] es[k] == named(es, name)->0 && es[k].name == name;
        assert(es[k] == entry_of(ts, k, a));
        assert(ts[k].name == name);
    }
}

/// A matrix that is written row by output is read back as it was.
proof fn lemma_rows_return(l: Linear)
    requires
        l.fits(),
        l.quant is None,
    ensures
        rows_by_output(l).len() == l.out_f * l.in_f,
        transposed(rows_by_output(l), l.out_f as int, l.in_f as int) == l.weight.data@,
{
    let r = l.in_f as int;
    let c = l.out_f as int;
    assert(c * r >= 0 && c * r == r * c) by (nonlinear_arith)
        requires
            r >= 0,
            c >= 0,
    ;
    let w = transposed(rows_by_output(l), c, r);
    assert forall|k: int| 0 <= k < r * c implies #[trigger] w[k] == l.weight.data@[k] by {
        lemma_split(k, r, c);
        let i = k / c;
        let j = k % c;
        lemma_cell(j, i, c, r);
        let t = cell(j, i, r);
        crate::train_ops::lemma_unsplit(j, i, r);
        assert(rows_by_output(l)[t] == l.weight_at(i, j));
    }
    assert(w =~= l.weight.data@);
}

proof fn lemma_two_dims(a: u64, b: u64)
    ensures
        elements(seq![a, b]) == a * b,
        elements(seq![a]) == a,
{
    let d = seq![a, b];
    assert(d.drop_last() =~= seq![a]);
    assert(seq![a].drop_last() =~= Seq::<u64>::empty());
    assert(elements(Seq::<u64>::empty()) == 1);
    assert(elements(seq![a]) == 1 * a as nat);
    assert(elements(d) == elements(seq![a]) * b as nat);
}

/// A layer in full precision; one that is written without its bias has a bias of
/// zeros.
pub open spec fn is_plain(l: Linear, biased: bool) -> bool {
    &&& l.fits()
    &&& l.quant is None
    &&& !biased ==> l.bias.data@ == Seq::new(l.out_f as nat, |i: int| F32 { bits: 0 })
}

/// A layer is read back whose weight, and bias if there is one, are found.
proof fn lemma_linear_found(g: Gguf, ts: Seq<Piece>, name: Seq<char>, bias: Option<Seq<char>>, l: Linear)
    requires
        opened(g, ts),
        alone(ts, weight_piece(name, l, GgufQuant::F32)),
        bias is Some ==> (g.entry(bias->0) is None || alone(ts, vector_piece(bias->0, l.bias.data@))),
        is_plain(l, bias is Some && g.entry(bias->0) is Some),
    ensures
        g.has_linear(name, bias),
        g.is_linear(name, bias, None, l),
{
    let p = weight_piece(name, l, GgufQuant::F32);
    let raw = rows_by_output(l);
    lemma_rows_return(l);
    lemma_two_dims(l.in_f as u64, l.out_f as u64);
    assert(l.in_f * l.out_f == l.out_f * l.in_f) by (nonlinear_arith);
    lemma_found(g, ts, p, raw);
    let e = g.entry(name)->0;
    assert(e.dims == seq![l.in_f as u64, l.out_f as u64]);
    assert(e.dims[0] == l.in_f as u64 && e.dims[1] == l.out_f as u64);
    if bias is Some && g.entry(bias->0) is Some {
        lemma_vector_found(g, ts, bias->0, l.bias.data@);
    }
}

/// A vector is read back.
proof fn lemma_vector_found(g: Gguf, ts: Seq<Piece>, name: Seq<char>, v: Seq<F32>)
    requires
        opened(g, ts),
        alone(ts, vector_piece(name, v)),
        v.len() <= usize::MAX,
    ensures
        g.entry(name) is Some,
        g.data_named(name) == Some(v),
{
    lemma_two_dims(v.len() as u64, 0);
    lemma_found(g, ts, vector_piece(name, v), v);
}

// ---------------------------------------------------------------------------
// Metadata
// ---------------------------------------------------------------------------

/// Both maps say the same of a key.
pub open spec fn agree(a: Map<Seq<char>, MetaView>, b: Map<Seq<char>, MetaView>, key: Seq<char>) -> bool {
    &&& a.dom().contains(key) == b.dom().contains(key)
    &&& a.dom().contains(key) ==> a[key] == b[key]
}

proof fn lemma_kept(s: Seq<(Seq<char>, MetaView)>, key: Seq<char>)
    requires
        !is_renewed(key),
    ensures
        agree(map_of(kept(s)), map_of(s), key),
    decreases s.len(),
{
    if s.len() > 0 {
        let init = s.drop_last();
        lemma_kept(init, key);
        if !is_renewed(s.last().0) {
            assert(kept(s).drop_last() =~= kept(init));
            assert(kept(s).last() == s.last());
        }
    }
}

/// Entries but those renewed are written as they are in the source.
proof fn lemma_pairs_agree(source: Gguf, key: Seq<char>)
    requires
        !is_renewed(key),
    ensures
        agree(map_of(model_pairs(source, GgufQuant::F32)), source.metadata@, key),
{
    let all = pairs_of(source.metadata.entries@);
    lemma_kept(all, key);
    let full = model_pairs(source, GgufQuant::F32);
    let once = full.drop_last();
    assert(once.drop_last() =~= kept(all));
    assert(map_of(full) == map_of(once).insert(full.last().0, full.last().1));
    assert(map_of(once) == map_of(once.drop_last()).insert(once.last().0, once.last().1));
}

proof fn lemma_kept_are_writable(s: Seq<(Seq<char>, MetaView)>)
    requires
        forall|k: int| 0 <= k < s.len() ==> is_writable((#[trigger] s[k]).1),
    ensures
        forall|k: int| 0 <= k < kept(s).len() ==> is_writable((#[trigger] kept(s)[k]).1),
    decreases s.len(),
{
    if s.len() > 0 {
        let init = s.drop_last();
        assert forall|k: int| 0 <= k < init.len() implies is_writable((#[trigger] init[k]).1) by {
            assert(init[k] == s[k]);
        }
        lemma_kept_are_writable(init);
        assert(is_writable(s[s.len() - 1].1));
        assert forall|k: int| 0 <= k < kept(s).len() implies is_writable((#[trigger] kept(s)[k]).1) by {
            if k < kept(init).len() {
                assert(kept(s)[k] == kept(init)[k]);
            }
        }
    }
}

/// A key of the file that begins with the architecture is not renewed.
proof fn lemma_keys(arch: Seq<char>, rest: Seq<char>)
    requires
        arch == "llama"@ || arch == "qwen2"@,
    ensures
        !is_renewed(arch + rest),
        !is_renewed("general.architecture"@),
{
    reveal_strlit("llama");
    reveal_strlit("qwen2");
    reveal_strlit("general.architecture");
    reveal_strlit("general.file_type");
    reveal_strlit("general.quantization_version");
    assert((arch + rest)[0] == arch[0]);
    assert("general.file_type"@[0] == 'g');
    assert("general.quantization_version"@[0] == 'g');
    assert("general.file_type"@[8] == 'f');
    assert("general.quantization_version"@[8] == 'q');
    assert("general.architecture"@[8] == 'a');
}

/// Two files that agree on a key give the same under it.
proof fn lemma_key_agrees(g: Gguf, source: Gguf, rest: Seq<char>)
    requires
        g.metadata@ == map_of(model_pairs(source, GgufQuant::F32)),
        source.is_decoder(),
        g.architecture_spec() == source.architecture_spec(),
    ensures
        g.key(rest) == source.key(rest),
        g.count_of(g.key(rest)) == source.count_of(source.key(rest)),
        forall|n: int| g.count_or(g.key(rest), n) == source.count_or(source.key(rest), n),
        forall|x: F32| g.number_or(g.key(rest), x) == source.number_or(source.key(rest), x),
{
    lemma_keys(source.architecture_spec()->0, rest);
    lemma_pairs_agree(source, source.key(rest));
}

/// The new file gives the sizes of the source.
proof fn lemma_sizes_agree(g: Gguf, source: Gguf, z: Sizes)
    requires
        g.metadata@ == map_of(model_pairs(source, GgufQuant::F32)),
        source.is_decoder(),
        source.has_sizes(),
        source.sizes_are(z),
    ensures
        g.is_decoder(),
        g.architecture_spec() == source.architecture_spec(),
        g.has_sizes(),
        g.sizes_are(z),
{
    lemma_keys(source.architecture_spec()->0, Seq::empty());
    lemma_pairs_agree(source, "general.architecture"@);
    assert(g.architecture_spec() == source.architecture_spec());
    lemma_key_agrees(g, source, ".embedding_length"@);
    lemma_key_agrees(g, source, ".block_count"@);
    lemma_key_agrees(g, source, ".attention.head_count"@);
    lemma_key_agrees(g, source, ".attention.head_count_kv"@);
    lemma_key_agrees(g, source, ".feed_forward_length"@);
    lemma_key_agrees(g, source, ".attention.key_length"@);
    lemma_key_agrees(g, source, ".rope.dimension_count"@);
    lemma_key_agrees(g, source, ".rope.freq_base"@);
    lemma_key_agrees(g, source, ".attention.layer_norm_rms_epsilon"@);
    lemma_key_agrees(g, source, ".context_length"@);
}

proof fn lemma_pairs_count(s: Seq<(Seq<char>, MetaView)>)
    ensures
        s.len() <= pairs_bytes(s).len(),
    decreases s.len(),
{
    if s.len() > 0 {
        lemma_pairs_count(s.drop_last());
    }
}

proof fn lemma_directory_count(ts: Seq<Piece>, n: nat, a: int)
    ensures
        n <= directory_bytes(ts, n, a).len(),
    decreases n,
{
    if n > 0 {
        lemma_directory_count(ts, (n - 1) as nat, a);
    }
}

// ---------------------------------------------------------------------------
// Whole models
// ---------------------------------------------------------------------------

proof fn lemma_layer_alone(m: LlamaModel, source: Gguf, i: int, rest: Seq<char>)
    requires
        0 <= i < m.blocks@.len(),
        is_written(i, rest, source),
        layer_piece(m.blocks@[i], i, rest) is Some,
    ensures
        alone(
            model_pieces(m, source, GgufQuant::F32),
            layer_piece(m.blocks@[i], i, rest)->0,
        ),
{
    reveal(alone);
    let ts = model_pieces(m, source, GgufQuant::F32);
    let p = layer_piece(m.blocks@[i], i, rest)->0;
    lemma_piece_name(m.blocks@[i], i, rest);
    assert(from_layer(p, m.blocks@[i], i, source));
    lemma_model_holds(m, p, source);
    lemma_model_belongs(m, source);
    assert forall|j: int| 0 <= j < ts.len() && (#[trigger] ts[j]).name == p.name implies ts[j]
        == p by {
        assert(belongs(ts[j], m, source));
        lemma_layer_is_named(ts[j], m, source, i, rest);
    }
}

proof fn lemma_layer_absent(g: Gguf, m: LlamaModel, source: Gguf, i: int, rest: Seq<char>)
    requires
        opened(g, model_pieces(m, source, GgufQuant::F32)),
        0 <= i < m.blocks@.len(),
        rest.len() > 0,
        rest[0] == '.',
        !is_written(i, rest, source) || layer_piece(m.blocks@[i], i, rest) is None,
    ensures
        g.entry(layer_name(i, rest)) is None,
{
    let ts = model_pieces(m, source, GgufQuant::F32);
    lemma_model_belongs(m, source);
    assert forall|j: int| 0 <= j < ts.len() implies (#[trigger] ts[j]).name != layer_name(
        i,
        rest,
    ) by {
        assert(belongs(ts[j], m, source));
        if ts[j].name == layer_name(i, rest) {
            lemma_layer_is_named(ts[j], m, source, i, rest);
        }
    }
    lemma_not_found(g, ts, layer_name(i, rest));
}

/// Layer `i` is one that a file like `source` can hold whole: in full precision,
/// with the constants of `z`, and without biases but those that `source` has.
pub open spec fn layer_is_plain(source: Gguf, i: int, z: Sizes, b: LlamaBlock) -> bool {
    &&& is_plain(b.attn.wq, source.entry(layer_name(i, ".attn_q.bias"@)) is Some)
    &&& is_plain(b.attn.wk, source.entry(layer_name(i, ".attn_k.bias"@)) is Some)
    &&& is_plain(b.attn.wv, source.entry(layer_name(i, ".attn_v.bias"@)) is Some)
    &&& is_plain(b.attn.wo, false)
    &&& is_plain(b.ffn.gate, false)
    &&& is_plain(b.ffn.up, false)
    &&& is_plain(b.ffn.down, false)
    &&& b.attn_norm.eps == z.eps
    &&& b.ffn_norm.eps == z.eps
    &&& b.attn.n_heads == z.n_heads
    &&& b.attn.n_kv_heads == z.n_kv
    &&& b.attn.head_dim == z.head_dim
    &&& b.attn.rope_dim == z.rope_dim
    &&& b.attn.rope_base == z.rope_base
    &&& b.attn.rope_type == RopeType::Norm
}

/// The model is one that a file like `source`, whose sizes are `z`, can hold
/// whole. Where `source` has no head, the head is that of the token vectors.
pub open spec fn model_is_plain(source: Gguf, z: Sizes, m: LlamaModel) -> bool {
    &&& m.cfg == LlamaConfig {
        vocab_size: m.cfg.vocab_size,
        model_dim: z.dim,
        n_layers: z.n_layers,
        n_heads: z.n_heads,
        n_kv_heads: z.n_kv,
        head_dim: z.head_dim,
        ffn_dim: z.ffn,
        rope_dim: z.rope_dim,
        rope_base: z.rope_base,
        rope_type: RopeType::Norm,
        norm_eps: z.eps,
        context_len: z.ctx,
    }
    &&& m.tok_emb@.len() == m.cfg.vocab_size * z.dim
    &&& m.blocks@.len() == z.n_layers
    &&& z.n_layers > 0 ==> Attention::shape_ok(z.n_heads, z.n_kv, z.head_dim, z.rope_dim)
    &&& forall|i: int|
        0 <= i < z.n_layers ==> layer_is_plain(source, i, z, #[trigger] m.blocks@[i])
    &&& m.final_norm.eps == z.eps
    &&& if source.entry("output.weight"@) is Some {
        is_plain(m.lm_head, false)
    } else {
        carries(
            m.lm_head,
            transposed(m.tok_emb@, m.cfg.vocab_size as int, z.dim as int),
            z.dim as int,
            m.cfg.vocab_size as int,
            Seq::new(m.cfg.vocab_size as nat, |i: int| F32 { bits: 0 }),
            None,
        )
    }
}

/// A layer is read back.
proof fn lemma_layer_returns(g: Gguf, m: LlamaModel, source: Gguf, i: int, z: Sizes)
    requires
        opened(g, model_pieces(m, source, GgufQuant::F32)),
        0 <= i < m.blocks@.len(),
        layer_is_plain(source, i, z, m.blocks@[i]),
    ensures
        g.has_layer(i),
        g.is_layer(i, z, None, m.blocks@[i]),
{
    let ts = model_pieces(m, source, GgufQuant::F32);
    let b = m.blocks@[i];
    lemma_rests();
    lemma_layer_piece(b, i);
    assert(b.attn_norm.weight.len() <= usize::MAX && b.ffn_norm.weight.len() <= usize::MAX);
    lemma_layer_alone(m, source, i, ".attn_norm.weight"@);
    lemma_vector_found(g, ts, layer_name(i, ".attn_norm.weight"@), b.attn_norm.weight@);
    lemma_layer_alone(m, source, i, ".ffn_norm.weight"@);
    lemma_vector_found(g, ts, layer_name(i, ".ffn_norm.weight"@), b.ffn_norm.weight@);
    lemma_layer_alone(m, source, i, ".attn_q.weight"@);
    if source.entry(layer_name(i, ".attn_q.bias"@)) is Some {
        lemma_layer_alone(m, source, i, ".attn_q.bias"@);
        lemma_vector_found(g, ts, layer_name(i, ".attn_q.bias"@), b.attn.wq.bias.data@);
    } else {
        lemma_layer_absent(g, m, source, i, ".attn_q.bias"@);
    }
    lemma_linear_found(
        g,
        ts,
        layer_name(i, ".attn_q.weight"@),
        Some(layer_name(i, ".attn_q.bias"@)),
        b.attn.wq,
    );
    lemma_layer_alone(m, source, i, ".attn_k.weight"@);
    if source.entry(layer_name(i, ".attn_k.bias"@)) is Some {
        lemma_layer_alone(m, source, i, ".attn_k.bias"@);
        lemma_vector_found(g, ts, layer_name(i, ".attn_k.bias"@), b.attn.wk.bias.data@);
    } else {
        lemma_layer_absent(g, m, source, i, ".attn_k.bias"@);
    }
    lemma_linear_found(
        g,
        ts,
        layer_name(i, ".attn_k.weight"@),
        Some(layer_name(i, ".attn_k.bias"@)),
        b.attn.wk,
    );
    lemma_layer_alone(m, source, i, ".attn_v.weight"@);
    if source.entry(layer_name(i, ".attn_v.bias"@)) is Some {
        lemma_layer_alone(m, source, i, ".attn_v.bias"@);
        lemma_vector_found(g, ts, layer_name(i, ".attn_v.bias"@), b.attn.wv.bias.data@);
    } else {
        lemma_layer_absent(g, m, source, i, ".attn_v.bias"@);
    }
    lemma_linear_found(
        g,
        ts,
        layer_name(i, ".attn_v.weight"@),
        Some(layer_name(i, ".attn_v.bias"@)),
        b.attn.wv,
    );
    lemma_layer_alone(m, source, i, ".attn_output.weight"@);
    lemma_linear_found(g, ts, layer_name(i, ".attn_output.weight"@), None, b.attn.wo);
    lemma_layer_alone(m, source, i, ".ffn_gate.weight"@);
    lemma_linear_found(g, ts, layer_name(i, ".ffn_gate.weight"@), None, b.ffn.gate);
    lemma_layer_alone(m, source, i, ".ffn_up.weight"@);
    lemma_linear_found(g, ts, layer_name(i, ".ffn_up.weight"@), None, b.ffn.up);
    lemma_layer_alone(m, source, i, ".ffn_down.weight"@);
    lemma_linear_found(g, ts, layer_name(i, ".ffn_down.weight"@), None, b.ffn.down);
    lemma_layer_absent(g, m, source, i, ".ffn_gate.bias"@);
    lemma_layer_absent(g, m, source, i, ".ffn_up.bias"@);
    lemma_layer_absent(g, m, source, i, ".ffn_down.bias"@);
}

/// The tensors outside of the layers stand alone.
proof fn lemma_rest_alone(m: LlamaModel, source: Gguf)
    ensures
        alone(model_pieces(m, source, GgufQuant::F32), tokens_piece(m, GgufQuant::F32)),
        alone(
            model_pieces(m, source, GgufQuant::F32),
            vector_piece("output_norm.weight"@, m.final_norm.weight@),
        ),
        source.entry("output.weight"@) is Some ==> alone(
            model_pieces(m, source, GgufQuant::F32),
            weight_piece("output.weight"@, m.lm_head, GgufQuant::F32),
        ),
{
    reveal(alone);
    let q = GgufQuant::F32;
    let ts = model_pieces(m, source, q);
    let tokens = tokens_piece(m, q);
    let norm = vector_piece("output_norm.weight"@, m.final_norm.weight@);
    let head = weight_piece("output.weight"@, m.lm_head, q);
    lemma_model_belongs(m, source);
    lemma_model_holds(m, tokens, source);
    lemma_model_holds(m, norm, source);
    assert forall|j: int| 0 <= j < ts.len() && (#[trigger] ts[j]).name == tokens.name implies ts[j]
        == tokens by {
        assert(belongs(ts[j], m, source));
        lemma_other_is_named(ts[j], m, source);
    }
    assert forall|j: int| 0 <= j < ts.len() && (#[trigger] ts[j]).name == norm.name implies ts[j]
        == norm by {
        assert(belongs(ts[j], m, source));
        lemma_other_is_named(ts[j], m, source);
    }
    if source.entry("output.weight"@) is Some {
        lemma_model_holds(m, head, source);
        assert forall|j: int| 0 <= j < ts.len() && (#[trigger] ts[j]).name == head.name implies ts[j]
            == head by {
            assert(belongs(ts[j], m, source));
            lemma_other_is_named(ts[j], m, source);
        }
    }
}

/// A head has no bias, and is there only if the source has one.
proof fn lemma_rest_absent(g: Gguf, m: LlamaModel, source: Gguf)
    requires
        opened(g, model_pieces(m, source, GgufQuant::F32)),
    ensures
        g.entry("output.bias"@) is None,
        source.entry("output.weight"@) is None ==> g.entry("output.weight"@) is None,
{
    let ts = model_pieces(m, source, GgufQuant::F32);
    lemma_model_belongs(m, source);
    assert forall|j: int| 0 <= j < ts.len() implies (#[trigger] ts[j]).name != "output.bias"@ && (
    source.entry("output.weight"@) is None ==> ts[j].name != "output.weight"@) by {
        assert(belongs(ts[j], m, source));
        lemma_other_is_named(ts[j], m, source);
    }
    lemma_not_found(g, ts, "output.bias"@);
    if source.entry("output.weight"@) is None {
        lemma_not_found(g, ts, "output.weight"@);
    }
}

/// Token vectors, last norm and head are read back.
proof fn lemma_rest_returns(g: Gguf, m: LlamaModel, source: Gguf, z: Sizes)
    requires
        opened(g, model_pieces(m, source, GgufQuant::F32)),
        model_is_plain(source, z, m),
    ensures
        g.vocab_of() == Some(m.cfg.vocab_size as int),
        g.has_tokens(z.dim as int),
        g.data_named("token_embd.weight"@) == Some(m.tok_emb@),
        g.data_named("output_norm.weight"@) == Some(m.final_norm.weight@),
        g.has_head(),
        g.is_head(z, None, m.lm_head),
{
    let q = GgufQuant::F32;
    let ts = model_pieces(m, source, q);
    lemma_rest_alone(m, source);
    lemma_rest_absent(g, m, source);
    assert(m.tok_emb@.len() == z.dim * m.cfg.vocab_size) by (nonlinear_arith)
        requires
            m.tok_emb@.len() == m.cfg.vocab_size * z.dim,
    ;
    lemma_two_dims(z.dim as u64, m.cfg.vocab_size as u64);
    assert(m.tok_emb.len() <= usize::MAX && m.final_norm.weight.len() <= usize::MAX);
    lemma_found(g, ts, tokens_piece(m, q), m.tok_emb@);
    lemma_vector_found(g, ts, "output_norm.weight"@, m.final_norm.weight@);
    if source.entry("output.weight"@) is Some {
        lemma_linear_found(g, ts, "output.weight"@, None, m.lm_head);
    }
}

/// No tensor of a model has more than two dimensions.
proof fn lemma_few_dims(m: LlamaModel, source: Gguf)
    ensures
        forall|j: int|
            0 <= j < model_pieces(m, source, GgufQuant::F32).len() ==> (
            #[trigger] model_pieces(m, source, GgufQuant::F32)[j]).dims.len() <= 8,
{
    let ts = model_pieces(m, source, GgufQuant::F32);
    lemma_model_belongs(m, source);
    assert forall|j: int| 0 <= j < ts.len() implies (#[trigger] ts[j]).dims.len() <= 8 by {
        let p = ts[j];
        assert(belongs(p, m, source));
        if exists|k: int|
            0 <= k < m.blocks@.len() && from_layer(p, #[trigger] m.blocks@[k], k, source) {
            let k = choose|k: int|
                0 <= k < m.blocks@.len() && from_layer(p, #[trigger] m.blocks@[k], k, source);
            let r = choose|r: Seq<char>|
                is_written(k, r, source) && #[trigger] layer_piece(m.blocks@[k], k, r) == Some(p);
            lemma_piece_name(m.blocks@[k], k, r);
        }
    }
}

/// What is written is a file: its header is read, and its tensors are found.
proof fn lemma_export_opens(g: Gguf, m: LlamaModel, source: Gguf)
    requires
        source.is_decoder(),
        forall|k: int|
            0 <= k < source.metadata.entries@.len() ==> is_writable(
                (#[trigger] pairs_of(source.metadata.entries@)[k]).1,
            ),
        exported(m, source).len() <= usize::MAX,
    ensures
        rd_header(exported(m, source)) is Done,
        rd_header(exported(m, source))->Done_0.data_offset <= exported(m, source).len(),
        g.is_file(rd_header(exported(m, source))->Done_0, exported(m, source)) ==> {
            &&& g.metadata@ == map_of(model_pairs(source, GgufQuant::F32))
            &&& opened(g, model_pieces(m, source, GgufQuant::F32))
        },
{
    let pairs = model_pairs(source, GgufQuant::F32);
    let ts = model_pieces(m, source, GgufQuant::F32);
    let all = pairs_of(source.metadata.entries@);
    lemma_kept_are_writable(all);
    assert forall|k: int| 0 <= k < pairs.len() implies is_writable((#[trigger] pairs[k]).1) by {
        if k < kept(all).len() {
            assert(pairs[k] == kept(all)[k]);
        }
    }
    lemma_few_dims(m, source);
    lemma_keys(source.architecture_spec()->0, Seq::empty());
    lemma_pairs_count(pairs);
    lemma_directory_count(ts, ts.len(), declared(pairs));
    assert(header_bytes(pairs, ts).len() <= file_bytes(pairs, ts).len());
    written_files_are_read_back(pairs, ts);
    reveal(opened);
    if g.is_file(rd_header(exported(m, source))->Done_0, exported(m, source)) {
        assert(opened_at(g, ts, declared(pairs)));
    }
}

/// The file of a model in full precision, made with the metadata of `source`.
pub open spec fn exported(m: LlamaModel, source: Gguf) -> Seq<u8> {
    file_bytes(model_pairs(source, GgufQuant::F32), model_pieces(m, source, GgufQuant::F32))
}

/// Loading is the inverse of exporting in full precision: the exported file is
/// one, the model that it holds is the one that was written, bit for bit, and all
/// metadata but the file type and the version are those of the source, the
/// tokenizer among them. The metadata of the source hold what the format has.
pub proof fn exported_models_are_read_back(source: Gguf, z: Sizes, m: LlamaModel, g: Gguf)
    requires
        source.is_decoder(),
        source.has_sizes(),
        source.sizes_are(z),
        forall|k: int|
            0 <= k < source.metadata.entries@.len() ==> is_writable(
                (#[trigger] pairs_of(source.metadata.entries@)[k]).1,
            ),
        model_is_plain(source, z, m),
        exported(m, source).len() <= usize::MAX,
    ensures
        rd_header(exported(m, source)) is Done,
        rd_header(exported(m, source))->Done_0.data_offset <= exported(m, source).len(),
        g.is_file(rd_header(exported(m, source))->Done_0, exported(m, source)) ==> {
            &&& g.is_decoder()
            &&& g.has_sizes()
            &&& g.sizes_are(z)
            &&& g.is_complete(z)
            &&& g.is_model(z, None, m)
            &&& forall|key: Seq<char>|
                !is_renewed(key) ==> #[trigger] agree(g.metadata@, source.metadata@, key)
        },
{
    lemma_export_opens(g, m, source);
    if g.is_file(rd_header(exported(m, source))->Done_0, exported(m, source)) {
        lemma_sizes_agree(g, source, z);
        lemma_rest_returns(g, m, source, z);
        assert forall|key: Seq<char>| !is_renewed(key) implies #[trigger] agree(
            g.metadata@,
            source.metadata@,
            key,
        ) by {
            lemma_pairs_agree(source, key);
        }
        assert forall|i: int| 0 <= i < z.n_layers implies #[trigger] g.has_layer(i) by {
            assert(layer_is_plain(source, i, z, m.blocks@[i]));
            lemma_layer_returns(g, m, source, i, z);
        }
        assert forall|i: int| 0 <= i < z.n_layers implies g.is_layer(
            i,
            z,
            None,
            #[trigger] m.blocks@[i],
        ) by {
            lemma_layer_returns(g, m, source, i, z);
        }
    }
}

/// A model that was loaded from a file in full precision is one that the file can
/// hold whole.
pub proof fn loaded_models_are_plain(source: Gguf, z: Sizes, m: LlamaModel)
    requires
        source.is_complete(z),
        source.is_model(z, None, m),
    ensures
        model_is_plain(source, z, m),
{
    assert forall|i: int| 0 <= i < z.n_layers implies layer_is_plain(
        source,
        i,
        z,
        #[trigger] m.blocks@[i],
    ) by {
        assert(source.has_layer(i));
        assert(source.is_layer(i, z, None, m.blocks@[i]));
    }
}

} // verus!
