//! A model that is saved and loaded is the model that was saved.
use crate::decimal::Decimals;
use crate::error::InferError;
use crate::finf_cut::cut_files_are_refused;
use crate::finf_layers::{is_writable, layer_held, layer_shows, layers_held, layers_show};
use crate::finf_weights::QPrec;
use crate::gguf_tokenizer::strings_of;
use crate::layer::Layer;
use crate::loader::{
    file_read, file_refused, finf_bytes, full_precision_is_kept, layer_is_full, norm_read,
    norm_refused, norm_text, written_models_are_read_back,
};
use crate::math::Math;
use crate::metadata::ModelMetadata;
use crate::metadata_reload::{
    are_number_texts, is_number_text, metadata_are_read_back, written_tasks_are_found,
};
use crate::model::{pipes, stops, AnyLayer, Sequential};
use crate::normalizer::{encoding, Normalizer};
use crate::stacks::stacks_that_show_the_same_do_the_same;
use crate::tensor::Tensor;
use vstd::prelude::*;
use vstd::utf8::encode_utf8;

verus! {

/// `b` is the file of a model, with the texts that were written for its numbers.
pub open spec fn is_file_of<D: Decimals>(
    d: &D,
    b: Seq<u8>,
    model: Sequential,
    norm: Normalizer,
    meta: ModelMetadata,
    v5: bool,
    prec: QPrec,
    n: Seq<char>,
    t: Seq<char>,
) -> bool {
    &&& norm_text(d, norm, n)
    &&& exists|lo: Seq<Seq<char>>, hi: Seq<Seq<char>>, tlo: Seq<char>, thi: Seq<char>|
        {
            &&& #[trigger] meta.written(d, lo, hi, tlo, thi, t)
            &&& are_number_texts(lo, hi)
            &&& is_number_text(tlo)
            &&& is_number_text(thi)
        }
    &&& b == finf_bytes(model.stack@, n, t, v5, prec)
    &&& model.stack@.len() < 0x1_0000_0000
    &&& encode_utf8(n).len() < 0x1_0000_0000
    &&& encode_utf8(t).len() < 0x1_0000_0000
    &&& forall|i: int| 0 <= i < model.stack@.len() ==> is_writable(#[trigger] model.stack@[i])
}

/// A layer that was written has the label of the one that is read.
proof fn lemma_label(l: AnyLayer, k: AnyLayer, v5: bool, prec: QPrec)
    requires
        layer_shows(k, layer_held(l, v5, prec)),
    ensures
        k.label() == l.label(),
{
}

/// A file that was written is refused only for the numbers of its normalizer, and
/// not at all where the normalizer is empty.
pub proof fn written_files_are_refused_only_for_numbers<D: Decimals>(
    d: &D,
    b: Seq<u8>,
    model: Sequential,
    norm: Normalizer,
    meta: ModelMetadata,
    v5: bool,
    prec: QPrec,
    n: Seq<char>,
    t: Seq<char>,
    e: InferError,
)
    requires
        is_file_of(d, b, model, norm, meta, v5, prec, n, t),
        file_refused(d, b, e),
    ensures
        norm_refused(d, n, e),
        norm.means@.len() > 0,
{
    let (lo, hi, tlo, thi) = choose|
        lo: Seq<Seq<char>>,
        hi: Seq<Seq<char>>,
        tlo: Seq<char>,
        thi: Seq<char>,
    |
        {
            &&& #[trigger] meta.written(d, lo, hi, tlo, thi, t)
            &&& are_number_texts(lo, hi)
            &&& is_number_text(tlo)
            &&& is_number_text(thi)
        };
    written_models_are_read_back(model.stack@, n, t, v5, prec);
    written_tasks_are_found(meta, lo, hi, tlo, thi);
    let (x, y) = choose|x: Seq<Seq<char>>, y: Seq<Seq<char>>| #[trigger] encoding(d, norm, x, y, n);
    assert(norm.means@.len() == 0 ==> n.len() == 0);
}

/// A model that is saved and loaded is the model that was saved: as many layers,
/// by the same names, with the weights that the file holds; the same texts, task
/// and sizes; and a normalizer that is read from the text that was written. A
/// model in full precision that is saved in full precision makes the same outputs
/// and refuses the same inputs. A file that is cut off anywhere is no model.
pub proof fn saved_models_come_back<D: Decimals, M: Math>(
    d: &D,
    m: &M,
    b: Seq<u8>,
    model: Sequential,
    norm: Normalizer,
    meta: ModelMetadata,
    v5: bool,
    prec: QPrec,
    n: Seq<char>,
    t: Seq<char>,
    model2: Sequential,
    norm2: Normalizer,
    meta2: ModelMetadata,
)
    requires
        is_file_of(d, b, model, norm, meta, v5, prec, n, t),
        file_read(d, b, model2, norm2, meta2),
    ensures
        model2.stack@.len() == model.stack@.len(),
        forall|i: int|
            0 <= i < model.stack@.len() ==> (#[trigger] model2.stack@[i]).label()
                == model.stack@[i].label(),
        layers_show(model2.stack@, layers_held(model.stack@, v5, prec)),
        prec is F32 && (forall|i: int|
            0 <= i < model.stack@.len() ==> layer_is_full(#[trigger] model.stack@[i])) ==> {
            &&& forall|x: Tensor, y: Tensor| #[trigger]
                pipes(m, model2.stack@, model2.stack@.len(), x, y) <==> pipes(
                    m,
                    model.stack@,
                    model.stack@.len(),
                    x,
                    y,
                )
            &&& forall|x: Tensor, e: InferError| #[trigger]
                stops(m, model2.stack@, x, e) <==> stops(m, model.stack@, x, e)
        },
        norm_read(d, n, norm2),
        meta2.task == meta.task,
        meta2.dataset_name@ == meta.dataset_name@,
        strings_of(meta2.feature_names@) == strings_of(meta.feature_names@),
        strings_of(meta2.class_names@) == strings_of(meta.class_names@),
        meta2.target_name@ == meta.target_name@,
        meta2.input_dim == meta.input_dim,
        meta2.output_dim == meta.output_dim,
        meta2.tokenizer_state@ == meta.tokenizer_state@,
        forall|k: int, q: Sequential, r: Normalizer, s: ModelMetadata|
            0 <= k < b.len() ==> !#[trigger] file_read(d, b.subrange(0, k), q, r, s),
{
    let s = model.stack@;
    let held = layers_held(s, v5, prec);
    let (lo, hi, tlo, thi) = choose|
        lo: Seq<Seq<char>>,
        hi: Seq<Seq<char>>,
        tlo: Seq<char>,
        thi: Seq<char>,
    |
        {
            &&& #[trigger] meta.written(d, lo, hi, tlo, thi, t)
            &&& are_number_texts(lo, hi)
            &&& is_number_text(tlo)
            &&& is_number_text(thi)
        };
    written_models_are_read_back(s, n, t, v5, prec);
    written_tasks_are_found(meta, lo, hi, tlo, thi);
    metadata_are_read_back(d, meta, lo, hi, tlo, thi, meta2);
    assert forall|i: int| 0 <= i < s.len() implies (#[trigger] model2.stack@[i]).label()
        == s[i].label() by {
        assert(layer_shows(model2.stack@[i], held[i]));
        lemma_label(s[i], model2.stack@[i], v5, prec);
    }
    if prec is F32 && (forall|i: int| 0 <= i < s.len() ==> layer_is_full(#[trigger] s[i])) {
        assert forall|i: int| 0 <= i < s.len() implies layer_shows(#[trigger] s[i], held[i]) by {
            assert(is_writable(s[i]) && layer_is_full(s[i]));
            full_precision_is_kept(s[i], v5);
        }
        assert forall|x: Tensor, y: Tensor| #[trigger]
            pipes(m, model2.stack@, model2.stack@.len(), x, y) <==> pipes(m, s, s.len(), x, y) by {
            stacks_that_show_the_same_do_the_same(m, model2.stack@, s, held, x);
        }
        assert forall|x: Tensor, e: InferError| #[trigger]
            stops(m, model2.stack@, x, e) <==> stops(m, s, x, e) by {
            stacks_that_show_the_same_do_the_same(m, model2.stack@, s, held, x);
        }
    }
    assert forall|k: int, q: Sequential, r: Normalizer, md: ModelMetadata|
        0 <= k < b.len() implies !#[trigger] file_read(d, b.subrange(0, k), q, r, md) by {
        cut_files_are_refused(d, s, n, t, v5, prec, k, q, r, md);
    }
}

} // verus!
