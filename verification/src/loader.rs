//! The FINF model file: normalizer, metadata and layers in one.
//!
//! All numbers are little-endian. The file starts with "FINF" and a version, 4 or
//! 5. Then follow, each behind its length, the text of the normalizer (empty if
//! there is none) and the metadata as JSON, then the number of layers and the
//! layers. In version 5 each vector of weights starts with a byte that says how
//! it is encoded; in version 4 all are in full precision.
use crate::bytes::{
    get_u32, le32, lemma_le32, lemma_stands_split, push_bytes, push_u32, put32, stands_at,
};
use crate::decimal::Decimals;
use crate::error::{InferError, Result};
use crate::finf_layers::{
    is_writable, layer_held, layer_shows, layers_held, layers_show, put_layers, push_layers,
    rd_layers, read_layers, stacks_are_read_back, LayersReply,
};
use crate::finf_weights::{copy_part, cut_off, push_size, put_size, QPrec};
use crate::layer::{Layer, Linear};
use crate::metadata::{json_task, ModelMetadata};
use crate::model::{AnyLayer, Sequential};
use crate::normalizer::{encoding, no_number_at, no_pair_at, pairs_read, Normalizer};
use crate::float::F32;
use crate::text::{string_from_utf8, with_number};
use crate::textops::split_on;
use vstd::prelude::*;
use vstd::utf8::{
    decode_utf8, encode_utf8, encode_utf8_decode_utf8, encode_utf8_valid_utf8, valid_utf8,
};

verus! {

/// "FINF" in little-endian order.
pub const FINF_MAGIC: u32 = 0x464e_4946;

/// The version with all weights in full precision.
pub const VERSION: u32 = 4;

/// The version with an encoding for each vector of weights.
pub const VERSION_QUANT: u32 = 5;

// ---------------------------------------------------------------------------
// Writing
// ---------------------------------------------------------------------------

/// `s` is the text of a normalizer.
pub open spec fn norm_text<D: Decimals>(d: &D, n: Normalizer, s: Seq<char>) -> bool {
    exists|a: Seq<Seq<char>>, b: Seq<Seq<char>>| #[trigger] encoding(d, n, a, b, s)
}

/// `s` is the JSON of metadata.
pub open spec fn meta_text<D: Decimals>(d: &D, m: ModelMetadata, s: Seq<char>) -> bool {
    exists|lo: Seq<Seq<char>>, hi: Seq<Seq<char>>, tlo: Seq<char>, thi: Seq<char>| #[trigger]
        m.written(d, lo, hi, tlo, thi, s)
}

/// A text behind its length.
#[verifier::opaque]
pub open spec fn put_string(s: Seq<char>) -> Seq<u8> {
    put_size(encode_utf8(s).len() as int) + encode_utf8(s)
}

/// The version of a file.
pub open spec fn version_of(v5: bool) -> u32 {
    if v5 {
        VERSION_QUANT
    } else {
        VERSION
    }
}

/// The whole file.
#[verifier::opaque]
pub open spec fn finf_bytes(
    s: Seq<AnyLayer>,
    norm: Seq<char>,
    meta: Seq<char>,
    v5: bool,
    prec: QPrec,
) -> Seq<u8> {
    put32(FINF_MAGIC as int) + (put32(version_of(v5) as int) + (put_string(norm) + (put_string(meta)
        + (put_size(s.len() as int) + put_layers(s, v5, prec, s.len())))))
}

/// `b` is a file of a model.
pub open spec fn is_file<D: Decimals>(
    d: &D,
    model: Sequential,
    norm: Normalizer,
    meta: ModelMetadata,
    v5: bool,
    prec: QPrec,
    b: Seq<u8>,
) -> bool {
    exists|n: Seq<char>, m: Seq<char>|
        {
            &&& #[trigger] norm_text(d, norm, n)
            &&& #[trigger] meta_text(d, meta, m)
            &&& b == finf_bytes(model.stack@, n, m, v5, prec)
        }
}

/// Whether a layer is one that only the later version knows.
pub open spec fn has_flatten(s: Seq<AnyLayer>) -> bool {
    exists|i: int| 0 <= i < s.len() && #[trigger] s[i] is Flatten
}

fn push_string(out: &mut Vec<u8>, s: &str)
    ensures
        final(out)@ == old(out)@ + put_string(s@),
{
    let ghost before = out@;
    let b: &[u8] = s.as_bytes();
    push_size(out, b.len());
    push_bytes(out, b);
    proof {
        reveal(put_string);
        assert(out@ =~= before + put_string(s@));
    }
}

/// Six parts one behind the other, however they are grouped.
proof fn lemma_six(a: Seq<u8>, b: Seq<u8>, c: Seq<u8>, d: Seq<u8>, e: Seq<u8>, f: Seq<u8>)
    ensures
        Seq::<u8>::empty() + a + b + c + d + e + f == a + (b + (c + (d + (e + f)))),
{
    assert(Seq::<u8>::empty() + a + b + c + d + e + f =~= a + (b + (c + (d + (e + f)))));
}

/// Writes a model in a version and a precision.
fn to_bytes_impl<D: Decimals>(
    d: &D,
    model: &Sequential,
    norm: &Normalizer,
    meta: &ModelMetadata,
    v5: bool,
    prec: QPrec,
) -> (out: Vec<u8>)
    requires
        model.wf(),
        norm.wf(),
    ensures
        is_file(d, *model, *norm, *meta, v5, prec, out@),
{
    let version: u32 = if v5 {
        VERSION_QUANT
    } else {
        VERSION
    };
    let mut out: Vec<u8> = Vec::new();
    push_u32(&mut out, FINF_MAGIC);
    push_u32(&mut out, version);
    let n: String = norm.encode(d);
    push_string(&mut out, n.as_str());
    let m: String = meta.to_json(d);
    push_string(&mut out, m.as_str());
    push_size(&mut out, model.stack.len());
    push_layers(&mut out, model.stack.as_slice(), v5, prec);
    proof {
        lemma_six(
            put32(FINF_MAGIC as int),
            put32(version_of(v5) as int),
            put_string(n@),
            put_string(m@),
            put_size(model.stack@.len() as int),
            put_layers(model.stack@, v5, prec, model.stack@.len()),
        );
        reveal(finf_bytes);
        assert(norm_text(d, *norm, n@));
        assert(meta_text(d, *meta, m@));
    }
    out
}

/// Writes a model in full precision. The earlier version is written unless a
/// layer needs the later one.
pub fn to_bytes<D: Decimals>(d: &D, model: &Sequential, norm: &Normalizer, meta: &ModelMetadata) -> (r:
    Result<Vec<u8>>)
    requires
        model.wf(),
        norm.wf(),
    ensures
        r is Ok,
        is_file(d, *model, *norm, *meta, has_flatten(model.stack@), QPrec::F32, r->Ok_0@),
{
    let mut v5: bool = false;
    let mut i: usize = 0;
    while i < model.stack.len()
        invariant
            i <= model.stack@.len(),
            v5 == has_flatten(model.stack@.take(i as int)),
        decreases model.stack@.len() - i,
    {
        let here: bool = match &model.stack[i] {
            AnyLayer::Flatten(_) => true,
            _ => false,
        };
        proof {
            let before = model.stack@.take(i as int);
            let now = model.stack@.take(i + 1);
            assert(now[i as int] == model.stack@[i as int]);
            assert forall|k: int| 0 <= k < i implies #[trigger] before[k] == now[k] by {}
            if has_flatten(before) {
                let k = choose|k: int| 0 <= k < before.len() && #[trigger] before[k] is Flatten;
                assert(now[k] is Flatten);
            }
            if has_flatten(now) {
                let k = choose|k: int| 0 <= k < now.len() && #[trigger] now[k] is Flatten;
                if k < i {
                    assert(before[k] is Flatten);
                }
            }
        }
        v5 = v5 || here;
        i = i + 1;
    }
    assert(model.stack@.take(model.stack@.len() as int) =~= model.stack@);
    Ok(to_bytes_impl(d, model, norm, meta, v5, QPrec::F32))
}

/// Writes a model with its weights as one signed byte each. Short vectors stay
/// in full precision.
pub fn to_bytes_quantized<D: Decimals>(
    d: &D,
    model: &Sequential,
    norm: &Normalizer,
    meta: &ModelMetadata,
) -> (r: Result<Vec<u8>>)
    requires
        model.wf(),
        norm.wf(),
    ensures
        r is Ok,
        is_file(d, *model, *norm, *meta, true, QPrec::Int8, r->Ok_0@),
{
    Ok(to_bytes_impl(d, model, norm, meta, true, QPrec::Int8))
}

/// Writes a model with its matrices as one signed nibble for each weight, and
/// its long vectors as one signed byte for each.
pub fn to_bytes_quantized_int4<D: Decimals>(
    d: &D,
    model: &Sequential,
    norm: &Normalizer,
    meta: &ModelMetadata,
) -> (r: Result<Vec<u8>>)
    requires
        model.wf(),
        norm.wf(),
    ensures
        r is Ok,
        is_file(d, *model, *norm, *meta, true, QPrec::Int4, r->Ok_0@),
{
    Ok(to_bytes_impl(d, model, norm, meta, true, QPrec::Int4))
}

// ---------------------------------------------------------------------------
// Reading
// ---------------------------------------------------------------------------

/// A text behind its length at `p`.
#[verifier::opaque]
pub open spec fn rd_string(b: Seq<u8>, p: int) -> Option<(Seq<char>, int)> {
    if p + 4 > b.len() {
        None
    } else {
        let e = p + 4 + le32(b, p);
        if e > b.len() || !valid_utf8(b.subrange(p + 4, e)) {
            None
        } else {
            Some((decode_utf8(b.subrange(p + 4, e)), e))
        }
    }
}

/// The version and the text of the normalizer, and the place behind it.
pub open spec fn rd_head(b: Seq<u8>) -> Option<(bool, Seq<char>, int)> {
    if b.len() < 8 || le32(b, 0) != FINF_MAGIC || (le32(b, 4) != VERSION && le32(b, 4)
        != VERSION_QUANT) {
        None
    } else {
        match rd_string(b, 8) {
            Some((s, p)) => Some((le32(b, 4) == VERSION_QUANT, s, p)),
            None => None,
        }
    }
}

/// A normalizer is what a text reads as; an empty text is an empty one.
pub open spec fn norm_read<D: Decimals>(d: &D, s: Seq<char>, n: Normalizer) -> bool {
    if s.len() == 0 {
        n.means@.len() == 0 && n.stds@.len() == 0
    } else {
        n.wf() && pairs_read(
            d,
            split_on(s, ';'),
            split_on(s, ';').len() as int,
            n.means@,
            n.stds@,
        )
    }
}

/// A text is refused as a normalizer.
pub open spec fn norm_refused<D: Decimals>(d: &D, s: Seq<char>, e: InferError) -> bool {
    let tokens = split_on(s, ';');
    &&& s.len() > 0
    &&& {
        ||| e is Format && exists|k: int, means: Seq<F32>, stds: Seq<F32>| #[trigger]
            no_pair_at(d, tokens, k, means, stds)
        ||| e is ParseError && exists|k: int, means: Seq<F32>, stds: Seq<F32>| #[trigger]
            no_number_at(d, tokens, k, means, stds)
    }
}

/// The number of layers at `p` and the layers behind it.
pub open spec fn rd_stack(b: Seq<u8>, p: int, v5: bool) -> LayersReply {
    if p + 4 > b.len() {
        LayersReply::Broken
    } else {
        rd_layers(b, p + 4, v5, le32(b, p) as nat)
    }
}

/// A model, its normalizer and its metadata are what a file holds.
pub open spec fn file_read<D: Decimals>(
    d: &D,
    b: Seq<u8>,
    model: Sequential,
    norm: Normalizer,
    meta: ModelMetadata,
) -> bool {
    match rd_head(b) {
        Some((v5, n, p)) => {
            &&& norm_read(d, n, norm)
            &&& match rd_string(b, p) {
                Some((m, q)) => {
                    &&& json_task(m) == Some(meta.task)
                    &&& meta.is_read(d, m)
                    &&& rd_stack(b, q, v5) matches LayersReply::Done(s, _) && layers_show(
                        model.stack@,
                        s,
                    )
                },
                None => false,
            }
        },
        None => false,
    }
}

/// A file is refused.
pub open spec fn file_refused<D: Decimals>(d: &D, b: Seq<u8>, e: InferError) -> bool {
    match rd_head(b) {
        Some((v5, n, p)) => {
            ||| norm_refused(d, n, e)
            ||| match rd_string(b, p) {
                Some((m, q)) => {
                    ||| json_task(m) is None && e is Format
                    ||| json_task(m) is Some && match rd_stack(b, q, v5) {
                        LayersReply::Done(_, _) => false,
                        LayersReply::Broken => e is Format,
                        LayersReply::Refused => e is DimMismatch || e is ShapeMismatch,
                    }
                },
                None => e is Format,
            }
        },
        None => e is Format,
    }
}

/// A text behind its length at `p`.
fn read_string(b: &[u8], p: usize) -> (r: Result<(String, usize)>)
    requires
        p <= b@.len(),
    ensures
        match r {
            Ok(t) => rd_string(b@, p as int) == Some((t.0@, t.1 as int)) && t.1 <= b@.len(),
            Err(e) => rd_string(b@, p as int) is None && e is Format,
        },
{
    proof {
        reveal(rd_string);
    }
    let total: usize = b.len();
    if total - p < 4 {
        return Err(cut_off(p, 4));
    }
    let n: usize = get_u32(b, p) as usize;
    if n > total - p - 4 {
        return Err(cut_off(p + 4, n));
    }
    match string_from_utf8(copy_part(b, p + 4, n)) {
        Some(s) => Ok((s, p + 4 + n)),
        None => Err(InferError::Format("invalid UTF-8 in blob".to_owned())),
    }
}

proof fn lemma_layers_wf(model: Sequential, b: Seq<u8>, p: int, v5: bool)
    requires
        rd_stack(b, p, v5) matches LayersReply::Done(s, _) && layers_show(model.stack@, s),
    ensures
        model.wf(),
{
    let s = rd_stack(b, p, v5)->Done_0;
    assert forall|i: int| 0 <= i < model.stack@.len() implies (#[trigger] model.stack@[i]).wf() by {
        assert(layer_shows(model.stack@[i], s[i]));
    }
}

/// Reads a model, its normalizer and its metadata.
pub fn from_bytes<D: Decimals>(d: &D, bytes: &[u8]) -> (r: Result<
    (Sequential, Normalizer, ModelMetadata),
>)
    ensures
        match r {
            Ok(t) => t.0.wf() && t.1.wf() && file_read(d, bytes@, t.0, t.1, t.2),
            Err(e) => file_refused(d, bytes@, e),
        },
{
    let total: usize = bytes.len();
    if total < 4 {
        return Err(cut_off(0, 4));
    }
    if get_u32(bytes, 0) != FINF_MAGIC {
        return Err(InferError::Format("bad FINF magic".to_owned()));
    }
    if total < 8 {
        return Err(cut_off(4, 4));
    }
    let ver: u32 = get_u32(bytes, 4);
    if ver != VERSION && ver != VERSION_QUANT {
        return Err(InferError::Format(with_number("unsupported FINF v", ver as usize, "")));
    }
    let v5: bool = ver == VERSION_QUANT;
    let (norm_str, p) = match read_string(bytes, 8) {
        Ok(t) => t,
        Err(e) => return Err(e),
    };
    let norm: Normalizer = if is_empty_text(norm_str.as_str()) {
        Normalizer { means: Vec::new(), stds: Vec::new() }
    } else {
        match Normalizer::decode(d, norm_str.as_str()) {
            Ok(n) => n,
            Err(e) => return Err(e),
        }
    };
    let (meta_str, q) = match read_string(bytes, p) {
        Ok(t) => t,
        Err(e) => return Err(e),
    };
    let meta: ModelMetadata = match ModelMetadata::from_json(d, meta_str.as_str()) {
        Ok(m) => m,
        Err(e) => return Err(e),
    };
    if total - q < 4 {
        return Err(cut_off(q, 4));
    }
    let n: usize = get_u32(bytes, q) as usize;
    match read_layers(bytes, q + 4, v5, n) {
        Ok(stack) => {
            let model: Sequential = Sequential { stack };
            proof {
                lemma_layers_wf(model, bytes@, q as int, v5);
            }
            Ok((model, norm, meta))
        },
        Err(e) => Err(e),
    }
}

/// Whether a text is empty.
fn is_empty_text(s: &str) -> (b: bool)
    ensures
        b == (s@.len() == 0),
{
    crate::text::chars_of(s).len() == 0
}

// ---------------------------------------------------------------------------
// What is written is read
// ---------------------------------------------------------------------------

proof fn lemma_string_is_read(b: Seq<u8>, p: int, s: Seq<char>, rest: Seq<u8>)
    requires
        encode_utf8(s).len() < 0x1_0000_0000,
        stands_at(b, p, put_string(s) + rest),
    ensures
        rd_string(b, p) == Some((s, p + put_string(s).len())),
        stands_at(b, p + put_string(s).len(), rest),
{
    reveal(put_string);
    reveal(rd_string);
    let e = encode_utf8(s);
    lemma_stands_split(b, p, put_string(s), rest);
    lemma_stands_split(b, p, put_size(e.len() as int), e);
    lemma_le32(b, p, e.len() as int);
    encode_utf8_valid_utf8(s);
    encode_utf8_decode_utf8(s);
}

proof fn lemma_stands_whole(b: Seq<u8>)
    ensures
        stands_at(b, 0, b),
{
    assert(b.subrange(0, b.len() as int) =~= b);
}

proof fn lemma_opening_is_read(b: Seq<u8>, x: u32, y: u32, rest: Seq<u8>)
    requires
        stands_at(b, 0, put32(x as int) + (put32(y as int) + rest)),
    ensures
        b.len() >= 8,
        le32(b, 0) == x,
        le32(b, 4) == y,
        stands_at(b, 8, rest),
{
    lemma_stands_split(b, 0, put32(x as int), put32(y as int) + rest);
    lemma_le32(b, 0, x as int);
    lemma_stands_split(b, 4, put32(y as int), rest);
    lemma_le32(b, 4, y as int);
}

proof fn lemma_count_is_read(b: Seq<u8>, p: int, n: nat, rest: Seq<u8>)
    requires
        n < 0x1_0000_0000,
        stands_at(b, p, put_size(n as int) + rest),
    ensures
        p + 4 <= b.len(),
        le32(b, p) == n,
        stands_at(b, p + 4, rest),
{
    lemma_stands_split(b, p, put_size(n as int), rest);
    lemma_le32(b, p, n as int);
}

/// The opening and the text of the normalizer are read.
proof fn lemma_head_is_read(b: Seq<u8>, norm: Seq<char>, v5: bool, rest: Seq<u8>)
    requires
        encode_utf8(norm).len() < 0x1_0000_0000,
        stands_at(
            b,
            0,
            put32(FINF_MAGIC as int) + (put32(version_of(v5) as int) + (put_string(norm) + rest)),
        ),
    ensures
        rd_head(b) == Some((v5, norm, 8 + put_string(norm).len() as int)),
        stands_at(b, 8 + put_string(norm).len() as int, rest),
{
    lemma_opening_is_read(b, FINF_MAGIC, version_of(v5), put_string(norm) + rest);
    lemma_string_is_read(b, 8, norm, rest);
}

/// The metadata and the number of layers are read.
proof fn lemma_middle_is_read(b: Seq<u8>, p: int, meta: Seq<char>, n: nat, rest: Seq<u8>)
    requires
        n < 0x1_0000_0000,
        encode_utf8(meta).len() < 0x1_0000_0000,
        stands_at(b, p, put_string(meta) + (put_size(n as int) + rest)),
    ensures
        ({
            let q = p + put_string(meta).len();
            &&& rd_string(b, p) == Some((meta, q))
            &&& q + 4 <= b.len()
            &&& le32(b, q) == n
            &&& stands_at(b, q + 4, rest)
        }),
{
    let q = p + put_string(meta).len();
    lemma_string_is_read(b, p, meta, put_size(n as int) + rest);
    lemma_count_is_read(b, q, n, rest);
}

/// What stands before the layers is read.
proof fn lemma_front_is_read(
    b: Seq<u8>,
    norm: Seq<char>,
    meta: Seq<char>,
    v5: bool,
    n: nat,
    rest: Seq<u8>,
)
    requires
        n < 0x1_0000_0000,
        encode_utf8(norm).len() < 0x1_0000_0000,
        encode_utf8(meta).len() < 0x1_0000_0000,
        stands_at(
            b,
            0,
            put32(FINF_MAGIC as int) + (put32(version_of(v5) as int) + (put_string(norm) + (
            put_string(meta) + (put_size(n as int) + rest)))),
        ),
    ensures
        ({
            let p = 8 + put_string(norm).len() as int;
            let q = p + put_string(meta).len();
            &&& rd_head(b) == Some((v5, norm, p))
            &&& rd_string(b, p) == Some((meta, q))
            &&& q + 4 <= b.len()
            &&& le32(b, q) == n
            &&& stands_at(b, q + 4, rest)
        }),
{
    let p = 8 + put_string(norm).len() as int;
    lemma_head_is_read(b, norm, v5, put_string(meta) + (put_size(n as int) + rest));
    lemma_middle_is_read(b, p, meta, n, rest);
}

/// The file, taken apart.
proof fn lemma_file_stands(
    s: Seq<AnyLayer>,
    norm: Seq<char>,
    meta: Seq<char>,
    v5: bool,
    prec: QPrec,
)
    ensures
        ({
            let b = finf_bytes(s, norm, meta, v5, prec);
            let rest = put_layers(s, v5, prec, s.len());
            &&& stands_at(
                b,
                0,
                put32(FINF_MAGIC as int) + (put32(version_of(v5) as int) + (put_string(norm) + (
                put_string(meta) + (put_size(s.len() as int) + rest)))),
            )
            &&& b.len() == 12 + put_string(norm).len() + put_string(meta).len() + rest.len()
        }),
{
    reveal(finf_bytes);
    lemma_stands_whole(finf_bytes(s, norm, meta, v5, prec));
}

/// A file that was written is read: the texts of normalizer and metadata are
/// those that were written, and so are the layers, with their weights as they
/// were in full precision and on the grid that they were written on otherwise.
pub proof fn written_models_are_read_back(
    s: Seq<AnyLayer>,
    norm: Seq<char>,
    meta: Seq<char>,
    v5: bool,
    prec: QPrec,
)
    requires
        s.len() < 0x1_0000_0000,
        encode_utf8(norm).len() < 0x1_0000_0000,
        encode_utf8(meta).len() < 0x1_0000_0000,
        forall|i: int| 0 <= i < s.len() ==> is_writable(#[trigger] s[i]),
    ensures
        ({
            let b = finf_bytes(s, norm, meta, v5, prec);
            let p = 8 + put_string(norm).len() as int;
            let q = p + put_string(meta).len();
            &&& rd_head(b) == Some((v5, norm, p))
            &&& rd_string(b, p) == Some((meta, q))
            &&& rd_stack(b, q, v5) == LayersReply::Done(
                layers_held(s, v5, prec),
                b.len() as int,
            )
        }),
{
    let b = finf_bytes(s, norm, meta, v5, prec);
    let rest = put_layers(s, v5, prec, s.len());
    let q = 8 + put_string(norm).len() as int + put_string(meta).len();
    lemma_file_stands(s, norm, meta, v5, prec);
    lemma_front_is_read(b, norm, meta, v5, s.len(), rest);
    stacks_are_read_back(b, q + 4, s, v5, prec, s.len());
    assert(layers_held(s, v5, prec).take(s.len() as int) =~= layers_held(s, v5, prec));
}

/// Whether a linear layer holds its weights in full precision.
pub open spec fn is_full(l: Linear) -> bool {
    l.quant is None
}

/// Whether a layer holds its weights in full precision.
pub open spec fn layer_is_full(l: AnyLayer) -> bool {
    match l {
        AnyLayer::Linear(l) => is_full(l),
        AnyLayer::Transformer(t) => is_full(t.q_proj) && is_full(t.k_proj) && is_full(t.v_proj)
            && is_full(t.out_proj) && is_full(t.ffn1) && is_full(t.ffn2),
        _ => true,
    }
}

/// A layer in full precision that is written in full precision is itself one
/// that the file shows: nothing of it is lost.
pub proof fn full_precision_is_kept(l: AnyLayer, v5: bool)
    requires
        l.wf(),
        layer_is_full(l),
    ensures
        layer_shows(l, layer_held(l, v5, QPrec::F32)),
{
}

} // verus!
