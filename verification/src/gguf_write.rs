//! Writing GGUF files: the inverse of reading them.
use crate::bytes::{
    le32, le64, lemma_le16, lemma_le32, lemma_le64, lemma_stands_split, push_bytes, push_u16,
    push_u32, push_u64, put16, put32, put64, stands_at, unsigned, unsigned16, unsigned32,
    unsigned64, unsigned8,
};
use crate::float::F32;
pub use crate::gguf_encode::encode_tensor;
pub use crate::gguf_export::{llama_gguf_bytes, plan_tensor_type, GgufQuant};
pub use crate::half::f32_to_f16;
use crate::gguf_meta::{
    items_of, map_of, pairs_of, Item, MetaValue, MetaView, VT_ARRAY, VT_BOOL, VT_F32, VT_F64,
    VT_I16, VT_I32, VT_I64, VT_I8, VT_STRING, VT_U16, VT_U32, VT_U64, VT_U8,
};
use crate::gguf_read::{
    align_up, aligned, alignment_of, dims_at, rd_header, rd_item, rd_items, rd_pairs, rd_tensor,
    rd_tensors, rd_text, rd_u32, rd_value, Entry, HeaderView, Reply, DEFAULT_ALIGNMENT, GGUF_MAGIC,
};
use crate::text::same_text;
use vstd::prelude::*;
use vstd::utf8::{encode_utf8, encode_utf8_decode_utf8, encode_utf8_valid_utf8};

verus! {

// ---------------------------------------------------------------------------
// What the file holds
// ---------------------------------------------------------------------------

/// Text: its length in eight bytes, then its bytes.
pub open spec fn put_text(s: Seq<char>) -> Seq<u8> {
    put64(encode_utf8(s).len() as int) + encode_utf8(s)
}

/// The type of an item.
pub open spec fn item_tag(i: Item) -> u32 {
    match i {
        Item::U8(_) => VT_U8,
        Item::I8(_) => VT_I8,
        Item::U16(_) => VT_U16,
        Item::I16(_) => VT_I16,
        Item::U32(_) => VT_U32,
        Item::I32(_) => VT_I32,
        Item::F32(_) => VT_F32,
        Item::Bool(_) => VT_BOOL,
        Item::String(_) => VT_STRING,
        Item::U64(_) => VT_U64,
        Item::I64(_) => VT_I64,
        Item::F64(_) => VT_F64,
        Item::Nested => VT_ARRAY,
    }
}

/// The bytes of an item. Lists are not nested.
pub open spec fn item_bytes(i: Item) -> Seq<u8> {
    match i {
        Item::U8(v) => seq![v],
        Item::I8(v) => seq![unsigned(v as int, 0x100) as u8],
        Item::U16(v) => put16(v as int),
        Item::I16(v) => put16(unsigned(v as int, 0x1_0000)),
        Item::U32(v) => put32(v as int),
        Item::I32(v) => put32(unsigned(v as int, 0x1_0000_0000)),
        Item::F32(v) => put32(v.bits as int),
        Item::Bool(v) => seq![
            if v {
                1u8
            } else {
                0u8
            },
        ],
        Item::String(s) => put_text(s),
        Item::U64(v) => put64(v as int),
        Item::I64(v) => put64(unsigned(v as int, 0x1_0000_0000_0000_0000)),
        Item::F64(v) => put64(v.bits as int),
        Item::Nested => Seq::empty(),
    }
}

/// The bytes of items, one behind the other.
pub open spec fn items_bytes(s: Seq<Item>) -> Seq<u8>
    decreases s.len(),
{
    if s.len() == 0 {
        Seq::empty()
    } else {
        items_bytes(s.drop_last()) + item_bytes(s.last())
    }
}

/// The type of the items of a list: that of the first; text if there is none.
pub open spec fn list_tag(s: Seq<Item>) -> u32 {
    if s.len() == 0 {
        VT_STRING
    } else {
        item_tag(s[0])
    }
}

/// The type of a value and its bytes.
pub open spec fn value_bytes(v: MetaView) -> Seq<u8> {
    match v {
        MetaView::One(i) => put32(item_tag(i) as int) + item_bytes(i),
        MetaView::Many(s) => put32(VT_ARRAY as int) + (put32(list_tag(s) as int) + (put64(
            s.len() as int,
        ) + items_bytes(s))),
    }
}

/// A metadata entry.
pub open spec fn pair_bytes(p: (Seq<char>, MetaView)) -> Seq<u8> {
    put_text(p.0) + value_bytes(p.1)
}

/// Metadata entries, one behind the other.
pub open spec fn pairs_bytes(s: Seq<(Seq<char>, MetaView)>) -> Seq<u8>
    decreases s.len(),
{
    if s.len() == 0 {
        Seq::empty()
    } else {
        pairs_bytes(s.drop_last()) + pair_bytes(s.last())
    }
}

/// A tensor to be written.
#[verifier::ext_equal]
pub struct Piece {
    pub name: Seq<char>,
    pub dims: Seq<u64>,
    pub ggml_type: u32,
    pub data: Seq<u8>,
}

/// Where tensor `i` begins in the tensor data: at the first aligned place behind
/// the one before.
pub open spec fn offset_of(ts: Seq<Piece>, i: nat, a: int) -> int
    decreases i,
{
    if i == 0 {
        0
    } else {
        aligned(offset_of(ts, (i - 1) as nat, a) + ts[i - 1].data.len(), a)
    }
}

/// Sizes, one behind the other.
pub open spec fn dims_bytes(d: Seq<u64>) -> Seq<u8>
    decreases d.len(),
{
    if d.len() == 0 {
        Seq::empty()
    } else {
        dims_bytes(d.drop_last()) + put64(d.last() as int)
    }
}

/// A directory entry.
pub open spec fn entry_bytes(t: Piece, offset: int) -> Seq<u8> {
    put_text(t.name) + (put32(t.dims.len() as int % 0x1_0000_0000) + (dims_bytes(t.dims) + (put32(
        t.ggml_type as int,
    ) + put64(offset))))
}

/// The first `n` directory entries.
pub open spec fn directory_bytes(ts: Seq<Piece>, n: nat, a: int) -> Seq<u8>
    decreases n,
{
    if n == 0 {
        Seq::empty()
    } else {
        directory_bytes(ts, (n - 1) as nat, a) + entry_bytes(ts[n - 1], offset_of(ts, (n - 1) as nat, a))
    }
}

/// Magic, version 3, both counts.
pub open spec fn opening(nt: int, np: int) -> Seq<u8> {
    put32(GGUF_MAGIC as int) + (put32(3) + (put64(nt) + put64(np)))
}

/// The alignment that metadata name, or the one in use where they name none.
pub open spec fn declared(pairs: Seq<(Seq<char>, MetaView)>) -> int {
    alignment_of(map_of(pairs))
}

/// The header of a file.
pub open spec fn header_bytes(pairs: Seq<(Seq<char>, MetaView)>, ts: Seq<Piece>) -> Seq<u8> {
    opening(ts.len() as int, pairs.len() as int) + (pairs_bytes(pairs) + directory_bytes(
        ts,
        ts.len(),
        declared(pairs),
    ))
}

/// `n` bytes of zero.
pub open spec fn blank(n: int) -> Seq<u8> {
    Seq::new(n as nat, |i: int| 0u8)
}

/// The first `n` tensors, each at its place.
pub open spec fn body_bytes(ts: Seq<Piece>, n: nat, a: int) -> Seq<u8>
    decreases n,
{
    if n == 0 {
        Seq::empty()
    } else {
        let before = body_bytes(ts, (n - 1) as nat, a);
        before + (blank(offset_of(ts, (n - 1) as nat, a) - before.len()) + ts[n - 1].data)
    }
}

/// Where the tensor data begins.
pub open spec fn data_start(pairs: Seq<(Seq<char>, MetaView)>, ts: Seq<Piece>) -> int {
    aligned(header_bytes(pairs, ts).len() as int, declared(pairs))
}

/// A whole file.
pub open spec fn file_bytes(pairs: Seq<(Seq<char>, MetaView)>, ts: Seq<Piece>) -> Seq<u8> {
    header_bytes(pairs, ts) + (blank(data_start(pairs, ts) - header_bytes(pairs, ts).len())
        + body_bytes(ts, ts.len(), declared(pairs)))
}

// ---------------------------------------------------------------------------
// Writing
// ---------------------------------------------------------------------------

fn put_str(o: &mut Vec<u8>, s: &str)
    ensures
        final(o)@ == old(o)@ + put_text(s@),
{
    let b: &[u8] = s.as_bytes();
    push_u64(o, b.len() as u64);
    push_bytes(o, b);
    assert(o@ =~= old(o)@ + put_text(s@));
}

/// The type of a value.
fn value_type_tag(v: &MetaValue) -> (t: u32)
    ensures
        t == item_tag(v.item()),
{
    match v {
        MetaValue::U8(_) => VT_U8,
        MetaValue::I8(_) => VT_I8,
        MetaValue::U16(_) => VT_U16,
        MetaValue::I16(_) => VT_I16,
        MetaValue::U32(_) => VT_U32,
        MetaValue::I32(_) => VT_I32,
        MetaValue::F32(_) => VT_F32,
        MetaValue::Bool(_) => VT_BOOL,
        MetaValue::String(_) => VT_STRING,
        MetaValue::U64(_) => VT_U64,
        MetaValue::I64(_) => VT_I64,
        MetaValue::F64(_) => VT_F64,
        MetaValue::Array(_) => VT_ARRAY,
    }
}

/// The bytes of a value without its type; none of a list.
fn put_value_payload(o: &mut Vec<u8>, v: &MetaValue)
    ensures
        final(o)@ == old(o)@ + item_bytes(v.item()),
{
    match v {
        MetaValue::U8(x) => o.push(*x),
        MetaValue::I8(x) => o.push(unsigned8(*x)),
        MetaValue::U16(x) => push_u16(o, *x),
        MetaValue::I16(x) => push_u16(o, unsigned16(*x)),
        MetaValue::U32(x) => push_u32(o, *x),
        MetaValue::I32(x) => push_u32(o, unsigned32(*x)),
        MetaValue::F32(x) => push_u32(o, x.bits),
        MetaValue::Bool(x) => o.push(
            if *x {
                1
            } else {
                0
            },
        ),
        MetaValue::String(s) => put_str(o, s.as_str()),
        MetaValue::U64(x) => push_u64(o, *x),
        MetaValue::I64(x) => push_u64(o, unsigned64(*x)),
        MetaValue::F64(x) => push_u64(o, x.bits),
        MetaValue::Array(_) => {},
    }
    assert(o@ =~= old(o)@ + item_bytes(v.item()));
}

/// The type of a value and its bytes.
fn put_value(o: &mut Vec<u8>, v: &MetaValue)
    ensures
        final(o)@ == old(o)@ + value_bytes(v@),
{
    match v {
        MetaValue::Array(items) => {
            push_u32(o, VT_ARRAY);
            let tag: u32 = if items.len() == 0 {
                VT_STRING
            } else {
                value_type_tag(&items[0])
            };
            push_u32(o, tag);
            push_u64(o, items.len() as u64);
            let ghost all = items_of(items@);
            let ghost before = o@;
            let mut i: usize = 0;
            assert(before + items_bytes(all.subrange(0, 0)) =~= before);
            while i < items.len()
                invariant
                    i <= items@.len(),
                    all == items_of(items@),
                    o@ == before + items_bytes(all.subrange(0, i as int)),
                decreases items@.len() - i,
            {
                put_value_payload(o, &items[i]);
                proof {
                    let next = all.subrange(0, i + 1);
                    assert(next.drop_last() =~= all.subrange(0, i as int));
                    assert(before + items_bytes(next) =~= before + items_bytes(
                        all.subrange(0, i as int),
                    ) + item_bytes(all[i as int]));
                }
                i = i + 1;
            }
            assert(all.subrange(0, all.len() as int) =~= all);
            assert(o@ =~= old(o)@ + value_bytes(v@));
        },
        _ => {
            push_u32(o, value_type_tag(v));
            put_value_payload(o, v);
            assert(o@ =~= old(o)@ + value_bytes(v@));
        },
    }
}

/// A tensor to be written.
pub struct TensorOut {
    pub name: String,
    pub dims: Vec<u64>,
    pub ggml_type: u32,
    pub data: Vec<u8>,
}

impl TensorOut {
    pub open spec fn view(self) -> Piece {
        Piece {
            name: self.name@,
            dims: self.dims@,
            ggml_type: self.ggml_type,
            data: self.data@,
        }
    }
}

/// What tensors to be written hold.
pub open spec fn pieces_of(v: Seq<TensorOut>) -> Seq<Piece> {
    Seq::new(v.len(), |i: int| v[i]@)
}

/// Collects metadata and tensors for a file.
pub struct GgufBuilder {
    pub metadata: Vec<(String, MetaValue)>,
    pub tensors: Vec<TensorOut>,
}

impl GgufBuilder {
    /// The metadata entries, in order.
    pub open spec fn pairs(self) -> Seq<(Seq<char>, MetaView)> {
        pairs_of(self.metadata@)
    }

    /// The tensors, in order.
    pub open spec fn pieces(self) -> Seq<Piece> {
        pieces_of(self.tensors@)
    }

    /// The file.
    pub open spec fn file(self) -> Seq<u8> {
        file_bytes(self.pairs(), self.pieces())
    }

    /// Nothing collected.
    pub fn new() -> (b: Self)
        ensures
            b.pairs() == Seq::<(Seq<char>, MetaView)>::empty(),
            b.pieces() == Seq::<Piece>::empty(),
    {
        let b = GgufBuilder { metadata: Vec::new(), tensors: Vec::new() };
        assert(b.pairs() =~= Seq::<(Seq<char>, MetaView)>::empty());
        assert(b.pieces() =~= Seq::<Piece>::empty());
        b
    }

    /// Adds a metadata entry.
    pub fn meta(&mut self, key: &str, val: MetaValue) -> (r: &mut Self)
        ensures
            r.pairs() == old(self).pairs().push((key@, val@)),
            r.pieces() == old(self).pieces(),
            *final(self) == *final(r),
    {
        let ghost before = self.pairs();
        let ghost pieces = self.pieces();
        self.metadata.push((key.to_owned(), val));
        assert(self.pairs() =~= before.push((key@, val@)));
        assert(self.pieces() =~= pieces);
        self
    }

    /// Adds a tensor.
    pub fn tensor(&mut self, name: &str, dims: &[u64], ggml_type: u32, data: Vec<u8>) -> (r:
        &mut Self)
        ensures
            r.pairs() == old(self).pairs(),
            r.pieces() == old(self).pieces().push(
                (Piece { name: name@, dims: dims@, ggml_type, data: data@ }),
            ),
            *final(self) == *final(r),
    {
        let ghost pairs = self.pairs();
        let ghost before = self.pieces();
        let ghost piece = Piece { name: name@, dims: dims@, ggml_type, data: data@ };
        let mut sizes: Vec<u64> = Vec::new();
        let mut i: usize = 0;
        while i < dims.len()
            invariant
                i <= dims@.len(),
                sizes@ == dims@.subrange(0, i as int),
            decreases dims@.len() - i,
        {
            sizes.push(dims[i]);
            proof {
                assert(dims@.subrange(0, i + 1) =~= dims@.subrange(0, i as int).push(
                    dims@[i as int],
                ));
            }
            i = i + 1;
        }
        assert(sizes@ =~= dims@);
        self.tensors.push(TensorOut { name: name.to_owned(), dims: sizes, ggml_type, data });
        assert(self.pieces() =~= before.push(piece));
        assert(self.pairs() =~= pairs);
        self
    }

    /// The offsets of the tensors and the length of all tensor data, unless that
    /// cannot be counted.
    fn offsets(&self, a: usize) -> (r: Option<(Vec<usize>, usize)>)
        ensures
            match r {
                Some(v) => {
                    &&& v.0@.len() == self.tensors@.len()
                    &&& forall|i: int|
                        0 <= i < v.0@.len() ==> #[trigger] v.0@[i] == offset_of(
                            self.pieces(),
                            i as nat,
                            a as int,
                        )
                    &&& v.1 == body_bytes(self.pieces(), self.tensors@.len(), a as int).len()
                },
                None => body_bytes(self.pieces(), self.tensors@.len(), a as int).len() > usize::MAX,
            },
    {
        let ghost ts = self.pieces();
        let mut v: Vec<usize> = Vec::new();
        let mut running: usize = 0;
        let mut i: usize = 0;
        while i < self.tensors.len()
            invariant
                i <= self.tensors@.len(),
                ts == self.pieces(),
                v@.len() == i,
                running == body_bytes(ts, i as nat, a as int).len(),
                forall|k: int| 0 <= k < i ==> #[trigger] v@[k] == offset_of(ts, k as nat, a as int),
            decreases self.tensors@.len() - i,
        {
            proof {
                lemma_body_len(ts, i as nat, a as int);
                lemma_body_len(ts, (i + 1) as nat, a as int);
                lemma_body_grows(ts, (i + 1) as nat, ts.len(), a as int);
                assert(ts[i as int].data == self.tensors@[i as int].data@);
            }
            let off: usize = match align_up(running, a) {
                Some(x) => x,
                None => return None,
            };
            running = match off.checked_add(self.tensors[i].data.len()) {
                Some(x) => x,
                None => return None,
            };
            v.push(off);
            i = i + 1;
        }
        Some((v, running))
    }

    /// Magic, version, counts and metadata.
    fn put_metadata(&self, o: &mut Vec<u8>)
        requires
            old(o)@.len() == 0,
        ensures
            final(o)@ == opening(self.tensors@.len() as int, self.metadata@.len() as int)
                + pairs_bytes(self.pairs()),
    {
        push_u32(o, GGUF_MAGIC);
        push_u32(o, 3);
        push_u64(o, self.tensors.len() as u64);
        push_u64(o, self.metadata.len() as u64);
        let ghost start = o@;
        let ghost all = self.pairs();
        assert(start =~= opening(self.tensors@.len() as int, self.metadata@.len() as int));
        assert(start + pairs_bytes(all.subrange(0, 0)) =~= start);
        let mut i: usize = 0;
        while i < self.metadata.len()
            invariant
                i <= self.metadata@.len(),
                all == self.pairs(),
                o@ == start + pairs_bytes(all.subrange(0, i as int)),
            decreases self.metadata@.len() - i,
        {
            put_str(o, self.metadata[i].0.as_str());
            put_value(o, &self.metadata[i].1);
            proof {
                let next = all.subrange(0, i + 1);
                assert(next.drop_last() =~= all.subrange(0, i as int));
                assert(start + pairs_bytes(next) =~= start + pairs_bytes(
                    all.subrange(0, i as int),
                ) + put_text(all[i as int].0) + value_bytes(all[i as int].1));
            }
            i = i + 1;
        }
        assert(all.subrange(0, all.len() as int) =~= all);
    }

    /// The directory.
    fn put_directory(&self, offsets: &Vec<usize>, a: Ghost<int>, o: &mut Vec<u8>)
        requires
            offsets@.len() == self.tensors@.len(),
            forall|i: int|
                0 <= i < offsets@.len() ==> #[trigger] offsets@[i] == offset_of(
                    self.pieces(),
                    i as nat,
                    a@,
                ),
        ensures
            final(o)@ == old(o)@ + directory_bytes(self.pieces(), self.tensors@.len(), a@),
    {
        let ghost start = o@;
        let ghost ts = self.pieces();
        assert(start + directory_bytes(ts, 0, a@) =~= start);
        let mut i: usize = 0;
        while i < self.tensors.len()
            invariant
                i <= self.tensors@.len(),
                ts == self.pieces(),
                offsets@.len() == self.tensors@.len(),
                forall|k: int|
                    0 <= k < offsets@.len() ==> #[trigger] offsets@[k] == offset_of(ts, k as nat, a@),
                o@ == start + directory_bytes(ts, i as nat, a@),
            decreases self.tensors@.len() - i,
        {
            let t: &TensorOut = &self.tensors[i];
            let ghost before = o@;
            put_str(o, t.name.as_str());
            push_u32(o, (t.dims.len() as u64 % 0x1_0000_0000) as u32);
            let ghost mid = o@;
            let ghost d = t.dims@;
            assert(mid + dims_bytes(d.subrange(0, 0)) =~= mid);
            let mut k: usize = 0;
            while k < t.dims.len()
                invariant
                    k <= t.dims@.len(),
                    d == t.dims@,
                    o@ == mid + dims_bytes(d.subrange(0, k as int)),
                decreases t.dims@.len() - k,
            {
                push_u64(o, t.dims[k]);
                proof {
                    let next = d.subrange(0, k + 1);
                    assert(next.drop_last() =~= d.subrange(0, k as int));
                    assert(mid + dims_bytes(next) =~= mid + dims_bytes(d.subrange(0, k as int))
                        + put64(d[k as int] as int));
                }
                k = k + 1;
            }
            assert(d.subrange(0, d.len() as int) =~= d);
            push_u32(o, t.ggml_type);
            push_u64(o, offsets[i] as u64);
            proof {
                assert(o@ =~= before + entry_bytes(ts[i as int], offset_of(ts, i as nat, a@)));
                assert(start + directory_bytes(ts, (i + 1) as nat, a@) =~= start + directory_bytes(
                    ts,
                    i as nat,
                    a@,
                ) + entry_bytes(ts[i as int], offset_of(ts, i as nat, a@)));
            }
            i = i + 1;
        }
    }

    /// The alignment that the metadata name, or the one in use where they name
    /// none.
    fn alignment(&self) -> (a: usize)
        ensures
            a == declared(self.pairs()),
    {
        let ghost all = self.pairs();
        let mut a: usize = DEFAULT_ALIGNMENT as usize;
        let mut i: usize = 0;
        assert(all.subrange(0, 0) =~= Seq::<(Seq<char>, MetaView)>::empty());
        while i < self.metadata.len()
            invariant
                i <= self.metadata@.len(),
                all == self.pairs(),
                a == declared(all.subrange(0, i as int)),
            decreases self.metadata@.len() - i,
        {
            proof {
                let next = all.subrange(0, i + 1);
                assert(next.drop_last() =~= all.subrange(0, i as int));
                assert(next.last() == all[i as int]);
            }
            if same_text(self.metadata[i].0.as_str(), "general.alignment") {
                a = match self.metadata[i].1.as_usize() {
                    Some(n) => n,
                    None => DEFAULT_ALIGNMENT as usize,
                };
            }
            i = i + 1;
        }
        assert(all.subrange(0, all.len() as int) =~= all);
        a
    }

    /// The file, unless it is longer than can be counted.
    pub fn build(&self) -> (r: Option<Vec<u8>>)
        ensures
            match r {
                Some(v) => v@ == self.file(),
                None => self.file().len() > usize::MAX,
            },
    {
        let ghost ts = self.pieces();
        let ghost n = ts.len();
        let ghost head = header_bytes(self.pairs(), ts);
        let a: usize = self.alignment();
        proof {
            lemma_aligned(head.len() as int, a as int);
        }
        let (offsets, body_len) = match self.offsets(a) {
            Some(v) => v,
            None => return None,
        };
        let mut o: Vec<u8> = Vec::new();
        self.put_metadata(&mut o);
        self.put_directory(&offsets, Ghost(a as int), &mut o);
        assert(o@ =~= head);
        let start: usize = match align_up(o.len(), a) {
            Some(s) => s,
            None => return None,
        };
        if start.checked_add(body_len).is_none() {
            return None;
        }
        let ghost gap = blank(start - head.len());
        pad_to(&mut o, start);
        let ghost opened = o@;
        assert(opened + body_bytes(ts, 0, a as int) =~= opened);
        let mut i: usize = 0;
        while i < self.tensors.len()
            invariant
                i <= self.tensors@.len(),
                ts == self.pieces(),
                n == ts.len(),
                opened.len() == start,
                start + body_len <= usize::MAX,
                body_len == body_bytes(ts, n, a as int).len(),
                offsets@.len() == self.tensors@.len(),
                forall|k: int|
                    0 <= k < offsets@.len() ==> #[trigger] offsets@[k] == offset_of(ts, k as nat, a as int),
                o@ == opened + body_bytes(ts, i as nat, a as int),
            decreases self.tensors@.len() - i,
        {
            proof {
                lemma_body_len(ts, i as nat, a as int);
                lemma_body_len(ts, (i + 1) as nat, a as int);
                lemma_body_grows(ts, (i + 1) as nat, n, a as int);
            }
            let ghost before = body_bytes(ts, i as nat, a as int);
            pad_to(&mut o, start + offsets[i]);
            push_bytes(&mut o, self.tensors[i].data.as_slice());
            proof {
                assert(ts[i as int].data == self.tensors@[i as int].data@);
                assert(o@ =~= opened + body_bytes(ts, (i + 1) as nat, a as int));
            }
            i = i + 1;
        }
        proof {
            assert(o@ =~= self.file());
        }
        Some(o)
    }

    /// The file.
    pub fn into_bytes(self) -> (o: Vec<u8>)
        requires
            self.file().len() <= usize::MAX,
        ensures
            o@ == self.file(),
    {
        match self.build() {
            Some(o) => o,
            None => Vec::new(),
        }
    }
}

impl Default for GgufBuilder {
    /// Nothing collected.
    fn default() -> (b: Self)
        ensures
            b.pairs() == Seq::<(Seq<char>, MetaView)>::empty(),
            b.pieces() == Seq::<Piece>::empty(),
    {
        GgufBuilder::new()
    }
}

/// Appends zeros up to a length.
fn pad_to(o: &mut Vec<u8>, n: usize)
    requires
        old(o)@.len() <= n,
    ensures
        final(o)@ == old(o)@ + blank(n - old(o)@.len()),
{
    let ghost before = o@;
    while o.len() < n
        invariant
            before.len() <= o@.len() <= n,
            o@ == before + blank(o@.len() - before.len()),
        decreases n - o@.len(),
    {
        let ghost prior = o@;
        o.push(0);
        proof {
            assert(o@ =~= before + blank(o@.len() - before.len()));
        }
    }
    assert(o@ =~= before + blank(n - before.len()));
}

/// Rounding up does not lower.
proof fn lemma_aligned(x: int, a: int)
    requires
        a >= 0,
    ensures
        aligned(x, a) >= x,
{
    if a > 0 {
        assert(0 <= x % a < a) by (nonlinear_arith)
            requires
                a > 0,
        ;
    }
}

/// Where the tensor data ends is where the last tensor does.
pub proof fn lemma_body_len(ts: Seq<Piece>, n: nat, a: int)
    requires
        n <= ts.len() + 1,
        a >= 0,
    ensures
        n > 0 ==> body_bytes(ts, n, a).len() == offset_of(ts, (n - 1) as nat, a) + ts[n - 1].data.len(),
        offset_of(ts, n, a) == aligned(body_bytes(ts, n, a).len() as int, a),
        offset_of(ts, n, a) >= body_bytes(ts, n, a).len(),
    decreases n,
{
    if n > 0 {
        lemma_body_len(ts, (n - 1) as nat, a);
    }
    lemma_aligned(body_bytes(ts, n, a).len() as int, a);
}

/// More tensors take more room.
pub proof fn lemma_body_grows(ts: Seq<Piece>, i: nat, n: nat, a: int)
    requires
        i <= n <= ts.len(),
        a >= 0,
    ensures
        body_bytes(ts, i, a).len() <= body_bytes(ts, n, a).len(),
    decreases n - i,
{
    if i < n {
        lemma_body_grows(ts, i, (n - 1) as nat, a);
    }
}

// ---------------------------------------------------------------------------
// What is written is read back
// ---------------------------------------------------------------------------

/// A value that the format has: a list holds items of one type, and no lists.
pub open spec fn is_writable(v: MetaView) -> bool {
    match v {
        MetaView::One(i) => i != Item::Nested,
        MetaView::Many(s) => forall|k: int|
            0 <= k < s.len() ==> #[trigger] s[k] != Item::Nested && item_tag(s[k]) == item_tag(
                s[0],
            ),
    }
}

proof fn lemma_text_is_read(b: Seq<u8>, p: int, s: Seq<char>)
    requires
        b.len() <= usize::MAX,
        stands_at(b, p, put_text(s)),
    ensures
        rd_text(b, p) == Reply::Done(s, p + put_text(s).len()),
{
    let e = encode_utf8(s);
    lemma_stands_split(b, p, put64(e.len() as int), e);
    lemma_le64(b, p, e.len() as int);
    encode_utf8_valid_utf8(s);
    encode_utf8_decode_utf8(s);
}

proof fn lemma_item_is_read(b: Seq<u8>, p: int, i: Item)
    requires
        b.len() <= usize::MAX,
        i != Item::Nested,
        stands_at(b, p, item_bytes(i)),
    ensures
        rd_item(b, p, item_tag(i)) == Reply::Done(i, p + item_bytes(i).len()),
        item_bytes(i).len() >= 1,
{
    let part = item_bytes(i);
    let whole = b.subrange(p, p + part.len());
    match i {
        Item::U8(v) => {
            assert(whole[0] == part[0]);
        },
        Item::I8(v) => {
            assert(whole[0] == part[0]);
        },
        Item::U16(v) => {
            lemma_le16(b, p, v as int);
        },
        Item::I16(v) => {
            lemma_le16(b, p, unsigned(v as int, 0x1_0000));
        },
        Item::U32(v) => {
            lemma_le32(b, p, v as int);
        },
        Item::I32(v) => {
            lemma_le32(b, p, unsigned(v as int, 0x1_0000_0000));
        },
        Item::F32(v) => {
            lemma_le32(b, p, v.bits as int);
        },
        Item::Bool(v) => {
            assert(whole[0] == part[0]);
        },
        Item::String(s) => {
            lemma_text_is_read(b, p, s);
        },
        Item::U64(v) => {
            lemma_le64(b, p, v as int);
        },
        Item::I64(v) => {
            lemma_le64(b, p, unsigned(v as int, 0x1_0000_0000_0000_0000));
        },
        Item::F64(v) => {
            lemma_le64(b, p, v.bits as int);
        },
        Item::Nested => {},
    }
}

proof fn lemma_items_are_read(b: Seq<u8>, p: int, s: Seq<Item>, tag: u32)
    requires
        b.len() <= usize::MAX,
        forall|k: int|
            0 <= k < s.len() ==> #[trigger] s[k] != Item::Nested && item_tag(s[k]) == tag,
        stands_at(b, p, items_bytes(s)),
    ensures
        rd_items(b, p, tag, s.len()) == Reply::Done(s, p + items_bytes(s).len()),
        items_bytes(s).len() >= s.len(),
    decreases s.len(),
{
    if s.len() > 0 {
        let init = s.drop_last();
        lemma_stands_split(b, p, items_bytes(init), item_bytes(s.last()));
        assert forall|k: int| 0 <= k < init.len() implies #[trigger] init[k] != Item::Nested
            && item_tag(init[k]) == tag by {
            assert(init[k] == s[k]);
        }
        lemma_items_are_read(b, p, init, tag);
        assert(s.last() == s[s.len() - 1]);
        lemma_item_is_read(b, p + items_bytes(init).len(), s.last());
        assert(init.push(s.last()) =~= s);
    } else {
        assert(s =~= Seq::<Item>::empty());
    }
}

/// The type and the value behind it are read.
proof fn lemma_value_is_read(b: Seq<u8>, p: int, v: MetaView)
    requires
        b.len() <= usize::MAX,
        is_writable(v),
        stands_at(b, p, value_bytes(v)),
    ensures
        rd_u32(b, p) is Done,
        rd_u32(b, p)->Done_1 == p + 4,
        rd_value(b, p + 4, rd_u32(b, p)->Done_0) == Reply::Done(v, p + value_bytes(v).len()),
{
    match v {
        MetaView::One(i) => {
            lemma_stands_split(b, p, put32(item_tag(i) as int), item_bytes(i));
            lemma_le32(b, p, item_tag(i) as int);
            lemma_item_is_read(b, p + 4, i);
        },
        MetaView::Many(s) => {
            let a = put32(VT_ARRAY as int);
            let t = put32(list_tag(s) as int);
            let n = put64(s.len() as int);
            let body = items_bytes(s);
            lemma_stands_split(b, p, a, t + (n + body));
            lemma_stands_split(b, p + 4, t, n + body);
            lemma_stands_split(b, p + 8, n, body);
            lemma_le32(b, p, VT_ARRAY as int);
            lemma_le32(b, p + 4, list_tag(s) as int);
            if s.len() > 0 {
                assert(s[0] != Item::Nested);
            }
            lemma_items_are_read(b, p + 16, s, list_tag(s));
            lemma_le64(b, p + 8, s.len() as int);
            assert(list_tag(s) != VT_ARRAY);
        },
    }
}

proof fn lemma_pairs_are_read(b: Seq<u8>, p: int, s: Seq<(Seq<char>, MetaView)>)
    requires
        b.len() <= usize::MAX,
        forall|k: int| 0 <= k < s.len() ==> is_writable((#[trigger] s[k]).1),
        stands_at(b, p, pairs_bytes(s)),
    ensures
        rd_pairs(b, p, s.len()) == Reply::Done(s, p + pairs_bytes(s).len()),
    decreases s.len(),
{
    if s.len() > 0 {
        let init = s.drop_last();
        let last = s.last();
        lemma_stands_split(b, p, pairs_bytes(init), pair_bytes(last));
        assert forall|k: int| 0 <= k < init.len() implies is_writable((#[trigger] init[k]).1) by {
            assert(init[k] == s[k]);
        }
        lemma_pairs_are_read(b, p, init);
        let q = p + pairs_bytes(init).len();
        lemma_stands_split(b, q, put_text(last.0), value_bytes(last.1));
        lemma_text_is_read(b, q, last.0);
        assert(last == s[s.len() - 1]);
        lemma_value_is_read(b, q + put_text(last.0).len(), last.1);
        assert(init.push(last) =~= s);
    } else {
        assert(s =~= Seq::<(Seq<char>, MetaView)>::empty());
    }
}

proof fn lemma_dims_are_read(b: Seq<u8>, p: int, d: Seq<u64>)
    requires
        stands_at(b, p, dims_bytes(d)),
    ensures
        dims_bytes(d).len() == 8 * d.len(),
        dims_at(b, p, d.len()) == d,
    decreases d.len(),
{
    if d.len() > 0 {
        let init = d.drop_last();
        lemma_stands_split(b, p, dims_bytes(init), put64(d.last() as int));
        lemma_dims_are_read(b, p, init);
        lemma_le64(b, p + 8 * init.len(), d.last() as int);
        assert(dims_at(b, p, d.len()) =~= dims_at(b, p, init.len()).push(d.last()));
        assert(init.push(d.last()) =~= d);
    } else {
        assert(dims_at(b, p, 0) =~= d);
    }
}

/// What the directory says of a tensor.
pub open spec fn entry_of(ts: Seq<Piece>, i: int, a: int) -> Entry {
    Entry {
        name: ts[i].name,
        dims: ts[i].dims,
        ggml_type: ts[i].ggml_type,
        offset: offset_of(ts, i as nat, a) as u64,
    }
}

#[verifier::rlimit(60)]
#[verifier::spinoff_prover]
proof fn lemma_entry_is_read(b: Seq<u8>, p: int, ts: Seq<Piece>, i: int, a: int)
    requires
        b.len() <= usize::MAX,
        0 <= i < ts.len(),
        ts[i].dims.len() <= 8,
        0 <= offset_of(ts, i as nat, a) <= usize::MAX,
        stands_at(b, p, entry_bytes(ts[i], offset_of(ts, i as nat, a))),
    ensures
        rd_tensor(b, p) == Reply::Done(
            entry_of(ts, i, a),
            p + entry_bytes(ts[i], offset_of(ts, i as nat, a)).len(),
        ),
{
    let t = ts[i];
    let off = offset_of(ts, i as nat, a);
    let n = put32(t.dims.len() as int % 0x1_0000_0000);
    let d = dims_bytes(t.dims);
    let ty = put32(t.ggml_type as int);
    let o = put64(off);
    lemma_stands_split(b, p, put_text(t.name), n + (d + (ty + o)));
    lemma_text_is_read(b, p, t.name);
    let q = p + put_text(t.name).len();
    lemma_stands_split(b, q, n, d + (ty + o));
    lemma_le32(b, q, t.dims.len() as int);
    lemma_stands_split(b, q + 4, d, ty + o);
    lemma_dims_are_read(b, q + 4, t.dims);
    let r = q + 4 + 8 * t.dims.len();
    lemma_stands_split(b, r, ty, o);
    lemma_le32(b, r, t.ggml_type as int);
    lemma_le64(b, r + 4, off);
}

proof fn lemma_directory_is_read(b: Seq<u8>, p: int, ts: Seq<Piece>, n: nat, a: int)
    requires
        b.len() <= usize::MAX,
        n <= ts.len(),
        forall|i: int| 0 <= i < ts.len() ==> (#[trigger] ts[i]).dims.len() <= 8,
        forall|i: int| 0 <= i < ts.len() ==> 0 <= #[trigger] offset_of(ts, i as nat, a) <= usize::MAX,
        stands_at(b, p, directory_bytes(ts, n, a)),
    ensures
        rd_tensors(b, p, n) == Reply::Done(
            Seq::new(n, |i: int| entry_of(ts, i, a)),
            p + directory_bytes(ts, n, a).len(),
        ),
    decreases n,
{
    if n > 0 {
        let last = n - 1;
        let e = entry_bytes(ts[last], offset_of(ts, last as nat, a));
        lemma_stands_split(b, p, directory_bytes(ts, last as nat, a), e);
        lemma_directory_is_read(b, p, ts, last as nat, a);
        assert(0 <= offset_of(ts, last as nat, a) <= usize::MAX);
        lemma_entry_is_read(b, p + directory_bytes(ts, last as nat, a).len(), ts, last, a);
        assert(Seq::new(last as nat, |i: int| entry_of(ts, i, a)).push(entry_of(ts, last, a)) =~= Seq::new(
            n,
            |i: int| entry_of(ts, i, a),
        ));
    } else {
        assert(Seq::new(0, |i: int| entry_of(ts, i, a)) =~= Seq::<Entry>::empty());
    }
}

proof fn lemma_body_stands(ts: Seq<Piece>, n: nat, i: int, a: int)
    requires
        n <= ts.len(),
        0 <= i < n,
        a >= 0,
    ensures
        stands_at(body_bytes(ts, n, a), offset_of(ts, i as nat, a), ts[i].data),
        offset_of(ts, i as nat, a) >= 0,
    decreases n,
{
    let before = body_bytes(ts, (n - 1) as nat, a);
    let all = body_bytes(ts, n, a);
    let off = offset_of(ts, i as nat, a);
    lemma_body_len(ts, (n - 1) as nat, a);
    lemma_body_len(ts, n, a);
    if i < n - 1 {
        lemma_body_stands(ts, (n - 1) as nat, i, a);
        let part = ts[i].data;
        assert(all.subrange(off, off + part.len()) =~= before.subrange(off, off + part.len()));
    } else {
        assert(all.subrange(off, off + ts[i].data.len()) =~= ts[i].data);
    }
}

proof fn lemma_opening_is_read(b: Seq<u8>, nt: int, np: int)
    requires
        0 <= nt <= usize::MAX,
        0 <= np <= usize::MAX,
        stands_at(b, 0, opening(nt, np)),
    ensures
        b.len() >= 24,
        opening(nt, np).len() == 24,
        le32(b, 0) == GGUF_MAGIC,
        le32(b, 4) == 3,
        le64(b, 8) == nt,
        le64(b, 16) == np,
{
    let m = put32(GGUF_MAGIC as int);
    let v = put32(3);
    lemma_stands_split(b, 0, m, v + (put64(nt) + put64(np)));
    lemma_stands_split(b, 4, v, put64(nt) + put64(np));
    lemma_stands_split(b, 8, put64(nt), put64(np));
    lemma_le32(b, 0, GGUF_MAGIC as int);
    lemma_le32(b, 4, 3);
    lemma_le64(b, 8, nt);
    lemma_le64(b, 16, np);
}

/// The offsets are counted where the tensor data are.
proof fn lemma_offsets_count(ts: Seq<Piece>, a: int)
    requires
        a >= 0,
        body_bytes(ts, ts.len(), a).len() <= usize::MAX,
    ensures
        forall|i: int| 0 <= i < ts.len() ==> 0 <= #[trigger] offset_of(ts, i as nat, a) <= usize::MAX,
{
    assert forall|i: int| 0 <= i < ts.len() implies 0 <= #[trigger] offset_of(ts, i as nat, a)
        <= usize::MAX by {
        lemma_body_stands(ts, ts.len(), i, a);
    }
}

proof fn lemma_header_is_read(b: Seq<u8>, pairs: Seq<(Seq<char>, MetaView)>, ts: Seq<Piece>)
    requires
        b.len() <= usize::MAX,
        stands_at(b, 0, header_bytes(pairs, ts)),
        forall|k: int| 0 <= k < pairs.len() ==> is_writable((#[trigger] pairs[k]).1),
        forall|i: int| 0 <= i < ts.len() ==> (#[trigger] ts[i]).dims.len() <= 8,
        forall|i: int| 0 <= i < ts.len() ==> 0 <= #[trigger] offset_of(ts, i as nat, declared(pairs)) <= usize::MAX,
        data_start(pairs, ts) <= usize::MAX,
        pairs.len() <= usize::MAX,
        ts.len() <= usize::MAX,
    ensures
        rd_header(b) == Reply::Done(
            HeaderView {
                version: 3,
                pairs,
                tensors: Seq::new(ts.len(), |i: int| entry_of(ts, i, declared(pairs))),
                data_offset: data_start(pairs, ts),
            },
            header_bytes(pairs, ts).len() as int,
        ),
{
    let a = opening(ts.len() as int, pairs.len() as int);
    let pb = pairs_bytes(pairs);
    let db = directory_bytes(ts, ts.len(), declared(pairs));
    lemma_stands_split(b, 0, a, pb + db);
    lemma_opening_is_read(b, ts.len() as int, pairs.len() as int);
    lemma_stands_split(b, 24, pb, db);
    lemma_pairs_are_read(b, 24, pairs);
    lemma_directory_is_read(b, 24 + pb.len() as int, ts, ts.len(), declared(pairs));
}

/// What stands in the last of three parts stands in the whole.
proof fn lemma_stands_behind(a: Seq<u8>, g: Seq<u8>, c: Seq<u8>, off: int, part: Seq<u8>)
    requires
        stands_at(c, off, part),
    ensures
        stands_at(a + (g + c), a.len() + g.len() + off, part),
{
    let b = a + (g + c);
    let p = a.len() + g.len() + off;
    assert(b.subrange(p, p + part.len()) =~= c.subrange(off, off + part.len()));
}

/// What stands in the first part stands in the whole.
proof fn lemma_stands_first(a: Seq<u8>, c: Seq<u8>)
    ensures
        stands_at(a + c, 0, a),
{
    assert((a + c).subrange(0, a.len() as int) =~= a);
}

/// Reading is the inverse of writing: the header of a written file gives back the
/// metadata, in order, and the directory, and each tensor stands where the
/// directory says, at the alignment that the metadata name. The metadata hold what
/// the format has, and no tensor has more than eight dimensions.
pub proof fn written_files_are_read_back(pairs: Seq<(Seq<char>, MetaView)>, ts: Seq<Piece>)
    requires
        file_bytes(pairs, ts).len() <= usize::MAX,
        forall|k: int| 0 <= k < pairs.len() ==> is_writable((#[trigger] pairs[k]).1),
        forall|i: int| 0 <= i < ts.len() ==> (#[trigger] ts[i]).dims.len() <= 8,
        pairs.len() <= usize::MAX,
        ts.len() <= usize::MAX,
    ensures
        rd_header(file_bytes(pairs, ts)) == Reply::Done(
            HeaderView {
                version: 3,
                pairs,
                tensors: Seq::new(ts.len(), |i: int| entry_of(ts, i, declared(pairs))),
                data_offset: data_start(pairs, ts),
            },
            header_bytes(pairs, ts).len() as int,
        ),
        data_start(pairs, ts) <= file_bytes(pairs, ts).len(),
        forall|i: int|
            0 <= i < ts.len() ==> stands_at(
                file_bytes(pairs, ts),
                data_start(pairs, ts) + entry_of(ts, i, declared(pairs)).offset,
                (#[trigger] ts[i]).data,
            ),
{
    let b = file_bytes(pairs, ts);
    let head = header_bytes(pairs, ts);
    let start = data_start(pairs, ts);
    let gap = blank(start - head.len());
    let body = body_bytes(ts, ts.len(), declared(pairs));
    assert(b.len() == head.len() + gap.len() + body.len());
    assert(start == head.len() + gap.len());
    lemma_stands_first(head, gap + body);
    lemma_offsets_count(ts, declared(pairs));
    lemma_header_is_read(b, pairs, ts);
    assert forall|i: int| 0 <= i < ts.len() implies stands_at(
        b,
        start + entry_of(ts, i, declared(pairs)).offset,
        (#[trigger] ts[i]).data,
    ) by {
        lemma_body_stands(ts, ts.len(), i, declared(pairs));
        assert(0 <= offset_of(ts, i as nat, declared(pairs)) <= usize::MAX);
        lemma_stands_behind(head, gap, body, offset_of(ts, i as nat, declared(pairs)), ts[i].data);
    }
}

} // verus!
