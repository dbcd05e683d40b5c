//! Header, metadata table and tensor directory of a GGUF file.
use crate::bytes::{
    get_u16, get_u32, get_u64, le16, le32, le64, signed, signed16, signed32, signed64, signed8,
};
use crate::double::F64;
use crate::float::F32;
use crate::gguf_meta::{
    items_of, map_of, Item, MetaTable, MetaValue, MetaView, VT_ARRAY, VT_BOOL, VT_F32, VT_F64,
    VT_I16, VT_I32, VT_I64, VT_I8, VT_STRING, VT_U16, VT_U32, VT_U64, VT_U8,
};
use crate::text::{push_dec, with_number};
use vstd::prelude::*;
use vstd::slice::slice_subrange;
use vstd::utf8::{decode_utf8, valid_utf8};

verus! {

/// "GGUF" in little-endian order.
pub const GGUF_MAGIC: u32 = 0x4655_4747;

/// The alignment of the tensor data where the metadata names none.
pub const DEFAULT_ALIGNMENT: u64 = 32;

/// What reading at a position gives: a value and the position behind it, the
/// end of the bytes before the value is complete, or bytes that are no value.
#[verifier::ext_equal]
pub enum Reply<T> {
    Done(T, int),
    Short,
    Bad,
}

/// Why reading stopped.
#[derive(Debug)]
pub enum Stop {
    /// The bytes end before the value does.
    Short(String),
    /// The bytes are no value.
    Bad(String),
}

impl Stop {
    /// What is said about it.
    pub fn text(self) -> (s: String)
        ensures
            s == (match self {
                Stop::Short(t) => t,
                Stop::Bad(t) => t,
            }),
    {
        match self {
            Stop::Short(t) => t,
            Stop::Bad(t) => t,
        }
    }

    /// Whether more bytes could make the value complete.
    pub fn is_truncation(&self) -> (b: bool)
        ensures
            b == (self is Short),
    {
        match self {
            Stop::Short(_) => true,
            Stop::Bad(_) => false,
        }
    }
}

/// The text that `String::from_utf8_lossy` makes of bytes.
pub uninterp spec fn lossy_text(bytes: Seq<u8>) -> Seq<char>;

/// `String::from_utf8_lossy`: the characters of well-formed bytes; in bytes that
/// are not, what is ill-formed is replaced, which is left to the name.
#[verifier::external_body]
pub(crate) fn text_of_bytes(bytes: &[u8]) -> (s: String)
    ensures
        s@ == lossy_text(bytes@),
        valid_utf8(bytes@) ==> s@ == decode_utf8(bytes@),
{
    String::from_utf8_lossy(bytes).into_owned()
}

/// The text of bytes: the characters that they encode, or what is made of bytes
/// that encode none.
pub open spec fn text_from(bytes: Seq<u8>) -> Seq<char> {
    if valid_utf8(bytes) {
        decode_utf8(bytes)
    } else {
        lossy_text(bytes)
    }
}

/// Four bytes at `p`, or the end of the bytes.
pub open spec fn rd_u32(b: Seq<u8>, p: int) -> Reply<u32> {
    if p + 4 > b.len() {
        Reply::Short
    } else {
        Reply::Done(le32(b, p) as u32, p + 4)
    }
}

/// Eight bytes at `p`, or the end of the bytes.
pub open spec fn rd_u64(b: Seq<u8>, p: int) -> Reply<u64> {
    if p + 8 > b.len() {
        Reply::Short
    } else {
        Reply::Done(le64(b, p) as u64, p + 8)
    }
}

/// Text at `p`: its length in eight bytes, then its bytes.
pub open spec fn rd_text(b: Seq<u8>, p: int) -> Reply<Seq<char>> {
    if p + 8 > b.len() || p + 8 + le64(b, p) > b.len() {
        Reply::Short
    } else {
        let end = p + 8 + le64(b, p);
        Reply::Done(text_from(b.subrange(p + 8, end)), end)
    }
}

/// The bytes that an item of a type takes up, where that is fixed.
pub open spec fn item_len(tag: u32) -> int {
    if tag == VT_U8 || tag == VT_I8 || tag == VT_BOOL {
        1
    } else if tag == VT_U16 || tag == VT_I16 {
        2
    } else if tag == VT_U32 || tag == VT_I32 || tag == VT_F32 {
        4
    } else {
        8
    }
}

/// An item of a type at `p`.
pub open spec fn rd_item(b: Seq<u8>, p: int, tag: u32) -> Reply<Item> {
    if tag > VT_F64 || tag == VT_ARRAY {
        Reply::Bad
    } else if tag == VT_STRING {
        match rd_text(b, p) {
            Reply::Done(s, q) => Reply::Done(Item::String(s), q),
            Reply::Short => Reply::Short,
            Reply::Bad => Reply::Bad,
        }
    } else if p + item_len(tag) > b.len() {
        Reply::Short
    } else {
        Reply::Done(item_at(b, p, tag), p + item_len(tag))
    }
}

/// The item of a type that stands at `p`.
pub open spec fn item_at(b: Seq<u8>, p: int, tag: u32) -> Item {
    if tag == VT_U8 {
        Item::U8(b[p])
    } else if tag == VT_I8 {
        Item::I8(signed(b[p] as int, 0x100) as i8)
    } else if tag == VT_U16 {
        Item::U16(le16(b, p) as u16)
    } else if tag == VT_I16 {
        Item::I16(signed(le16(b, p), 0x1_0000) as i16)
    } else if tag == VT_U32 {
        Item::U32(le32(b, p) as u32)
    } else if tag == VT_I32 {
        Item::I32(signed(le32(b, p), 0x1_0000_0000) as i32)
    } else if tag == VT_F32 {
        Item::F32(F32 { bits: le32(b, p) as u32 })
    } else if tag == VT_BOOL {
        Item::Bool(b[p] != 0)
    } else if tag == VT_U64 {
        Item::U64(le64(b, p) as u64)
    } else if tag == VT_I64 {
        Item::I64(signed(le64(b, p), 0x1_0000_0000_0000_0000) as i64)
    } else {
        Item::F64(F64 { bits: le64(b, p) as u64 })
    }
}

/// `n` items of a type, one behind the other.
pub open spec fn rd_items(b: Seq<u8>, p: int, tag: u32, n: nat) -> Reply<Seq<Item>>
    decreases n,
{
    if n == 0 {
        Reply::Done(Seq::empty(), p)
    } else {
        match rd_items(b, p, tag, (n - 1) as nat) {
            Reply::Done(s, q) => match rd_item(b, q, tag) {
                Reply::Done(v, r) => Reply::Done(s.push(v), r),
                Reply::Short => Reply::Short,
                Reply::Bad => Reply::Bad,
            },
            Reply::Short => Reply::Short,
            Reply::Bad => Reply::Bad,
        }
    }
}

/// A value of a type at `p`. A list gives the type of its items, not a list
/// again, then their number, then the items. More items than there are bytes are
/// never all there.
pub open spec fn rd_value(b: Seq<u8>, p: int, tag: u32) -> Reply<MetaView> {
    if tag == VT_ARRAY {
        if p + 4 > b.len() {
            Reply::Short
        } else if le32(b, p) == VT_ARRAY {
            Reply::Bad
        } else if p + 12 > b.len() {
            Reply::Short
        } else if le64(b, p + 4) > b.len() {
            Reply::Short
        } else {
            match rd_items(b, p + 12, le32(b, p) as u32, le64(b, p + 4) as nat) {
                Reply::Done(s, q) => Reply::Done(MetaView::Many(s), q),
                Reply::Short => Reply::Short,
                Reply::Bad => Reply::Bad,
            }
        }
    } else {
        match rd_item(b, p, tag) {
            Reply::Done(v, q) => Reply::Done(MetaView::One(v), q),
            Reply::Short => Reply::Short,
            Reply::Bad => Reply::Bad,
        }
    }
}

/// A metadata entry at `p`: its key, the type of its value, its value.
pub open spec fn rd_pair(b: Seq<u8>, p: int) -> Reply<(Seq<char>, MetaView)> {
    match rd_text(b, p) {
        Reply::Done(k, q) => match rd_u32(b, q) {
            Reply::Done(tag, q2) => match rd_value(b, q2, tag) {
                Reply::Done(v, q3) => Reply::Done((k, v), q3),
                Reply::Short => Reply::Short,
                Reply::Bad => Reply::Bad,
            },
            Reply::Short => Reply::Short,
            Reply::Bad => Reply::Bad,
        },
        Reply::Short => Reply::Short,
        Reply::Bad => Reply::Bad,
    }
}

/// `n` metadata entries, one behind the other.
pub open spec fn rd_pairs(b: Seq<u8>, p: int, n: nat) -> Reply<Seq<(Seq<char>, MetaView)>>
    decreases n,
{
    if n == 0 {
        Reply::Done(Seq::empty(), p)
    } else {
        match rd_pairs(b, p, (n - 1) as nat) {
            Reply::Done(s, q) => match rd_pair(b, q) {
                Reply::Done(v, r) => Reply::Done(s.push(v), r),
                Reply::Short => Reply::Short,
                Reply::Bad => Reply::Bad,
            },
            Reply::Short => Reply::Short,
            Reply::Bad => Reply::Bad,
        }
    }
}

/// What a directory entry says of a tensor.
#[verifier::ext_equal]
pub struct Entry {
    pub name: Seq<char>,
    pub dims: Seq<u64>,
    pub ggml_type: u32,
    pub offset: u64,
}

/// `n` sizes from `p` on.
pub open spec fn dims_at(b: Seq<u8>, p: int, n: nat) -> Seq<u64> {
    Seq::new(n, |i: int| le64(b, p + 8 * i) as u64)
}

/// The number of dimensions, the dimensions, the element type and the offset of
/// a tensor. More than eight dimensions are none.
pub open spec fn rd_shape(b: Seq<u8>, p: int, name: Seq<char>) -> Reply<Entry> {
    if p + 4 > b.len() {
        Reply::Short
    } else if le32(b, p) > 8 {
        Reply::Bad
    } else if p + 16 + 8 * le32(b, p) > b.len() {
        Reply::Short
    } else {
        let n = le32(b, p);
        Reply::Done(
            Entry {
                name,
                dims: dims_at(b, p + 4, n as nat),
                ggml_type: le32(b, p + 4 + 8 * n) as u32,
                offset: le64(b, p + 8 + 8 * n) as u64,
            },
            p + 16 + 8 * n,
        )
    }
}

/// A directory entry at `p`.
pub open spec fn rd_tensor(b: Seq<u8>, p: int) -> Reply<Entry> {
    match rd_text(b, p) {
        Reply::Done(name, q) => rd_shape(b, q, name),
        Reply::Short => Reply::Short,
        Reply::Bad => Reply::Bad,
    }
}

/// `n` directory entries, one behind the other.
pub open spec fn rd_tensors(b: Seq<u8>, p: int, n: nat) -> Reply<Seq<Entry>>
    decreases n,
{
    if n == 0 {
        Reply::Done(Seq::empty(), p)
    } else {
        match rd_tensors(b, p, (n - 1) as nat) {
            Reply::Done(s, q) => match rd_tensor(b, q) {
                Reply::Done(v, r) => Reply::Done(s.push(v), r),
                Reply::Short => Reply::Short,
                Reply::Bad => Reply::Bad,
            },
            Reply::Short => Reply::Short,
            Reply::Bad => Reply::Bad,
        }
    }
}

/// `x` rounded up to a multiple of `a`; `x` itself if `a` is zero.
pub open spec fn aligned(x: int, a: int) -> int {
    if a == 0 || x % a == 0 {
        x
    } else {
        x + a - x % a
    }
}

/// The alignment that a table names.
pub open spec fn alignment_of(m: Map<Seq<char>, MetaView>) -> int {
    if m.dom().contains("general.alignment"@) && m["general.alignment"@].count() is Some {
        m["general.alignment"@].count()->0
    } else {
        DEFAULT_ALIGNMENT as int
    }
}

/// What the header of a file says.
#[verifier::ext_equal]
pub struct HeaderView {
    pub version: u32,
    pub pairs: Seq<(Seq<char>, MetaView)>,
    pub tensors: Seq<Entry>,
    /// Where the tensor data begins.
    pub data_offset: int,
}

/// The header of a file: magic, version, the number of tensors and of metadata
/// entries, the entries, the directory. The tensor data begins at the next
/// aligned position, which must be one that can be counted.
pub open spec fn rd_header(b: Seq<u8>) -> Reply<HeaderView> {
    if b.len() < 4 {
        Reply::Short
    } else if le32(b, 0) != GGUF_MAGIC {
        Reply::Bad
    } else if b.len() < 8 {
        Reply::Short
    } else if le32(b, 4) != 2 && le32(b, 4) != 3 {
        Reply::Bad
    } else if b.len() < 24 {
        Reply::Short
    } else {
        match rd_pairs(b, 24, le64(b, 16) as nat) {
            Reply::Done(pairs, q) => match rd_tensors(b, q, le64(b, 8) as nat) {
                Reply::Done(tensors, r) => {
                    let start = aligned(r, alignment_of(map_of(pairs)));
                    if start > usize::MAX {
                        Reply::Bad
                    } else {
                        Reply::Done(
                            HeaderView {
                                version: le32(b, 4) as u32,
                                pairs,
                                tensors,
                                data_offset: start,
                            },
                            r,
                        )
                    }
                },
                Reply::Short => Reply::Short,
                Reply::Bad => Reply::Bad,
            },
            Reply::Short => Reply::Short,
            Reply::Bad => Reply::Bad,
        }
    }
}

// ---------------------------------------------------------------------------
// Reading
// ---------------------------------------------------------------------------

/// A position in bytes.
struct Cur<'a> {
    b: &'a [u8],
    pos: usize,
}

/// A stop is of the kind that a reply names.
pub open spec fn stops<T>(s: Stop, r: Reply<T>) -> bool {
    match r {
        Reply::Done(_, _) => false,
        Reply::Short => s is Short,
        Reply::Bad => s is Bad,
    }
}

fn bad(text: &str) -> (s: Stop)
    ensures
        s is Bad,
{
    Stop::Bad(text.to_owned())
}

impl<'a> Cur<'a> {
    spec fn wf(self) -> bool {
        self.pos <= self.b@.len()
    }

    fn new(b: &'a [u8]) -> (c: Cur<'a>)
        ensures
            c.wf(),
            c.b == b,
            c.pos == 0,
    {
        Cur { b, pos: 0 }
    }

    /// The position, moved over `n` bytes if there are so many.
    fn take(&mut self, n: u64) -> (r: std::result::Result<usize, Stop>)
        requires
            old(self).wf(),
        ensures
            final(self).wf(),
            final(self).b == old(self).b,
            match r {
                Ok(p) => p == old(self).pos && final(self).pos == p + n,
                Err(s) => s is Short && old(self).pos + n > old(self).b@.len(),
            },
    {
        let p: usize = self.pos;
        let len: usize = self.b.len();
        if n > (len - p) as u64 {
            let mut t: String = with_number("GGUF EOF at +", p, ": need ");
            push_dec(&mut t, n);
            return Err(Stop::Short(t));
        }
        self.pos = p + n as usize;
        Ok(p)
    }

    fn u32(&mut self) -> (r: std::result::Result<u32, Stop>)
        requires
            old(self).wf(),
        ensures
            final(self).wf(),
            final(self).b == old(self).b,
            match r {
                Ok(v) => rd_u32(old(self).b@, old(self).pos as int) == Reply::Done(
                    v,
                    final(self).pos as int,
                ),
                Err(s) => stops(s, rd_u32(old(self).b@, old(self).pos as int)),
            },
    {
        match self.take(4) {
            Ok(p) => Ok(get_u32(self.b, p)),
            Err(e) => Err(e),
        }
    }

    fn u64(&mut self) -> (r: std::result::Result<u64, Stop>)
        requires
            old(self).wf(),
        ensures
            final(self).wf(),
            final(self).b == old(self).b,
            match r {
                Ok(v) => rd_u64(old(self).b@, old(self).pos as int) == Reply::Done(
                    v,
                    final(self).pos as int,
                ),
                Err(s) => stops(s, rd_u64(old(self).b@, old(self).pos as int)),
            },
    {
        match self.take(8) {
            Ok(p) => Ok(get_u64(self.b, p)),
            Err(e) => Err(e),
        }
    }

    /// Text: its length in eight bytes, then its bytes.
    fn string(&mut self) -> (r: std::result::Result<String, Stop>)
        requires
            old(self).wf(),
        ensures
            final(self).wf(),
            final(self).b == old(self).b,
            match r {
                Ok(s) => rd_text(old(self).b@, old(self).pos as int) == Reply::Done(
                    s@,
                    final(self).pos as int,
                ),
                Err(s) => stops(s, rd_text(old(self).b@, old(self).pos as int)),
            },
    {
        let n: u64 = match self.u64() {
            Ok(n) => n,
            Err(e) => return Err(e),
        };
        match self.take(n) {
            Ok(p) => Ok(text_of_bytes(slice_subrange(self.b, p, self.pos))),
            Err(e) => Err(e),
        }
    }

    /// An item of a type.
    fn item(&mut self, tag: u32) -> (r: std::result::Result<MetaValue, Stop>)
        requires
            old(self).wf(),
        ensures
            final(self).wf(),
            final(self).b == old(self).b,
            match r {
                Ok(v) => rd_item(old(self).b@, old(self).pos as int, tag) == Reply::Done(
                    v.item(),
                    final(self).pos as int,
                ) && !(v is Array),
                Err(s) => stops(s, rd_item(old(self).b@, old(self).pos as int, tag)),
            },
    {
        if tag > VT_F64 || tag == VT_ARRAY {
            return Err(
                Stop::Bad(with_number("GGUF unknown metadata value type ", tag as usize, "")),
            );
        }
        if tag == VT_STRING {
            return match self.string() {
                Ok(s) => Ok(MetaValue::String(s)),
                Err(e) => Err(e),
            };
        }
        let n: u64 = if tag == VT_U8 || tag == VT_I8 || tag == VT_BOOL {
            1
        } else if tag == VT_U16 || tag == VT_I16 {
            2
        } else if tag == VT_U32 || tag == VT_I32 || tag == VT_F32 {
            4
        } else {
            8
        };
        let p: usize = match self.take(n) {
            Ok(p) => p,
            Err(e) => return Err(e),
        };
        Ok(
            if tag == VT_U8 {
                MetaValue::U8(self.b[p])
            } else if tag == VT_I8 {
                MetaValue::I8(signed8(self.b[p]))
            } else if tag == VT_U16 {
                MetaValue::U16(get_u16(self.b, p))
            } else if tag == VT_I16 {
                MetaValue::I16(signed16(get_u16(self.b, p)))
            } else if tag == VT_U32 {
                MetaValue::U32(get_u32(self.b, p))
            } else if tag == VT_I32 {
                MetaValue::I32(signed32(get_u32(self.b, p)))
            } else if tag == VT_F32 {
                MetaValue::F32(F32 { bits: get_u32(self.b, p) })
            } else if tag == VT_BOOL {
                MetaValue::Bool(self.b[p] != 0)
            } else if tag == VT_U64 {
                MetaValue::U64(get_u64(self.b, p))
            } else if tag == VT_I64 {
                MetaValue::I64(signed64(get_u64(self.b, p)))
            } else {
                MetaValue::F64(F64 { bits: get_u64(self.b, p) })
            },
        )
    }

    /// A value of a type.
    fn value(&mut self, tag: u32) -> (r: std::result::Result<MetaValue, Stop>)
        requires
            old(self).wf(),
        ensures
            final(self).wf(),
            final(self).b == old(self).b,
            match r {
                Ok(v) => rd_value(old(self).b@, old(self).pos as int, tag) == Reply::Done(
                    v@,
                    final(self).pos as int,
                ),
                Err(s) => stops(s, rd_value(old(self).b@, old(self).pos as int, tag)),
            },
    {
        if tag != VT_ARRAY {
            return self.item(tag);
        }
        let kind: u32 = match self.u32() {
            Ok(v) => v,
            Err(e) => return Err(e),
        };
        if kind == VT_ARRAY {
            return Err(bad("GGUF nested arrays are not supported"));
        }
        let count: u64 = match self.u64() {
            Ok(v) => v,
            Err(e) => return Err(e),
        };
        if count > self.b.len() as u64 {
            return Err(Stop::Short("GGUF array count exceeds file size".to_owned()));
        }
        let ghost start = self.pos as int;
        let mut v: Vec<MetaValue> = Vec::new();
        let mut i: u64 = 0;
        assert(items_of(v@) =~= Seq::<Item>::empty());
        while i < count
            invariant
                i <= count,
                self.wf(),
                self.b == old(self).b,
                rd_items(self.b@, start, kind, i as nat) == Reply::Done(
                    items_of(v@),
                    self.pos as int,
                ),
                start == old(self).pos + 12,
                start <= self.b@.len(),
                tag == VT_ARRAY,
                kind != VT_ARRAY,
                kind == le32(self.b@, old(self).pos as int),
                count == le64(self.b@, old(self).pos + 4),
                count <= self.b@.len(),
            decreases count - i,
        {
            match self.item(kind) {
                Ok(x) => {
                    let ghost before = v@;
                    v.push(x);
                    proof {
                        assert(items_of(v@) =~= items_of(before).push(x.item()));
                    }
                },
                Err(e) => {
                    proof {
                        lemma_items_stop(
                            self.b@,
                            start,
                            kind,
                            (i + 1) as nat,
                            count as nat,
                        );
                    }
                    return Err(e);
                },
            }
            i = i + 1;
        }
        Ok(MetaValue::Array(v))
    }
}

/// A stop among the first items is a stop of all.
proof fn lemma_items_stop(b: Seq<u8>, p: int, tag: u32, i: nat, n: nat)
    requires
        i <= n,
        !(rd_items(b, p, tag, i) is Done),
    ensures
        rd_items(b, p, tag, n) == rd_items(b, p, tag, i),
    decreases n,
{
    if i < n {
        lemma_items_stop(b, p, tag, i, (n - 1) as nat);
    }
}

proof fn lemma_pairs_stop(b: Seq<u8>, p: int, i: nat, n: nat)
    requires
        i <= n,
        !(rd_pairs(b, p, i) is Done),
    ensures
        rd_pairs(b, p, n) == rd_pairs(b, p, i),
    decreases n,
{
    if i < n {
        lemma_pairs_stop(b, p, i, (n - 1) as nat);
    }
}

proof fn lemma_tensors_stop(b: Seq<u8>, p: int, i: nat, n: nat)
    requires
        i <= n,
        !(rd_tensors(b, p, i) is Done),
    ensures
        rd_tensors(b, p, n) == rd_tensors(b, p, i),
    decreases n,
{
    if i < n {
        lemma_tensors_stop(b, p, i, (n - 1) as nat);
    }
}

/// What the directory says of one tensor.
#[derive(Debug)]
pub struct TensorInfo {
    pub name: String,
    /// Sizes, the fastest-varying axis first.
    pub dims: Vec<u64>,
    pub ggml_type: u32,
    /// Where the tensor begins in the tensor data.
    pub offset: u64,
}

/// The number of elements of a shape.
pub open spec fn elements(dims: Seq<u64>) -> nat
    decreases dims.len(),
{
    if dims.len() == 0 {
        1
    } else {
        elements(dims.drop_last()) * dims.last() as nat
    }
}

impl TensorInfo {
    pub open spec fn view(self) -> Entry {
        Entry {
            name: self.name@,
            dims: self.dims@,
            ggml_type: self.ggml_type,
            offset: self.offset,
        }
    }

    /// A copy of the entry.
    pub fn duplicate(&self) -> (t: TensorInfo)
        ensures
            t@ == self@,
    {
        let mut dims: Vec<u64> = Vec::new();
        let mut i: usize = 0;
        while i < self.dims.len()
            invariant
                i <= self.dims@.len(),
                dims@ == self.dims@.subrange(0, i as int),
            decreases self.dims@.len() - i,
        {
            dims.push(self.dims[i]);
            proof {
                assert(self.dims@.subrange(0, i + 1) =~= self.dims@.subrange(0, i as int).push(
                    self.dims@[i as int],
                ));
            }
            i = i + 1;
        }
        assert(dims@ =~= self.dims@);
        TensorInfo {
            name: self.name.clone(),
            dims,
            ggml_type: self.ggml_type,
            offset: self.offset,
        }
    }
}

/// What the entries of a directory say.
pub open spec fn entries_of(v: Seq<TensorInfo>) -> Seq<Entry> {
    Seq::new(v.len(), |i: int| v[i]@)
}

/// A parsed header.
pub struct Header {
    pub version: u32,
    pub metadata: MetaTable,
    pub tensors: Vec<TensorInfo>,
    /// Where the tensor data begins.
    pub data_offset: usize,
}

impl Header {
    /// The header holds what `h` says.
    pub open spec fn holds(self, h: HeaderView) -> bool {
        &&& self.version == h.version
        &&& self.metadata.wf()
        &&& self.metadata@ == map_of(h.pairs)
        &&& entries_of(self.tensors@) == h.tensors
        &&& self.data_offset == h.data_offset
    }
}

/// One directory entry.
fn read_tensor(c: &mut Cur) -> (r: std::result::Result<TensorInfo, Stop>)
    requires
        old(c).wf(),
    ensures
        final(c).wf(),
        final(c).b == old(c).b,
        match r {
            Ok(t) => rd_tensor(old(c).b@, old(c).pos as int) == Reply::Done(
                t@,
                final(c).pos as int,
            ),
            Err(s) => stops(s, rd_tensor(old(c).b@, old(c).pos as int)),
        },
{
    let name: String = match c.string() {
        Ok(s) => s,
        Err(e) => return Err(e),
    };
    let ghost at = c.pos as int;
    let n_dims: u32 = match c.u32() {
        Ok(v) => v,
        Err(e) => return Err(e),
    };
    if n_dims > 8 {
        let mut t: String = "tensor '".to_owned();
        t.append(name.as_str());
        t.append(with_number("' has implausible ", n_dims as usize, " dims").as_str());
        return Err(Stop::Bad(t));
    }
    let mut dims: Vec<u64> = Vec::new();
    let mut i: u32 = 0;
    while i < n_dims
        invariant
            i <= n_dims,
            n_dims <= 8,
            c.wf(),
            c.b == old(c).b,
            c.pos == at + 4 + 8 * i,
            n_dims == le32(c.b@, at),
            rd_text(c.b@, old(c).pos as int) == Reply::Done(name@, at),
            dims@ == dims_at(c.b@, at + 4, i as nat),
        decreases n_dims - i,
    {
        match c.u64() {
            Ok(v) => {
                let ghost before = dims@;
                dims.push(v);
                proof {
                    assert(dims@ =~= dims_at(c.b@, at + 4, (i + 1) as nat));
                }
            },
            Err(e) => {
                return Err(e);
            },
        }
        i = i + 1;
    }
    let ggml_type: u32 = match c.u32() {
        Ok(v) => v,
        Err(e) => return Err(e),
    };
    let offset: u64 = match c.u64() {
        Ok(v) => v,
        Err(e) => return Err(e),
    };
    Ok(TensorInfo { name, dims, ggml_type, offset })
}

/// Rounds up to a multiple, if that can be counted.
pub fn align_up(x: usize, a: usize) -> (r: Option<usize>)
    ensures
        match r {
            Some(y) => y == aligned(x as int, a as int),
            None => aligned(x as int, a as int) > usize::MAX,
        },
{
    if a == 0 {
        return Some(x);
    }
    let over: usize = x % a;
    if over == 0 {
        return Some(x);
    }
    x.checked_add(a - over)
}

/// The header of a file, from bytes that begin it.
pub fn parse_header(b: &[u8]) -> (r: std::result::Result<Header, Stop>)
    ensures
        match rd_header(b@) {
            Reply::Done(h, _) => r is Ok && r->Ok_0.holds(h),
            Reply::Short => r is Err && r->Err_0 is Short,
            Reply::Bad => r is Err && r->Err_0 is Bad,
        },
{
    let mut c = Cur::new(b);
    let magic: u32 = match c.u32() {
        Ok(v) => v,
        Err(e) => return Err(e),
    };
    if magic != GGUF_MAGIC {
        return Err(bad("not a GGUF file (bad magic)"));
    }
    let version: u32 = match c.u32() {
        Ok(v) => v,
        Err(e) => return Err(e),
    };
    if version != 2 && version != 3 {
        return Err(
            Stop::Bad(
                with_number("unsupported GGUF version ", version as usize, " (need 2 or 3)"),
            ),
        );
    }
    let tensor_count: u64 = match c.u64() {
        Ok(v) => v,
        Err(e) => return Err(e),
    };
    let kv_count: u64 = match c.u64() {
        Ok(v) => v,
        Err(e) => return Err(e),
    };
    let mut metadata: MetaTable = MetaTable::new();
    let ghost mut pairs: Seq<(Seq<char>, MetaView)> = Seq::empty();
    let mut i: u64 = 0;
    while i < kv_count
        invariant
            i <= kv_count,
            c.wf(),
            c.b == b,
            b@.len() >= 24,
            le32(b@, 0) == GGUF_MAGIC,
            le32(b@, 4) == 2 || le32(b@, 4) == 3,
            kv_count == le64(b@, 16),
            rd_pairs(b@, 24, i as nat) == Reply::Done(pairs, c.pos as int),
            metadata.wf(),
            metadata@ == map_of(pairs),
        decreases kv_count - i,
    {
        let ghost at = c.pos as int;
        proof {
            // A stop here is a stop of the whole table.
            if !(rd_pair(b@, at) is Done) {
                lemma_pairs_stop(b@, 24, (i + 1) as nat, kv_count as nat);
            }
        }
        let key: String = match c.string() {
            Ok(s) => s,
            Err(e) => return Err(e),
        };
        let tag: u32 = match c.u32() {
            Ok(v) => v,
            Err(e) => return Err(e),
        };
        let value: MetaValue = match c.value(tag) {
            Ok(v) => v,
            Err(e) => return Err(e),
        };
        proof {
            let pair = (key@, value@);
            assert(rd_pair(b@, at) == Reply::Done(pair, c.pos as int));
            let next = pairs.push(pair);
            assert(next.drop_last() =~= pairs);
            pairs = next;
        }
        metadata.insert(key, value);
        i = i + 1;
    }
    let ghost behind = c.pos as int;
    let mut tensors: Vec<TensorInfo> = Vec::new();
    let mut j: u64 = 0;
    assert(entries_of(tensors@) =~= Seq::<Entry>::empty());
    while j < tensor_count
        invariant
            j <= tensor_count,
            c.wf(),
            c.b == b,
            b@.len() >= 24,
            le32(b@, 0) == GGUF_MAGIC,
            le32(b@, 4) == 2 || le32(b@, 4) == 3,
            kv_count == le64(b@, 16),
            tensor_count == le64(b@, 8),
            rd_pairs(b@, 24, kv_count as nat) == Reply::Done(pairs, behind),
            rd_tensors(b@, behind, j as nat) == Reply::Done(entries_of(tensors@), c.pos as int),
        decreases tensor_count - j,
    {
        proof {
            if !(rd_tensor(b@, c.pos as int) is Done) {
                lemma_tensors_stop(b@, behind, (j + 1) as nat, tensor_count as nat);
            }
        }
        match read_tensor(&mut c) {
            Ok(t) => {
                let ghost before = tensors@;
                tensors.push(t);
                proof {
                    assert(entries_of(tensors@) =~= entries_of(before).push(t@));
                }
            },
            Err(e) => return Err(e),
        }
        j = j + 1;
    }
    let alignment: usize = match metadata.get("general.alignment") {
        Some(v) => match v.as_usize() {
            Some(a) => a,
            None => DEFAULT_ALIGNMENT as usize,
        },
        None => DEFAULT_ALIGNMENT as usize,
    };
    match align_up(c.pos, alignment) {
        Some(data_offset) => Ok(Header { version, metadata, tensors, data_offset }),
        None => Err(bad("GGUF tensor-data section begins past EOF")),
    }
}

} // verus!
