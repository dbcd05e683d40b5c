//! Little-endian integers in byte sequences.
use vstd::prelude::*;

verus! {

/// Two bytes at `p`, least significant first.
pub open spec fn le16(b: Seq<u8>, p: int) -> int {
    b[p] + 0x100 * b[p + 1]
}

/// Four bytes at `p`, least significant first.
pub open spec fn le32(b: Seq<u8>, p: int) -> int {
    le16(b, p) + 0x1_0000 * le16(b, p + 2)
}

/// Eight bytes at `p`, least significant first.
pub open spec fn le64(b: Seq<u8>, p: int) -> int {
    le32(b, p) + 0x1_0000_0000 * le32(b, p + 4)
}

/// The two bytes of a number below 2^16.
pub open spec fn put16(v: int) -> Seq<u8> {
    seq![(v % 0x100) as u8, (v / 0x100) as u8]
}

/// The four bytes of a number below 2^32.
pub open spec fn put32(v: int) -> Seq<u8> {
    put16(v % 0x1_0000) + put16(v / 0x1_0000)
}

/// The eight bytes of a number below 2^64.
pub open spec fn put64(v: int) -> Seq<u8> {
    put32(v % 0x1_0000_0000) + put32(v / 0x1_0000_0000)
}

/// A number of `n` values read as two's complement.
pub open spec fn signed(v: int, n: int) -> int {
    if 2 * v < n {
        v
    } else {
        v - n
    }
}

/// The two's complement of a number among `n` values.
pub open spec fn unsigned(v: int, n: int) -> int {
    if v < 0 {
        v + n
    } else {
        v
    }
}

/// `part` stands in `b` at `p`.
pub open spec fn stands_at(b: Seq<u8>, p: int, part: Seq<u8>) -> bool {
    &&& 0 <= p
    &&& p + part.len() <= b.len()
    &&& b.subrange(p, p + part.len()) == part
}

/// Of two parts that stand together, each stands in its place.
pub proof fn lemma_stands_split(b: Seq<u8>, p: int, s: Seq<u8>, t: Seq<u8>)
    requires
        stands_at(b, p, s + t),
    ensures
        stands_at(b, p, s),
        stands_at(b, p + s.len(), t),
{
    let whole = b.subrange(p, p + (s + t).len());
    assert(b.subrange(p, p + s.len()) =~= s) by {
        assert forall|i: int| 0 <= i < s.len() implies b[p + i] == s[i] by {
            assert(whole[i] == (s + t)[i]);
        }
    }
    assert(b.subrange(p + s.len(), p + s.len() + t.len()) =~= t) by {
        assert forall|i: int| 0 <= i < t.len() implies b[p + s.len() + i] == t[i] by {
            assert(whole[s.len() + i] == (s + t)[s.len() + i]);
        }
    }
}

/// What stands in a prefix stands in the whole.
pub proof fn lemma_stands_in(b: Seq<u8>, before: Seq<u8>, part: Seq<u8>, after: Seq<u8>)
    requires
        b == before + part + after,
    ensures
        stands_at(b, before.len() as int, part),
{
    let p = before.len() as int;
    assert(b.subrange(p, p + part.len()) =~= part);
}

/// The two bytes written are read back.
pub proof fn lemma_le16(b: Seq<u8>, p: int, v: int)
    requires
        0 <= v < 0x1_0000,
        stands_at(b, p, put16(v)),
    ensures
        le16(b, p) == v,
{
    let s = b.subrange(p, p + 2);
    assert(s[0] == b[p] && s[1] == b[p + 1]);
}

/// The four bytes written are read back.
pub proof fn lemma_le32(b: Seq<u8>, p: int, v: int)
    requires
        0 <= v < 0x1_0000_0000,
        stands_at(b, p, put32(v)),
    ensures
        le32(b, p) == v,
{
    lemma_stands_split(b, p, put16(v % 0x1_0000), put16(v / 0x1_0000));
    lemma_le16(b, p, v % 0x1_0000);
    lemma_le16(b, p + 2, v / 0x1_0000);
}

/// The eight bytes written are read back.
pub proof fn lemma_le64(b: Seq<u8>, p: int, v: int)
    requires
        0 <= v < 0x1_0000_0000_0000_0000,
        stands_at(b, p, put64(v)),
    ensures
        le64(b, p) == v,
{
    lemma_stands_split(b, p, put32(v % 0x1_0000_0000), put32(v / 0x1_0000_0000));
    lemma_le32(b, p, v % 0x1_0000_0000);
    lemma_le32(b, p + 4, v / 0x1_0000_0000);
}

/// Reads two bytes.
pub fn get_u16(b: &[u8], p: usize) -> (v: u16)
    requires
        p + 2 <= b@.len(),
    ensures
        v == le16(b@, p as int),
{
    b[p] as u16 + 0x100 * (b[p + 1] as u16)
}

/// Reads four bytes.
pub fn get_u32(b: &[u8], p: usize) -> (v: u32)
    requires
        p + 4 <= b@.len(),
    ensures
        v == le32(b@, p as int),
{
    let end: usize = b.len();
    assert(p + 4 <= end);
    get_u16(b, p) as u32 + 0x1_0000 * (get_u16(b, p + 2) as u32)
}

/// Reads eight bytes.
pub fn get_u64(b: &[u8], p: usize) -> (v: u64)
    requires
        p + 8 <= b@.len(),
    ensures
        v == le64(b@, p as int),
{
    let end: usize = b.len();
    assert(p + 8 <= end);
    get_u32(b, p) as u64 + 0x1_0000_0000 * (get_u32(b, p + 4) as u64)
}

/// Writes two bytes.
pub fn push_u16(out: &mut Vec<u8>, v: u16)
    ensures
        final(out)@ == old(out)@ + put16(v as int),
{
    out.push((v % 0x100) as u8);
    out.push((v / 0x100) as u8);
    assert(out@ =~= old(out)@ + put16(v as int));
}

/// Writes four bytes.
pub fn push_u32(out: &mut Vec<u8>, v: u32)
    ensures
        final(out)@ == old(out)@ + put32(v as int),
{
    push_u16(out, (v % 0x1_0000) as u16);
    push_u16(out, (v / 0x1_0000) as u16);
    assert(out@ =~= old(out)@ + put32(v as int));
}

/// Writes eight bytes.
pub fn push_u64(out: &mut Vec<u8>, v: u64)
    ensures
        final(out)@ == old(out)@ + put64(v as int),
{
    push_u32(out, (v % 0x1_0000_0000) as u32);
    push_u32(out, (v / 0x1_0000_0000) as u32);
    assert(out@ =~= old(out)@ + put64(v as int));
}

/// Writes bytes.
pub fn push_bytes(out: &mut Vec<u8>, part: &[u8])
    ensures
        final(out)@ == old(out)@ + part@,
{
    let ghost before = out@;
    let mut i: usize = 0;
    let n: usize = part.len();
    assert(before + part@.subrange(0, 0) =~= before);
    while i < n
        invariant
            i <= n,
            n == part@.len(),
            out@ == before + part@.subrange(0, i as int),
        decreases n - i,
    {
        out.push(part[i]);
        proof {
            assert(before + part@.subrange(0, i + 1) =~= (before + part@.subrange(
                0,
                i as int,
            )).push(part@[i as int]));
        }
        i = i + 1;
    }
    assert(part@.subrange(0, n as int) =~= part@);
}

/// Reads one byte as two's complement.
pub fn signed8(v: u8) -> (r: i8)
    ensures
        r == signed(v as int, 0x100),
{
    if v < 0x80 {
        v as i8
    } else {
        (v as i16 - 0x100) as i8
    }
}

/// Reads two bytes as two's complement.
pub fn signed16(v: u16) -> (r: i16)
    ensures
        r == signed(v as int, 0x1_0000),
{
    if v < 0x8000 {
        v as i16
    } else {
        (v as i32 - 0x1_0000) as i16
    }
}

/// Reads four bytes as two's complement.
pub fn signed32(v: u32) -> (r: i32)
    ensures
        r == signed(v as int, 0x1_0000_0000),
{
    if v < 0x8000_0000 {
        v as i32
    } else {
        (v as i64 - 0x1_0000_0000) as i32
    }
}

/// Reads eight bytes as two's complement.
pub fn signed64(v: u64) -> (r: i64)
    ensures
        r == signed(v as int, 0x1_0000_0000_0000_0000),
{
    if v < 0x8000_0000_0000_0000 {
        v as i64
    } else {
        (v as i128 - 0x1_0000_0000_0000_0000) as i64
    }
}

/// The byte of a small signed number.
pub fn unsigned8(v: i8) -> (r: u8)
    ensures
        r == unsigned(v as int, 0x100),
{
    if v < 0 {
        (v as i16 + 0x100) as u8
    } else {
        v as u8
    }
}

/// The sixteen bits of a signed number.
pub fn unsigned16(v: i16) -> (r: u16)
    ensures
        r == unsigned(v as int, 0x1_0000),
{
    if v < 0 {
        (v as i32 + 0x1_0000) as u16
    } else {
        v as u16
    }
}

/// The thirty-two bits of a signed number.
pub fn unsigned32(v: i32) -> (r: u32)
    ensures
        r == unsigned(v as int, 0x1_0000_0000),
{
    if v < 0 {
        (v as i64 + 0x1_0000_0000) as u32
    } else {
        v as u32
    }
}

/// The sixty-four bits of a signed number.
pub fn unsigned64(v: i64) -> (r: u64)
    ensures
        r == unsigned(v as int, 0x1_0000_0000_0000_0000),
{
    if v < 0 {
        (v as i128 + 0x1_0000_0000_0000_0000) as u64
    } else {
        v as u64
    }
}

} // verus!
