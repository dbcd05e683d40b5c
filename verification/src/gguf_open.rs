//! Opening a GGUF file of which a growing prefix is read until its header is
//! complete.
use crate::bytes::{le32, le64};
use crate::error::InferError;
use crate::finf_cut::begins;
use crate::gguf_blocks::format_error;
use crate::gguf_meta::VT_ARRAY;
use crate::gguf_read::{
    dims_at, parse_header, rd_header, rd_item, rd_items, rd_pair, rd_pairs, rd_shape, rd_tensor,
    rd_tensors, rd_text, rd_u32, rd_value, Header, HeaderView, Reply,
};
use vstd::prelude::*;

verus! {

/// The prefix that is read first, unless the file is shorter.
pub const FIRST_PREFIX: usize = 0x10_0000;

/// How much of a file of `len` bytes is read first.
pub open spec fn first_cap(len: int) -> int {
    let some = if len < 1 {
        1
    } else {
        len
    };
    if some < FIRST_PREFIX {
        some
    } else {
        FIRST_PREFIX as int
    }
}

/// How much of a file of `len` bytes is read behind a prefix of `cap` bytes.
pub open spec fn next_cap(cap: int, len: int) -> int {
    if 2 * cap < len {
        2 * cap
    } else {
        len
    }
}

/// What is done behind a prefix.
pub enum OpenStep {
    /// The header is complete.
    Ready(Header),
    /// A prefix of this many bytes is read next.
    Grow(usize),
    /// The file is none.
    Refuse(InferError),
}

/// How much of a file of `len` bytes is read first.
pub fn first_prefix(len: usize) -> (cap: usize)
    ensures
        cap == first_cap(len as int),
{
    let some: usize = if len < 1 {
        1
    } else {
        len
    };
    if some < FIRST_PREFIX {
        some
    } else {
        FIRST_PREFIX
    }
}

/// What is done behind the prefix that was read for `cap` bytes of a file of
/// `len` bytes: a header that is cut off asks for more while there is more.
pub fn open_step(prefix: &[u8], cap: usize, len: usize) -> (s: OpenStep)
    ensures
        match rd_header(prefix@) {
            Reply::Done(h, _) => if h.data_offset <= len {
                s is Ready && s->Ready_0.holds(h)
            } else {
                s is Refuse && s->Refuse_0 is Format
            },
            Reply::Short => if cap < len {
                s == OpenStep::Grow(next_cap(cap as int, len as int) as usize)
            } else {
                s is Refuse && s->Refuse_0 is Format
            },
            Reply::Bad => s is Refuse && s->Refuse_0 is Format,
        },
{
    match parse_header(prefix) {
        Ok(header) => if header.data_offset > len {
            OpenStep::Refuse(format_error("GGUF tensor-data section begins past EOF"))
        } else {
            OpenStep::Ready(header)
        },
        Err(stop) => {
            if cap < len && stop.is_truncation() {
                let more: usize = if cap < len - cap {
                    2 * cap
                } else {
                    len
                };
                return OpenStep::Grow(more);
            }
            OpenStep::Refuse(InferError::Format(stop.text()))
        },
    }
}

// ---------------------------------------------------------------------------
// A prefix says what the file says
// ---------------------------------------------------------------------------

/// What is read of a prefix of `n` bytes is read of the whole, unless the prefix
/// ends too early.
spec fn is_kept<T>(whole: Reply<T>, part: Reply<T>, p: int, n: int) -> bool {
    match part {
        Reply::Done(v, q) => whole == Reply::Done(v, q) && p <= q <= n,
        Reply::Short => true,
        Reply::Bad => whole is Bad,
    }
}

proof fn lemma_le32(b: Seq<u8>, c: Seq<u8>, p: int)
    requires
        begins(b, c),
        0 <= p,
        p + 4 <= c.len(),
    ensures
        le32(c, p) == le32(b, p),
        le32(c, p) >= 0,
{
    assert(c[p] == b[p] && c[p + 1] == b[p + 1] && c[p + 2] == b[p + 2] && c[p + 3] == b[p + 3]);
}

proof fn lemma_le64(b: Seq<u8>, c: Seq<u8>, p: int)
    requires
        begins(b, c),
        0 <= p,
        p + 8 <= c.len(),
    ensures
        le64(c, p) == le64(b, p),
        le64(c, p) >= 0,
{
    lemma_le32(b, c, p);
    lemma_le32(b, c, p + 4);
}

proof fn lemma_text(b: Seq<u8>, c: Seq<u8>, p: int)
    requires
        begins(b, c),
        0 <= p,
    ensures
        is_kept(rd_text(b, p), rd_text(c, p), p, c.len() as int),
{
    if p + 8 <= c.len() {
        lemma_le64(b, c, p);
        let end = p + 8 + le64(c, p);
        if end <= c.len() {
            assert(c.subrange(p + 8, end) =~= b.subrange(p + 8, end));
        }
    }
}

proof fn lemma_item(b: Seq<u8>, c: Seq<u8>, p: int, tag: u32)
    requires
        begins(b, c),
        0 <= p,
    ensures
        is_kept(rd_item(b, p, tag), rd_item(c, p, tag), p, c.len() as int),
{
    lemma_text(b, c, p);
    if p + 1 <= c.len() {
        assert(c[p] == b[p]);
    }
    if p + 2 <= c.len() {
        assert(c[p + 1] == b[p + 1]);
    }
    if p + 4 <= c.len() {
        lemma_le32(b, c, p);
    }
    if p + 8 <= c.len() {
        lemma_le64(b, c, p);
    }
}

proof fn lemma_items(b: Seq<u8>, c: Seq<u8>, p: int, tag: u32, n: nat)
    requires
        begins(b, c),
        0 <= p <= c.len(),
    ensures
        is_kept(rd_items(b, p, tag, n), rd_items(c, p, tag, n), p, c.len() as int),
    decreases n,
{
    if n > 0 {
        lemma_items(b, c, p, tag, (n - 1) as nat);
        match rd_items(c, p, tag, (n - 1) as nat) {
            Reply::Done(_, q) => {
                lemma_item(b, c, q, tag);
            },
            _ => {},
        }
    }
}

proof fn lemma_value(b: Seq<u8>, c: Seq<u8>, p: int, tag: u32)
    requires
        begins(b, c),
        0 <= p,
    ensures
        is_kept(rd_value(b, p, tag), rd_value(c, p, tag), p, c.len() as int),
{
    lemma_item(b, c, p, tag);
    if tag == VT_ARRAY && p + 4 <= c.len() {
        lemma_le32(b, c, p);
        if p + 12 <= c.len() {
            lemma_le64(b, c, p + 4);
            lemma_items(b, c, p + 12, le32(c, p) as u32, le64(c, p + 4) as nat);
        }
    }
}

proof fn lemma_pair(b: Seq<u8>, c: Seq<u8>, p: int)
    requires
        begins(b, c),
        0 <= p,
    ensures
        is_kept(rd_pair(b, p), rd_pair(c, p), p, c.len() as int),
{
    lemma_text(b, c, p);
    match rd_text(c, p) {
        Reply::Done(_, q) => {
            if q + 4 <= c.len() {
                lemma_le32(b, c, q);
                match rd_u32(c, q) {
                    Reply::Done(tag, q2) => {
                        lemma_value(b, c, q2, tag);
                    },
                    _ => {},
                }
            }
        },
        _ => {},
    }
}

proof fn lemma_pairs(b: Seq<u8>, c: Seq<u8>, p: int, n: nat)
    requires
        begins(b, c),
        0 <= p <= c.len(),
    ensures
        is_kept(rd_pairs(b, p, n), rd_pairs(c, p, n), p, c.len() as int),
    decreases n,
{
    if n > 0 {
        lemma_pairs(b, c, p, (n - 1) as nat);
        match rd_pairs(c, p, (n - 1) as nat) {
            Reply::Done(_, q) => {
                lemma_pair(b, c, q);
            },
            _ => {},
        }
    }
}

proof fn lemma_tensor(b: Seq<u8>, c: Seq<u8>, p: int)
    requires
        begins(b, c),
        0 <= p,
    ensures
        is_kept(rd_tensor(b, p), rd_tensor(c, p), p, c.len() as int),
{
    lemma_text(b, c, p);
    match rd_text(c, p) {
        Reply::Done(name, q) => {
            if q + 4 <= c.len() {
                lemma_le32(b, c, q);
                let n = le32(c, q);
                if n <= 8 && q + 16 + 8 * n <= c.len() {
                    assert forall|i: int| 0 <= i < n implies #[trigger] dims_at(c, q + 4, n as nat)[i]
                        == dims_at(b, q + 4, n as nat)[i] by {
                        lemma_le64(b, c, q + 4 + 8 * i);
                    }
                    assert(dims_at(c, q + 4, n as nat) =~= dims_at(b, q + 4, n as nat));
                    lemma_le32(b, c, q + 4 + 8 * n);
                    lemma_le64(b, c, q + 8 + 8 * n);
                    assert(rd_shape(c, q, name) == rd_shape(b, q, name));
                }
            }
        },
        _ => {},
    }
}

proof fn lemma_tensors(b: Seq<u8>, c: Seq<u8>, p: int, n: nat)
    requires
        begins(b, c),
        0 <= p <= c.len(),
    ensures
        is_kept(rd_tensors(b, p, n), rd_tensors(c, p, n), p, c.len() as int),
    decreases n,
{
    if n > 0 {
        lemma_tensors(b, c, p, (n - 1) as nat);
        match rd_tensors(c, p, (n - 1) as nat) {
            Reply::Done(_, q) => {
                lemma_tensor(b, c, q);
            },
            _ => {},
        }
    }
}

/// A prefix says what the file says: a header that is complete in it is that of
/// the file, and a prefix that is no header begins no file.
pub proof fn prefixes_say_what_files_say(b: Seq<u8>, c: Seq<u8>)
    requires
        begins(b, c),
    ensures
        match rd_header(c) {
            Reply::Done(h, q) => rd_header(b) == Reply::Done(h, q),
            Reply::Short => true,
            Reply::Bad => rd_header(b) is Bad,
        },
{
    if c.len() >= 4 {
        lemma_le32(b, c, 0);
    }
    if c.len() >= 8 {
        lemma_le32(b, c, 4);
    }
    if c.len() >= 24 {
        lemma_le64(b, c, 8);
        lemma_le64(b, c, 16);
        lemma_pairs(b, c, 24, le64(c, 16) as nat);
        match rd_pairs(c, 24, le64(c, 16) as nat) {
            Reply::Done(_, q) => {
                lemma_tensors(b, c, q, le64(c, 8) as nat);
            },
            _ => {},
        }
    }
}

// ---------------------------------------------------------------------------
// The steps of opening
// ---------------------------------------------------------------------------

/// The header in which the steps end that begin with a prefix of `cap` bytes, or
/// none if they end in a refusal.
pub open spec fn steps_end_in(b: Seq<u8>, cap: int) -> Option<HeaderView>
    decreases b.len() - cap,
{
    let len = b.len() as int;
    let prefix = if cap < len {
        b.take(cap)
    } else {
        b
    };
    match rd_header(prefix) {
        Reply::Done(h, _) => if h.data_offset <= len {
            Some(h)
        } else {
            None
        },
        Reply::Short => if 0 < cap < len {
            steps_end_in(b, next_cap(cap, len))
        } else {
            None
        },
        Reply::Bad => None,
    }
}

/// The steps of opening end in the header of the whole file, and in a refusal
/// where the whole file has none or its tensor data would begin behind the end.
pub proof fn steps_end_in_the_header(b: Seq<u8>, cap: int)
    requires
        0 < cap,
    ensures
        steps_end_in(b, cap) == (match rd_header(b) {
            Reply::Done(h, _) => if h.data_offset <= b.len() {
                Some(h)
            } else {
                None
            },
            _ => None,
        }),
    decreases b.len() - cap,
{
    let len = b.len() as int;
    if cap < len {
        let prefix = b.take(cap);
        assert(begins(b, prefix));
        prefixes_say_what_files_say(b, prefix);
        if rd_header(prefix) is Short {
            steps_end_in_the_header(b, next_cap(cap, len));
        }
    }
}

} // verus!
