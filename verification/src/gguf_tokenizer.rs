//! The tokenizer that a GGUF file carries: byte-level byte-pair encoding, or
//! longest matches with a fallback to bytes.
use crate::error::{InferError, Result};
use crate::gguf::Gguf;
use crate::gguf_blocks::format_error;
use crate::gguf_listing::{Directory, Listing};
use crate::gguf_meta::{items_of, Item, MetaValue, MetaView};
use crate::text::{char_of, chars_of, joined, same_text, string_of};
use crate::text_index::{texts_of, TextIndex};
use crate::textops::{is_blank, slice_of, white};
use vstd::prelude::*;
use vstd::utf8::char_u32_cast;

verus! {

// ---------------------------------------------------------------------------
// Bytes as printable characters
// ---------------------------------------------------------------------------

/// The code point that stands for a byte: its own if it is printable, else one
/// from 256 on.
pub open spec fn byte_code(b: int) -> int {
    if 33 <= b <= 126 || 161 <= b <= 172 || 174 <= b {
        b
    } else if b <= 32 {
        256 + b
    } else if b <= 160 {
        162 + b
    } else {
        323
    }
}

/// The byte that a code point stands for.
pub open spec fn code_byte(c: int) -> Option<int> {
    if 33 <= c <= 126 || 161 <= c <= 172 || 174 <= c <= 255 {
        Some(c)
    } else if 256 <= c <= 288 {
        Some(c - 256)
    } else if 289 <= c <= 322 {
        Some(c - 162)
    } else if c == 323 {
        Some(173)
    } else {
        None
    }
}

/// The characters for bytes and the bytes for characters are inverse to each
/// other: every byte has a character of its own.
pub proof fn byte_characters_are_a_bijection()
    ensures
        forall|b: int| 0 <= b < 256 ==> code_byte(#[trigger] byte_code(b)) == Some(b),
        forall|c: int|
            (#[trigger] code_byte(c)) is Some ==> 0 <= code_byte(c)->0 < 256 && byte_code(
                code_byte(c)->0,
            ) == c,
{
}

/// The character that stands for a byte.
pub open spec fn byte_char(b: u8) -> char {
    byte_code(b as int) as char
}

/// The character that stands for a byte.
pub fn byte_to_char(b: u8) -> (c: char)
    ensures
        c == byte_char(b),
        c as u32 == byte_code(b as int),
{
    let code: u32 = if (33 <= b && b <= 126) || (161 <= b && b <= 172) || 174 <= b {
        b as u32
    } else if b <= 32 {
        256 + b as u32
    } else if b <= 160 {
        162 + b as u32
    } else {
        323
    };
    match char_of(code) {
        Some(c) => {
            proof {
                char_u32_cast(c, code);
            }
            c
        },
        None => ' ',
    }
}

/// The byte that a character stands for.
pub open spec fn char_byte(c: char) -> Option<int> {
    code_byte((c as u32) as int)
}

/// A table of the characters for bytes.
pub open spec fn is_encoder(v: Seq<char>) -> bool {
    v.len() == 256 && forall|b: int| 0 <= b < 256 ==> #[trigger] v[b] == byte_char(b as u8)
}

/// A table of the bytes for code points.
pub open spec fn is_decoder(v: Seq<Option<u8>>) -> bool {
    &&& v.len() == 324
    &&& forall|c: int|
        0 <= c < 324 ==> match code_byte(c) {
            Some(b) => #[trigger] v[c] == Some(b as u8),
            None => v[c] is None,
        }
}

/// The characters for bytes, and the bytes for code points.
pub fn gpt2_byte_tables() -> (r: (Vec<char>, Vec<Option<u8>>))
    ensures
        is_encoder(r.0@),
        is_decoder(r.1@),
{
    let mut enc: Vec<char> = Vec::new();
    let mut b: u32 = 0;
    while b < 256
        invariant
            b <= 256,
            enc@.len() == b,
            forall|k: int| 0 <= k < b ==> #[trigger] enc@[k] == byte_char(k as u8),
        decreases 256 - b,
    {
        enc.push(byte_to_char(b as u8));
        b = b + 1;
    }
    let mut dec: Vec<Option<u8>> = Vec::new();
    let mut c: u32 = 0;
    while c < 324
        invariant
            c <= 324,
            dec@.len() == c,
            forall|k: int|
                0 <= k < c ==> match code_byte(k) {
                    Some(b) => #[trigger] dec@[k] == Some(b as u8),
                    None => dec@[k] is None,
                },
        decreases 324 - c,
    {
        let held: Option<u8> = if (33 <= c && c <= 126) || (161 <= c && c <= 172) || (174 <= c && c
            <= 255) {
            Some(c as u8)
        } else if 256 <= c && c <= 288 {
            Some((c - 256) as u8)
        } else if 289 <= c && c <= 322 {
            Some((c - 162) as u8)
        } else if c == 323 {
            Some(173)
        } else {
            None
        };
        dec.push(held);
        c = c + 1;
    }
    (enc, dec)
}

// ---------------------------------------------------------------------------
// Splitting text
// ---------------------------------------------------------------------------

/// What `char::is_alphabetic` says.
pub uninterp spec fn is_letter(c: char) -> bool;

/// What `char::is_numeric` says.
pub uninterp spec fn is_number(c: char) -> bool;

/// `char::is_alphabetic`: a property of the character alone.
#[verifier::external_body]
fn letter(c: char) -> (b: bool)
    ensures
        b == is_letter(c),
{
    c.is_alphabetic()
}

/// `char::is_numeric`: a property of the character alone.
#[verifier::external_body]
fn number(c: char) -> (b: bool)
    ensures
        b == is_number(c),
{
    c.is_numeric()
}

/// What is asked of a character when text is split.
#[derive(Clone, Copy, Debug, PartialEq, Eq, Structural)]
pub struct CharKind {
    pub letter: bool,
    pub number: bool,
    pub space: bool,
}

/// The kind of a character.
pub open spec fn kind_of(c: char) -> CharKind {
    CharKind { letter: is_letter(c), number: is_number(c), space: is_blank(c) }
}

/// The kinds of characters.
pub open spec fn kinds_of(s: Seq<char>) -> Seq<CharKind> {
    s.map_values(|c: char| kind_of(c))
}

/// A character of kind `k` goes on with a run that begins with kind `first`.
pub open spec fn goes_on(first: CharKind, k: CharKind) -> bool {
    if first.letter {
        k.letter
    } else if first.number {
        k.number
    } else if first.space {
        k.space
    } else {
        !k.letter && !k.number && !k.space
    }
}

/// Where a run that begins with kind `first` ends, from `i` on.
pub open spec fn run_end(kinds: Seq<CharKind>, first: CharKind, i: int) -> int
    decreases kinds.len() - i,
{
    if 0 <= i < kinds.len() && goes_on(first, kinds[i]) {
        run_end(kinds, first, i + 1)
    } else {
        i
    }
}

/// Where the chunk at `i` ends: a space goes with the run behind it.
pub open spec fn chunk_end(s: Seq<char>, kinds: Seq<CharKind>, i: int) -> int {
    let j = if s[i] == ' ' {
        i + 1
    } else {
        i
    };
    if j >= s.len() {
        s.len() as int
    } else {
        run_end(kinds, kinds[j], j + 1)
    }
}

/// The chunks of text from `i` on: runs of letters, of numbers, of white space,
/// of anything else.
pub open spec fn chunks_from(s: Seq<char>, kinds: Seq<CharKind>, i: int) -> Seq<Seq<char>>
    decreases s.len() - i,
{
    if 0 <= i < s.len() {
        let e = chunk_end(s, kinds, i);
        seq![s.subrange(i, e)] + (if i < e <= s.len() {
            chunks_from(s, kinds, e)
        } else {
            Seq::empty()
        })
    } else {
        Seq::empty()
    }
}

proof fn lemma_run_end(kinds: Seq<CharKind>, first: CharKind, i: int)
    requires
        0 <= i <= kinds.len(),
    ensures
        i <= run_end(kinds, first, i) <= kinds.len(),
    decreases kinds.len() - i,
{
    if i < kinds.len() && goes_on(first, kinds[i]) {
        lemma_run_end(kinds, first, i + 1);
    }
}

pub(crate) proof fn lemma_chunk_end(s: Seq<char>, kinds: Seq<CharKind>, i: int)
    requires
        kinds.len() == s.len(),
        0 <= i < s.len(),
    ensures
        i < chunk_end(s, kinds, i) <= s.len(),
{
    let j = if s[i] == ' ' {
        i + 1
    } else {
        i
    };
    if j < s.len() {
        lemma_run_end(kinds, kinds[j], j + 1);
    }
}

fn in_run(first: CharKind, k: CharKind) -> (b: bool)
    ensures
        b == goes_on(first, k),
{
    if first.letter {
        k.letter
    } else if first.number {
        k.number
    } else if first.space {
        k.space
    } else {
        !k.letter && !k.number && !k.space
    }
}

/// Splits characters of the given kinds into chunks.
pub fn split_chunks(s: &[char], kinds: &[CharKind]) -> (r: Vec<Vec<char>>)
    requires
        kinds@.len() == s@.len(),
    ensures
        texts_of(r@) == chunks_from(s@, kinds@, 0),
{
    let n: usize = s.len();
    let mut r: Vec<Vec<char>> = Vec::new();
    let mut i: usize = 0;
    assert(texts_of(r@) + chunks_from(s@, kinds@, 0) =~= chunks_from(s@, kinds@, 0));
    while i < n
        invariant
            i <= n,
            n == s@.len(),
            kinds@.len() == n,
            texts_of(r@) + chunks_from(s@, kinds@, i as int) == chunks_from(s@, kinds@, 0),
        decreases n - i,
    {
        proof {
            lemma_chunk_end(s@, kinds@, i as int);
        }
        let ghost e = chunk_end(s@, kinds@, i as int);
        let start: usize = i;
        if s[i] == ' ' {
            i = i + 1;
        }
        if i < n {
            let first: CharKind = kinds[i];
            i = i + 1;
            while i < n && in_run(first, kinds[i])
                invariant
                    start < i <= n,
                    n == s@.len(),
                    kinds@.len() == n,
                    e == run_end(kinds@, first, i as int),
                decreases n - i,
            {
                i = i + 1;
            }
        }
        assert(i == e);
        let ghost before = texts_of(r@);
        r.push(slice_of(s, start, i));
        proof {
            let chunk = s@.subrange(start as int, e);
            assert(texts_of(r@) =~= before.push(chunk));
            assert(texts_of(r@) + chunks_from(s@, kinds@, e) =~= before + (seq![chunk]
                + chunks_from(s@, kinds@, e)));
        }
    }
    assert(texts_of(r@) + chunks_from(s@, kinds@, n as int) =~= texts_of(r@));
    r
}

/// The chunks of a text.
pub open spec fn chunks_of(s: Seq<char>) -> Seq<Seq<char>> {
    chunks_from(s, kinds_of(s), 0)
}

pub(crate) fn chunks_exec(s: &[char]) -> (r: Vec<Vec<char>>)
    ensures
        texts_of(r@) == chunks_of(s@),
{
    let mut kinds: Vec<CharKind> = Vec::new();
    let mut i: usize = 0;
    while i < s.len()
        invariant
            i <= s@.len(),
            kinds@ == kinds_of(s@).subrange(0, i as int),
        decreases s@.len() - i,
    {
        let c: char = s[i];
        kinds.push(CharKind { letter: letter(c), number: number(c), space: white(c) });
        proof {
            assert(kinds_of(s@).subrange(0, i + 1) =~= kinds_of(s@).subrange(0, i as int).push(
                kind_of(c),
            ));
        }
        i = i + 1;
    }
    assert(kinds@ =~= kinds_of(s@));
    split_chunks(s, kinds.as_slice())
}

/// What strings hold.
pub open spec fn strings_of(v: Seq<String>) -> Seq<Seq<char>> {
    Seq::new(v.len(), |i: int| v[i]@)
}

/// Splits text into chunks: runs of letters, of numbers, of white space, of
/// anything else, each with the space before it.
pub fn pretokenize(text: &str) -> (r: Vec<String>)
    ensures
        strings_of(r@) == chunks_of(text@),
{
    let s: Vec<char> = chars_of(text);
    let chunks: Vec<Vec<char>> = chunks_exec(s.as_slice());
    let mut r: Vec<String> = Vec::new();
    let mut i: usize = 0;
    while i < chunks.len()
        invariant
            i <= chunks@.len(),
            r@.len() == i,
            forall|k: int| 0 <= k < i ==> (#[trigger] r@[k])@ == chunks@[k]@,
        decreases chunks@.len() - i,
    {
        r.push(string_of(chunks[i].as_slice()));
        i = i + 1;
    }
    assert(strings_of(r@) =~= texts_of(chunks@));
    r
}

// ---------------------------------------------------------------------------
// Tokens for single bytes
// ---------------------------------------------------------------------------

/// The value of a hexadecimal digit.
pub open spec fn hex_digit(c: char) -> Option<int> {
    let k = (c as u32) as int;
    if 48 <= k <= 57 {
        Some(k - 48)
    } else if 97 <= k <= 102 {
        Some(k - 87)
    } else if 65 <= k <= 70 {
        Some(k - 55)
    } else {
        None
    }
}

/// The value of hexadecimal digits, if it is a byte.
pub open spec fn hex_value(s: Seq<char>) -> Option<int>
    decreases s.len(),
{
    if s.len() == 0 {
        Some(0)
    } else {
        match (hex_value(s.drop_last()), hex_digit(s.last())) {
            (Some(v), Some(d)) => if 16 * v + d <= 255 {
                Some(16 * v + d)
            } else {
                None
            },
            _ => None,
        }
    }
}

/// A byte in hexadecimal digits, at least one, with a plus sign before them or
/// not.
pub open spec fn hex_byte(s: Seq<char>) -> Option<int> {
    let t = if s.len() > 0 && s[0] == '+' {
        s.drop_first()
    } else {
        s
    };
    if t.len() == 0 {
        None
    } else {
        hex_value(t)
    }
}

/// The byte that a token such as `<0x41>` stands for.
pub open spec fn byte_token(tok: Seq<char>) -> Option<int> {
    if tok.len() >= 4 && tok[0] == '<' && tok[1] == '0' && tok[2] == 'x' && tok.last() == '>' {
        hex_byte(tok.subrange(3, tok.len() - 1))
    } else {
        None
    }
}

fn hex_digit_exec(c: char) -> (r: Option<u32>)
    ensures
        match hex_digit(c) {
            Some(d) => r is Some && r->0 == d && d < 16,
            None => r is None,
        },
{
    let k: u32 = c as u32;
    if 48 <= k && k <= 57 {
        Some(k - 48)
    } else if 97 <= k && k <= 102 {
        Some(k - 87)
    } else if 65 <= k && k <= 70 {
        Some(k - 55)
    } else {
        None
    }
}

/// The byte that a token such as `<0x41>` stands for.
pub fn parse_byte_token(tok: &[char]) -> (r: Option<u8>)
    ensures
        match byte_token(tok@) {
            Some(b) => r is Some && r->0 == b,
            None => r is None,
        },
{
    let n: usize = tok.len();
    if n < 4 || tok[0] != '<' || tok[1] != '0' || tok[2] != 'x' || tok[n - 1] != '>' {
        return None;
    }
    let ghost inner = tok@.subrange(3, n - 1);
    let start: usize = if n > 4 && tok[3] == '+' {
        4
    } else {
        3
    };
    let ghost t = tok@.subrange(start as int, n - 1);
    proof {
        if start == 4 {
            assert(inner[0] == '+');
            assert(inner.drop_first() =~= t);
        } else {
            assert(n > 4 ==> inner[0] == tok@[3]);
            assert(t =~= inner);
        }
    }
    if start == n - 1 {
        return None;
    }
    let mut v: u32 = 0;
    let mut i: usize = start;
    assert(t.subrange(0, 0) =~= Seq::<char>::empty());
    while i < n - 1
        invariant
            start <= i <= n - 1,
            n == tok@.len(),
            n >= 4,
            3 <= start <= 4,
            t == tok@.subrange(start as int, n - 1),
            v <= 255,
            hex_value(t.subrange(0, i - start)) == Some(v as int),
            byte_token(tok@) == hex_value(t),
        decreases n - i,
    {
        let ghost next = t.subrange(0, i + 1 - start);
        proof {
            assert(next.drop_last() =~= t.subrange(0, i - start));
            assert(next.last() == tok@[i as int]);
        }
        match hex_digit_exec(tok[i]) {
            Some(d) => {
                if 16 * v + d > 255 {
                    proof {
                        lemma_hex_stop(t, i + 1 - start);
                    }
                    return None;
                }
                v = 16 * v + d;
            },
            None => {
                proof {
                    lemma_hex_stop(t, i + 1 - start);
                }
                return None;
            },
        }
        i = i + 1;
    }
    assert(t.subrange(0, n - 1 - start) =~= t);
    Some(v as u8)
}

/// Digits whose beginning is no byte are none.
proof fn lemma_hex_stop(t: Seq<char>, k: int)
    requires
        0 <= k <= t.len(),
        hex_value(t.subrange(0, k)) is None,
    ensures
        hex_value(t) is None,
    decreases t.len() - k,
{
    if k < t.len() {
        let next = t.subrange(0, k + 1);
        assert(next.drop_last() =~= t.subrange(0, k));
        lemma_hex_stop(t, k + 1);
    } else {
        assert(t.subrange(0, k) =~= t);
    }
}

// ---------------------------------------------------------------------------
// The tokenizer
// ---------------------------------------------------------------------------

/// The mark that stands for a space in longest-match vocabularies.
pub const SPM_SPACE: char = '\u{2581}';

/// The family of a tokenizer.
#[derive(Clone, Copy, Debug, PartialEq, Eq, Structural)]
pub enum TokModel {
    /// Byte-level byte-pair encoding.
    Bpe,
    /// Longest matches with a fallback to bytes.
    Spm,
}

/// A tokenizer out of a file.
pub struct GgufTokenizer {
    pub family: TokModel,
    /// The tokens, each at its number.
    pub tokens: TextIndex,
    /// Pairs of pieces to merge, with a NUL between them, the first to merge
    /// first.
    pub merges: TextIndex,
    /// The length of the longest token, at least one.
    pub max_token_len: usize,
    /// The number of the token for each byte.
    pub byte_ids: Vec<Option<usize>>,
    pub byte_encoder: Vec<char>,
    pub byte_decoder: Vec<Option<u8>>,
    pub bos_id: Option<usize>,
    pub eos_id: Option<usize>,
}

/// The family of a name.
pub open spec fn family_named(s: Seq<char>) -> Option<TokModel> {
    if s == "gpt2"@ || s == "bpe"@ {
        Some(TokModel::Bpe)
    } else if s == "llama"@ || s == "spm"@ {
        Some(TokModel::Spm)
    } else {
        None
    }
}

/// The texts of a list; empty in place of an item that is no text.
pub open spec fn texts_in(items: Seq<Item>) -> Seq<Seq<char>> {
    Seq::new(
        items.len(),
        |i: int|
            match items[i] {
                Item::String(s) => s,
                _ => Seq::empty(),
            },
    )
}

/// The list of texts under a key.
pub open spec fn list_of(d: Directory, key: Seq<char>) -> Option<Seq<Seq<char>>> {
    if d.metadata.dom().contains(key) {
        match d.metadata[key] {
            MetaView::Many(items) => Some(texts_in(items)),
            MetaView::One(_) => None,
        }
    } else {
        None
    }
}

/// The first space in a text, from `i` on.
pub open spec fn space_from(m: Seq<char>, i: int) -> Option<int>
    decreases m.len() - i,
{
    if 0 <= i < m.len() {
        if m[i] == ' ' {
            Some(i)
        } else {
            space_from(m, i + 1)
        }
    } else {
        None
    }
}

/// The pairs that lists of "left right" name, with a NUL for the first space;
/// those without a space are left out.
pub open spec fn merge_keys(s: Seq<Seq<char>>) -> Seq<Seq<char>>
    decreases s.len(),
{
    if s.len() == 0 {
        Seq::empty()
    } else {
        match space_from(s.last(), 0) {
            Some(i) => merge_keys(s.drop_last()).push(s.last().update(i, '\0')),
            None => merge_keys(s.drop_last()),
        }
    }
}

/// The length of the longest text, at least one.
pub open spec fn longest_len(s: Seq<Seq<char>>) -> nat
    decreases s.len(),
{
    if s.len() == 0 {
        1
    } else if s.last().len() > longest_len(s.drop_last()) {
        s.last().len()
    } else {
        longest_len(s.drop_last())
    }
}

/// The last token for a byte.
pub open spec fn byte_id(tokens: Seq<Seq<char>>, b: int) -> Option<int>
    decreases tokens.len(),
{
    if tokens.len() == 0 {
        None
    } else if byte_token(tokens.last()) == Some(b) {
        Some(tokens.len() - 1)
    } else {
        byte_id(tokens.drop_last(), b)
    }
}

/// The number of a special token: the count under a key, in 32 bits.
pub open spec fn special_id(d: Directory, key: Seq<char>) -> Option<int> {
    match d.count_of(key) {
        Some(n) => Some(n % 0x1_0000_0000),
        None => None,
    }
}

/// An option holds what a count says.
pub open spec fn same_id(r: Option<usize>, v: Option<int>) -> bool {
    match v {
        Some(n) => r is Some && r->0 == n,
        None => r is None,
    }
}

/// The list of texts under a key.
fn string_array(l: &Listing<'_>, key: &str) -> (r: Option<Vec<Vec<char>>>)
    requires
        l.wf(),
    ensures
        match list_of(l@, key@) {
            Some(l) => r is Some && texts_of(r->0@) == l,
            None => r is None,
        },
{
    match l.metadata.get(key) {
        Some(MetaValue::Array(items)) => {
            let mut out: Vec<Vec<char>> = Vec::new();
            let ghost all = texts_in(items_of(items@));
            let mut i: usize = 0;
            while i < items.len()
                invariant
                    i <= items@.len(),
                    all == texts_in(items_of(items@)),
                    out@.len() == i,
                    forall|k: int| 0 <= k < i ==> (#[trigger] out@[k])@ == all[k],
                decreases items@.len() - i,
            {
                let t: Vec<char> = match &items[i] {
                    MetaValue::String(s) => chars_of(s.as_str()),
                    _ => Vec::new(),
                };
                assert(t@ =~= all[i as int]);
                out.push(t);
                i = i + 1;
            }
            assert(texts_of(out@) =~= all);
            Some(out)
        },
        _ => None,
    }
}

/// The first space in a text.
fn space_exec(m: &[char]) -> (r: Option<usize>)
    ensures
        match space_from(m@, 0) {
            Some(i) => r is Some && r->0 == i && i < m@.len(),
            None => r is None,
        },
{
    let mut i: usize = 0;
    while i < m.len()
        invariant
            i <= m@.len(),
            space_from(m@, 0) == space_from(m@, i as int),
        decreases m@.len() - i,
    {
        if m[i] == ' ' {
            return Some(i);
        }
        i = i + 1;
    }
    None
}

/// The pairs of pieces that a list names.
fn merges_exec(lines: Vec<Vec<char>>) -> (x: TextIndex)
    ensures
        x.wf(),
        x@ == merge_keys(texts_of(lines@)),
{
    let n: usize = lines.len();
    let mut x: TextIndex = TextIndex::new(n);
    let ghost all = texts_of(lines@);
    let mut i: usize = 0;
    assert(x@ =~= merge_keys(all.subrange(0, 0)));
    while i < n
        invariant
            i <= n,
            n == lines@.len(),
            all == texts_of(lines@),
            x.wf(),
            x@ == merge_keys(all.subrange(0, i as int)),
        decreases n - i,
    {
        let line: &Vec<char> = &lines[i];
        proof {
            let next = all.subrange(0, i + 1);
            assert(next.drop_last() =~= all.subrange(0, i as int));
            assert(next.last() == line@);
        }
        match space_exec(line.as_slice()) {
            Some(at) => {
                let mut key: Vec<char> = slice_of(line.as_slice(), 0, line.len());
                assert(key@ =~= line@);
                key.set(at, '\0');
                x.push(key);
            },
            None => {},
        }
        i = i + 1;
    }
    assert(all.subrange(0, n as int) =~= all);
    x
}

/// The length of the longest token, at least one.
fn longest_exec(tokens: &TextIndex) -> (n: usize)
    ensures
        n == longest_len(tokens@),
        n >= 1,
{
    let mut best: usize = 1;
    let mut i: usize = 0;
    let ghost all = tokens@;
    assert(all.subrange(0, 0) =~= Seq::<Seq<char>>::empty());
    while i < tokens.keys.len()
        invariant
            i <= tokens.keys@.len(),
            all == tokens@,
            best == longest_len(all.subrange(0, i as int)),
            best >= 1,
        decreases tokens.keys@.len() - i,
    {
        proof {
            let next = all.subrange(0, i + 1);
            assert(next.drop_last() =~= all.subrange(0, i as int));
            assert(next.last() == tokens.keys@[i as int]@);
        }
        let len: usize = tokens.keys[i].len();
        if len > best {
            best = len;
        }
        i = i + 1;
    }
    assert(all.subrange(0, all.len() as int) =~= all);
    best
}

/// The number of the token for each byte.
fn byte_ids_exec(tokens: &TextIndex) -> (v: Vec<Option<usize>>)
    ensures
        v@.len() == 256,
        forall|b: int| 0 <= b < 256 ==> same_id(#[trigger] v@[b], byte_id(tokens@, b)),
{
    let mut v: Vec<Option<usize>> = Vec::new();
    let mut b: usize = 0;
    let ghost all = tokens@;
    while b < 256
        invariant
            b <= 256,
            v@.len() == b,
            forall|k: int| 0 <= k < b ==> (#[trigger] v@[k]) is None,
        decreases 256 - b,
    {
        v.push(None);
        b = b + 1;
    }
    let mut i: usize = 0;
    assert(all.subrange(0, 0) =~= Seq::<Seq<char>>::empty());
    while i < tokens.keys.len()
        invariant
            i <= tokens.keys@.len(),
            all == tokens@,
            v@.len() == 256,
            forall|k: int|
                0 <= k < 256 ==> same_id(#[trigger] v@[k], byte_id(all.subrange(0, i as int), k)),
        decreases tokens.keys@.len() - i,
    {
        proof {
            let next = all.subrange(0, i + 1);
            assert(next.drop_last() =~= all.subrange(0, i as int));
            assert(next.last() == tokens.keys@[i as int]@);
        }
        let ghost prior = v@;
        match parse_byte_token(tokens.keys[i].as_slice()) {
            Some(at) => {
                v.set(at as usize, Some(i));
            },
            None => {},
        }
        proof {
            assert forall|k: int| 0 <= k < 256 implies same_id(
                #[trigger] v@[k],
                byte_id(all.subrange(0, i + 1), k),
            ) by {
                assert(same_id(prior[k], byte_id(all.subrange(0, i as int), k)));
            }
        }
        i = i + 1;
    }
    assert(all.subrange(0, all.len() as int) =~= all);
    v
}

/// The number of a special token.
fn special_exec(l: &Listing<'_>, key: &str) -> (r: Option<usize>)
    requires
        l.wf(),
    ensures
        same_id(r, special_id(l@, key@)),
{
    match l.metadata.get(key) {
        Some(v) => match v.as_usize() {
            Some(n) => Some((n as u64 % 0x1_0000_0000) as usize),
            None => None,
        },
        None => None,
    }
}

impl GgufTokenizer {
    /// The parts go together.
    pub open spec fn wf(self) -> bool {
        &&& self.tokens.wf()
        &&& self.merges.wf()
        &&& self.max_token_len == longest_len(self.tokens@)
        &&& self.byte_ids@.len() == 256
        &&& forall|b: int|
            0 <= b < 256 ==> same_id(#[trigger] self.byte_ids@[b], byte_id(self.tokens@, b))
        &&& is_encoder(self.byte_encoder@)
        &&& is_decoder(self.byte_decoder@)
    }

    /// The file names a family and holds tokens.
    pub open spec fn is_given(d: Directory) -> bool {
        &&& d.text_of("tokenizer.ggml.model"@) is Some
        &&& family_named(d.text_of("tokenizer.ggml.model"@)->0) is Some
        &&& list_of(d, "tokenizer.ggml.tokens"@) is Some
        &&& list_of(d, "tokenizer.ggml.tokens"@)->0.len() > 0
    }

    /// The tokenizer is that of the file.
    pub open spec fn is_of(self, d: Directory) -> bool {
        &&& Some(self.family) == family_named(d.text_of("tokenizer.ggml.model"@)->0)
        &&& self.tokens@ == list_of(d, "tokenizer.ggml.tokens"@)->0
        &&& self.merges@ == (match list_of(d, "tokenizer.ggml.merges"@) {
            Some(l) => merge_keys(l),
            None => Seq::empty(),
        })
        &&& same_id(self.bos_id, special_id(d, "tokenizer.ggml.bos_token_id"@))
        &&& same_id(self.eos_id, special_id(d, "tokenizer.ggml.eos_token_id"@))
    }

    /// The tokenizer of a file.
    pub fn from_gguf(g: &Gguf) -> (r: Result<Self>)
        requires
            g.wf(),
        ensures
            match r {
                Ok(t) => GgufTokenizer::is_given(g.dir()) && t.wf() && t.is_of(g.dir()),
                Err(e) => e is Format && !GgufTokenizer::is_given(g.dir()),
            },
    {
        GgufTokenizer::from_listing(&g.listing())
    }

    /// The tokenizer of a file whose tensor data need not be there.
    pub fn from_listing(l: &Listing<'_>) -> (r: Result<Self>)
        requires
            l.wf(),
        ensures
            match r {
                Ok(t) => GgufTokenizer::is_given(l@) && t.wf() && t.is_of(l@),
                Err(e) => e is Format && !GgufTokenizer::is_given(l@),
            },
    {
        let name: &str = match l.metadata.get("tokenizer.ggml.model") {
            Some(v) => match v.as_str() {
                Some(s) => s,
                None => return Err(format_error("GGUF has no tokenizer.ggml.model metadata")),
            },
            None => return Err(format_error("GGUF has no tokenizer.ggml.model metadata")),
        };
        let family: TokModel = if same_text(name, "gpt2") || same_text(name, "bpe") {
            TokModel::Bpe
        } else if same_text(name, "llama") || same_text(name, "spm") {
            TokModel::Spm
        } else {
            return Err(
                InferError::Format(
                    joined(
                        joined("unsupported GGUF tokenizer model '", name).as_str(),
                        "' (have: gpt2/bpe, llama/spm)",
                    ),
                ),
            );
        };
        let list: Vec<Vec<char>> = match string_array(l, "tokenizer.ggml.tokens") {
            Some(l) => l,
            None => return Err(format_error("GGUF missing tokenizer.ggml.tokens")),
        };
        if list.len() == 0 {
            return Err(format_error("GGUF tokenizer.ggml.tokens is empty"));
        }
        let n: usize = list.len();
        let mut tokens: TextIndex = TextIndex::new(n);
        let ghost all = texts_of(list@);
        let mut i: usize = 0;
        assert(tokens@ =~= all.subrange(0, 0));
        while i < n
            invariant
                i <= n,
                n == list@.len(),
                all == texts_of(list@),
                tokens.wf(),
                tokens@ == all.subrange(0, i as int),
            decreases n - i,
        {
            let t: Vec<char> = slice_of(list[i].as_slice(), 0, list[i].len());
            proof {
                assert(t@ =~= all[i as int]);
                assert(all.subrange(0, i + 1) =~= all.subrange(0, i as int).push(all[i as int]));
            }
            tokens.push(t);
            i = i + 1;
        }
        assert(all.subrange(0, n as int) =~= all);
        let lines: Vec<Vec<char>> = match string_array(l, "tokenizer.ggml.merges") {
            Some(l) => l,
            None => {
                let none: Vec<Vec<char>> = Vec::new();
                assert(texts_of(none@) =~= Seq::<Seq<char>>::empty());
                none
            },
        };
        let merges: TextIndex = merges_exec(lines);
        let max_token_len: usize = longest_exec(&tokens);
        let byte_ids: Vec<Option<usize>> = byte_ids_exec(&tokens);
        let bos_id: Option<usize> = special_exec(l, "tokenizer.ggml.bos_token_id");
        let eos_id: Option<usize> = special_exec(l, "tokenizer.ggml.eos_token_id");
        let (byte_encoder, byte_decoder) = gpt2_byte_tables();
        Ok(
            GgufTokenizer {
                family,
                tokens,
                merges,
                max_token_len,
                byte_ids,
                byte_encoder,
                byte_decoder,
                bos_id,
                eos_id,
            },
        )
    }

    /// The family.
    pub fn model(&self) -> (m: TokModel)
        ensures
            m == self.family,
    {
        self.family
    }

    /// The number of tokens.
    pub fn vocab_size(&self) -> (n: usize)
        ensures
            n == self.tokens@.len(),
    {
        self.tokens.keys.len()
    }

    /// The token that begins a text.
    pub fn bos(&self) -> (r: Option<usize>)
        ensures
            r == self.bos_id,
    {
        self.bos_id
    }

    /// The token that ends a text.
    pub fn eos(&self) -> (r: Option<usize>)
        ensures
            r == self.eos_id,
    {
        self.eos_id
    }
}

} // verus!
