//! Text to tokens and back, by the tokenizer of a GGUF file.
use crate::gguf_read::{text_from, text_of_bytes};
use crate::gguf_tokenizer::{
    byte_char, byte_characters_are_a_bijection, byte_code, byte_id, byte_token, char_byte,
    chunk_end, chunks_exec, chunks_from, chunks_of, code_byte, is_decoder, is_encoder, kinds_of,
    lemma_chunk_end, longest_len, parse_byte_token, same_id, CharKind, GgufTokenizer,
    TokModel, SPM_SPACE,
};
use crate::bytes::push_bytes;
use crate::text::{chars_of, string_of};
use crate::text_index::{first_at, lemma_first_holds, texts_of, TextIndex};
use crate::textops::{push_chars, slice_of};
use vstd::prelude::*;
use vstd::utf8::{char_is_scalar, encode_utf8, encode_utf8_decode_utf8, encode_utf8_valid_utf8};

verus! {

/// Token numbers.
pub open spec fn ids_of(v: Seq<usize>) -> Seq<int> {
    Seq::new(v.len(), |i: int| v[i] as int)
}

// ---------------------------------------------------------------------------
// Byte-pair encoding
// ---------------------------------------------------------------------------

/// Two pieces with a NUL between them.
pub open spec fn pair_key(a: Seq<char>, b: Seq<char>) -> Seq<char> {
    a.push('\0') + b
}

/// The bytes of text as pieces of one character each.
pub open spec fn byte_pieces(bytes: Seq<u8>) -> Seq<Seq<char>> {
    Seq::new(bytes.len(), |i: int| seq![byte_char(bytes[i])])
}

/// The pair among the first `n` that merges first, the leftmost of those that
/// are listed at the same place.
pub open spec fn best_pair(merges: Seq<Seq<char>>, p: Seq<Seq<char>>, n: nat) -> Option<int>
    decreases n,
{
    if n == 0 {
        None
    } else {
        let before = best_pair(merges, p, (n - 1) as nat);
        let rank = first_at(merges, pair_key(p[n - 1], p[n as int]));
        if rank is Some && (before is None || rank->0 < first_at(
            merges,
            pair_key(p[before->0], p[before->0 + 1]),
        )->0) {
            Some(n - 1)
        } else {
            before
        }
    }
}

/// Pieces `i` and `i + 1` made one.
pub open spec fn joined_at(p: Seq<Seq<char>>, i: int) -> Seq<Seq<char>> {
    Seq::new(
        (p.len() - 1) as nat,
        |k: int|
            if k < i {
                p[k]
            } else if k == i {
                p[i] + p[i + 1]
            } else {
                p[k + 1]
            },
    )
}

/// The pieces after all merges: at each step the pair that is listed first, until
/// none is listed.
pub open spec fn merged(merges: Seq<Seq<char>>, p: Seq<Seq<char>>) -> Seq<Seq<char>>
    decreases p.len(),
{
    if p.len() <= 1 {
        p
    } else {
        match best_pair(merges, p, (p.len() - 1) as nat) {
            Some(i) => merged(merges, joined_at(p, i)),
            None => p,
        }
    }
}

/// The tokens of characters alone, where there are such.
pub open spec fn char_ids(tokens: Seq<Seq<char>>, s: Seq<char>) -> Seq<int>
    decreases s.len(),
{
    if s.len() == 0 {
        Seq::empty()
    } else {
        match first_at(tokens, seq![s.last()]) {
            Some(id) => char_ids(tokens, s.drop_last()).push(id),
            None => char_ids(tokens, s.drop_last()),
        }
    }
}

/// The token of a piece, or those of its characters.
pub open spec fn piece_ids(tokens: Seq<Seq<char>>, piece: Seq<char>) -> Seq<int> {
    match first_at(tokens, piece) {
        Some(id) => seq![id],
        None => char_ids(tokens, piece),
    }
}

/// The tokens of pieces.
pub open spec fn pieces_ids(tokens: Seq<Seq<char>>, p: Seq<Seq<char>>) -> Seq<int>
    decreases p.len(),
{
    if p.len() == 0 {
        Seq::empty()
    } else {
        pieces_ids(tokens, p.drop_last()) + piece_ids(tokens, p.last())
    }
}

/// The tokens of chunks of text.
pub open spec fn bpe_ids(
    tokens: Seq<Seq<char>>,
    merges: Seq<Seq<char>>,
    chunks: Seq<Seq<char>>,
) -> Seq<int>
    decreases chunks.len(),
{
    if chunks.len() == 0 {
        Seq::empty()
    } else {
        bpe_ids(tokens, merges, chunks.drop_last()) + pieces_ids(
            tokens,
            merged(merges, byte_pieces(encode_utf8(chunks.last()))),
        )
    }
}

/// The bytes that the characters of a token stand for; a character that stands
/// for none gives its own.
pub open spec fn bpe_bytes(tok: Seq<char>) -> Seq<u8>
    decreases tok.len(),
{
    if tok.len() == 0 {
        Seq::empty()
    } else {
        bpe_bytes(tok.drop_last()) + (match char_byte(tok.last()) {
            Some(b) => seq![b as u8],
            None => encode_utf8(seq![tok.last()]),
        })
    }
}

/// The bytes of tokens; numbers without a token give none.
pub open spec fn bpe_decoded(tokens: Seq<Seq<char>>, ids: Seq<int>) -> Seq<u8>
    decreases ids.len(),
{
    if ids.len() == 0 {
        Seq::empty()
    } else {
        bpe_decoded(tokens, ids.drop_last()) + (if 0 <= ids.last() < tokens.len() {
            bpe_bytes(tokens[ids.last()])
        } else {
            Seq::empty()
        })
    }
}

// ---------------------------------------------------------------------------
// Longest matches
// ---------------------------------------------------------------------------

/// A space as its mark.
pub open spec fn marked(c: char) -> char {
    if c == ' ' {
        SPM_SPACE
    } else {
        c
    }
}

/// Text behind a space, with spaces as marks.
pub open spec fn normalized(s: Seq<char>) -> Seq<char> {
    seq![SPM_SPACE] + s.map_values(|c: char| marked(c))
}

/// The end of the longest token that begins at `i` and ends at `j` or before.
pub open spec fn longest_match(tokens: Seq<Seq<char>>, s: Seq<char>, i: int, j: int) -> Option<int>
    decreases j - i,
{
    if j <= i {
        None
    } else if first_at(tokens, s.subrange(i, j)) is Some {
        Some(j)
    } else {
        longest_match(tokens, s, i, j - 1)
    }
}

/// The end of the window in which a match is looked for.
pub open spec fn window_end(tokens: Seq<Seq<char>>, s: Seq<char>, i: int) -> int {
    if i + longest_len(tokens) < s.len() {
        i + longest_len(tokens)
    } else {
        s.len() as int
    }
}

/// The tokens for bytes, where there are such.
pub open spec fn fallback_ids(tokens: Seq<Seq<char>>, bytes: Seq<u8>) -> Seq<int>
    decreases bytes.len(),
{
    if bytes.len() == 0 {
        Seq::empty()
    } else {
        match byte_id(tokens, bytes.last() as int) {
            Some(id) => fallback_ids(tokens, bytes.drop_last()).push(id),
            None => fallback_ids(tokens, bytes.drop_last()),
        }
    }
}

/// The tokens of text from `i` on: the longest that matches, or those for the
/// bytes of the character.
pub open spec fn spm_ids(tokens: Seq<Seq<char>>, s: Seq<char>, i: int) -> Seq<int>
    decreases s.len() - i,
{
    if 0 <= i < s.len() {
        match longest_match(tokens, s, i, window_end(tokens, s, i)) {
            Some(j) => if i < j <= s.len() {
                seq![first_at(tokens, s.subrange(i, j))->0] + spm_ids(tokens, s, j)
            } else {
                Seq::empty()
            },
            None => fallback_ids(tokens, encode_utf8(seq![s[i]])) + spm_ids(tokens, s, i + 1),
        }
    } else {
        Seq::empty()
    }
}

/// The bytes of a token: the byte that it stands for, or its characters with
/// marks as spaces.
pub open spec fn spm_bytes(tok: Seq<char>) -> Seq<u8> {
    match byte_token(tok) {
        Some(b) => seq![b as u8],
        None => encode_utf8(tok.map_values(|c: char| unmarked(c))),
    }
}

/// A mark as a space.
pub open spec fn unmarked(c: char) -> char {
    if c == SPM_SPACE {
        ' '
    } else {
        c
    }
}

/// The bytes of tokens; numbers without a token give none.
pub open spec fn spm_decoded(tokens: Seq<Seq<char>>, ids: Seq<int>) -> Seq<u8>
    decreases ids.len(),
{
    if ids.len() == 0 {
        Seq::empty()
    } else {
        spm_decoded(tokens, ids.drop_last()) + (if 0 <= ids.last() < tokens.len() {
            spm_bytes(tokens[ids.last()])
        } else {
            Seq::empty()
        })
    }
}

/// Text without the space that it begins with.
pub open spec fn without_space(s: Seq<char>) -> Seq<char> {
    if s.len() > 0 && s[0] == ' ' {
        s.drop_first()
    } else {
        s
    }
}

impl GgufTokenizer {
    /// The tokens of a text.
    pub open spec fn encoded(self, s: Seq<char>) -> Seq<int> {
        match self.family {
            TokModel::Bpe => bpe_ids(self.tokens@, self.merges@, chunks_of(s)),
            TokModel::Spm => spm_ids(self.tokens@, normalized(s), 0),
        }
    }

    /// The text of tokens.
    pub open spec fn decoded(self, ids: Seq<int>) -> Seq<char> {
        match self.family {
            TokModel::Bpe => text_from(bpe_decoded(self.tokens@, ids)),
            TokModel::Spm => without_space(text_from(spm_decoded(self.tokens@, ids))),
        }
    }
}

// ---------------------------------------------------------------------------
// Encoding and decoding
// ---------------------------------------------------------------------------

/// The bytes of characters.
fn utf8_of(s: &[char]) -> (v: Vec<u8>)
    ensures
        v@ == encode_utf8(s@),
{
    let t: String = string_of(s);
    let mut v: Vec<u8> = Vec::new();
    push_bytes(&mut v, t.as_str().as_bytes());
    assert(v@ =~= encode_utf8(s@));
    v
}

/// The place in the list of merges of a pair of pieces.
fn pair_rank(merges: &TextIndex, a: &[char], b: &[char]) -> (r: Option<usize>)
    requires
        merges.wf(),
    ensures
        match first_at(merges@, pair_key(a@, b@)) {
            Some(k) => r is Some && r->0 == k,
            None => r is None,
        },
{
    let mut key: Vec<char> = slice_of(a, 0, a.len());
    assert(key@ =~= a@);
    key.push('\0');
    push_chars(&mut key, b);
    merges.find(key.as_slice())
}

/// The pair that merges first.
fn best_exec(merges: &TextIndex, p: &Vec<Vec<char>>) -> (r: Option<usize>)
    requires
        merges.wf(),
        p@.len() > 1,
    ensures
        match best_pair(merges@, texts_of(p@), (p@.len() - 1) as nat) {
            Some(i) => r is Some && r->0 == i && 0 <= i < p@.len() - 1,
            None => r is None,
        },
{
    let ghost ps = texts_of(p@);
    let mut best: Option<(usize, usize)> = None;
    let mut i: usize = 0;
    while i < p.len() - 1
        invariant
            merges.wf(),
            p@.len() > 1,
            i <= p@.len() - 1,
            ps == texts_of(p@),
            match best_pair(merges@, ps, i as nat) {
                Some(k) => {
                    &&& best is Some && (best->0).0 == k && 0 <= k < i
                    &&& first_at(merges@, pair_key(ps[k], ps[k + 1])) == Some((best->0).1 as int)
                },
                None => best is None,
            },
        decreases p@.len() - i,
    {
        match pair_rank(merges, p[i].as_slice(), p[i + 1].as_slice()) {
            Some(r) => {
                let better: bool = match best {
                    None => true,
                    Some((_, br)) => r < br,
                };
                if better {
                    best = Some((i, r));
                }
            },
            None => {},
        }
        i = i + 1;
    }
    match best {
        Some((k, _)) => Some(k),
        None => None,
    }
}

/// Makes all merges.
fn merge_exec(merges: &TextIndex, start: Vec<Vec<char>>) -> (r: Vec<Vec<char>>)
    requires
        merges.wf(),
    ensures
        texts_of(r@) == merged(merges@, texts_of(start@)),
{
    let ghost goal = merged(merges@, texts_of(start@));
    let mut p: Vec<Vec<char>> = start;
    while p.len() > 1
        invariant
            merges.wf(),
            merged(merges@, texts_of(p@)) == goal,
            goal == merged(merges@, texts_of(start@)),
        decreases p@.len(),
    {
        match best_exec(merges, &p) {
            Some(i) => {
                let ghost before = texts_of(p@);
                let right: Vec<char> = p.remove(i + 1);
                let mut left: Vec<char> = slice_of(p[i].as_slice(), 0, p[i].len());
                assert(left@ =~= before[i as int]);
                assert(right@ =~= before[i + 1]);
                push_chars(&mut left, right.as_slice());
                p.set(i, left);
                proof {
                    assert(texts_of(p@) =~= joined_at(before, i as int));
                }
            },
            None => {
                return p;
            },
        }
    }
    p
}

/// Appends the tokens of a piece.
fn push_piece(tokens: &TextIndex, piece: &[char], out: &mut Vec<usize>)
    requires
        tokens.wf(),
    ensures
        ids_of(final(out)@) == ids_of(old(out)@) + piece_ids(tokens@, piece@),
{
    let ghost before = ids_of(out@);
    match tokens.find(piece) {
        Some(id) => {
            out.push(id);
            assert(ids_of(out@) =~= before + piece_ids(tokens@, piece@));
        },
        None => {
            let mut i: usize = 0;
            assert(before + char_ids(tokens@, piece@.subrange(0, 0)) =~= before);
            while i < piece.len()
                invariant
                    i <= piece@.len(),
                    tokens.wf(),
                    ids_of(out@) == before + char_ids(tokens@, piece@.subrange(0, i as int)),
                decreases piece@.len() - i,
            {
                let one: Vec<char> = slice_of(piece, i, i + 1);
                let ghost held = ids_of(out@);
                proof {
                    let next = piece@.subrange(0, i + 1);
                    assert(next.drop_last() =~= piece@.subrange(0, i as int));
                    assert(one@ =~= seq![next.last()]);
                }
                match tokens.find(one.as_slice()) {
                    Some(id) => {
                        out.push(id);
                        proof {
                            let part = char_ids(tokens@, piece@.subrange(0, i as int));
                            assert(ids_of(out@) =~= held.push(id as int));
                            assert((before + part).push(id as int) =~= before + part.push(
                                id as int,
                            ));
                        }
                    },
                    None => {},
                }
                i = i + 1;
            }
            assert(piece@.subrange(0, piece@.len() as int) =~= piece@);
        },
    }
}

impl GgufTokenizer {
    /// Text to tokens.
    pub fn encode(&self, text: &str) -> (r: Vec<usize>)
        requires
            self.wf(),
        ensures
            ids_of(r@) == self.encoded(text@),
    {
        match self.family {
            TokModel::Bpe => self.encode_bpe(text),
            TokModel::Spm => self.encode_spm(text),
        }
    }

    /// Tokens to text.
    pub fn decode(&self, ids: &[usize]) -> (s: String)
        requires
            self.wf(),
        ensures
            s@ == self.decoded(ids_of(ids@)),
    {
        match self.family {
            TokModel::Bpe => self.decode_bpe(ids),
            TokModel::Spm => self.decode_spm(ids),
        }
    }

    /// The pieces of a chunk before any merge.
    fn pieces_exec(&self, chunk: &[char]) -> (p: Vec<Vec<char>>)
        requires
            self.wf(),
        ensures
            texts_of(p@) == byte_pieces(encode_utf8(chunk@)),
    {
        let bytes: Vec<u8> = utf8_of(chunk);
        let mut p: Vec<Vec<char>> = Vec::new();
        let mut i: usize = 0;
        let ghost all = byte_pieces(bytes@);
        while i < bytes.len()
            invariant
                i <= bytes@.len(),
                is_encoder(self.byte_encoder@),
                all == byte_pieces(bytes@),
                texts_of(p@) == all.subrange(0, i as int),
            decreases bytes@.len() - i,
        {
            let mut one: Vec<char> = Vec::new();
            one.push(self.byte_encoder[bytes[i] as usize]);
            let ghost before = texts_of(p@);
            proof {
                assert(self.byte_encoder@[bytes@[i as int] as int] == byte_char(bytes@[i as int]));
                assert(one@ =~= seq![byte_char(bytes@[i as int])]);
            }
            p.push(one);
            proof {
                assert(texts_of(p@) =~= before.push(one@));
                assert(all.subrange(0, i + 1) =~= all.subrange(0, i as int).push(all[i as int]));
            }
            i = i + 1;
        }
        assert(all.subrange(0, all.len() as int) =~= all);
        p
    }

    fn encode_bpe(&self, text: &str) -> (r: Vec<usize>)
        requires
            self.wf(),
        ensures
            ids_of(r@) == bpe_ids(self.tokens@, self.merges@, chunks_of(text@)),
    {
        let s: Vec<char> = chars_of(text);
        let chunks: Vec<Vec<char>> = chunks_exec(s.as_slice());
        let ghost all = texts_of(chunks@);
        let mut out: Vec<usize> = Vec::new();
        let mut i: usize = 0;
        assert(ids_of(out@) =~= bpe_ids(self.tokens@, self.merges@, all.subrange(0, 0)));
        while i < chunks.len()
            invariant
                i <= chunks@.len(),
                self.wf(),
                all == texts_of(chunks@),
                ids_of(out@) == bpe_ids(self.tokens@, self.merges@, all.subrange(0, i as int)),
            decreases chunks@.len() - i,
        {
            let pieces: Vec<Vec<char>> = merge_exec(
                &self.merges,
                self.pieces_exec(chunks[i].as_slice()),
            );
            let ghost before = ids_of(out@);
            let ghost ps = texts_of(pieces@);
            proof {
                let next = all.subrange(0, i + 1);
                assert(next.drop_last() =~= all.subrange(0, i as int));
                assert(next.last() == chunks@[i as int]@);
                assert(before + pieces_ids(self.tokens@, ps.subrange(0, 0)) =~= before);
            }
            let mut k: usize = 0;
            while k < pieces.len()
                invariant
                    k <= pieces@.len(),
                    self.wf(),
                    ps == texts_of(pieces@),
                    ids_of(out@) == before + pieces_ids(self.tokens@, ps.subrange(0, k as int)),
                decreases pieces@.len() - k,
            {
                push_piece(&self.tokens, pieces[k].as_slice(), &mut out);
                proof {
                    let next = ps.subrange(0, k + 1);
                    assert(next.drop_last() =~= ps.subrange(0, k as int));
                    assert(next.last() == pieces@[k as int]@);
                    assert(ids_of(out@) =~= before + pieces_ids(self.tokens@, next));
                }
                k = k + 1;
            }
            assert(ps.subrange(0, ps.len() as int) =~= ps);
            i = i + 1;
        }
        assert(all.subrange(0, all.len() as int) =~= all);
        out
    }

    fn decode_bpe(&self, ids: &[usize]) -> (s: String)
        requires
            self.wf(),
        ensures
            s@ == text_from(bpe_decoded(self.tokens@, ids_of(ids@))),
    {
        let ghost all = ids_of(ids@);
        let mut bytes: Vec<u8> = Vec::new();
        let mut i: usize = 0;
        assert(bytes@ =~= bpe_decoded(self.tokens@, all.subrange(0, 0)));
        while i < ids.len()
            invariant
                i <= ids@.len(),
                self.wf(),
                all == ids_of(ids@),
                bytes@ == bpe_decoded(self.tokens@, all.subrange(0, i as int)),
            decreases ids@.len() - i,
        {
            let id: usize = ids[i];
            let ghost before = bytes@;
            proof {
                let next = all.subrange(0, i + 1);
                assert(next.drop_last() =~= all.subrange(0, i as int));
                assert(next.last() == id);
            }
            if id < self.tokens.keys.len() {
                let tok: &Vec<char> = &self.tokens.keys[id];
                assert(self.tokens@[id as int] == tok@);
                let mut k: usize = 0;
                assert(before + bpe_bytes(tok@.subrange(0, 0)) =~= before);
                while k < tok.len()
                    invariant
                        k <= tok@.len(),
                        is_decoder(self.byte_decoder@),
                        bytes@ == before + bpe_bytes(tok@.subrange(0, k as int)),
                    decreases tok@.len() - k,
                {
                    let c: char = tok[k];
                    let ghost held = bytes@;
                    proof {
                        let next = tok@.subrange(0, k + 1);
                        assert(next.drop_last() =~= tok@.subrange(0, k as int));
                        assert(next.last() == c);
                        char_is_scalar(c);
                    }
                    let code: u32 = c as u32;
                    let found: Option<u8> = if code < 324 {
                        self.byte_decoder[code as usize]
                    } else {
                        None
                    };
                    proof {
                        if code < 324 {
                            assert(self.byte_decoder@[code as int] == found);
                        }
                    }
                    match found {
                        Some(b) => {
                            bytes.push(b);
                            assert(bytes@ =~= held + seq![b]);
                        },
                        None => {
                            let one: Vec<char> = slice_of(tok.as_slice(), k, k + 1);
                            assert(one@ =~= seq![c]);
                            let own: Vec<u8> = utf8_of(one.as_slice());
                            push_bytes(&mut bytes, own.as_slice());
                        },
                    }
                    proof {
                        assert(bytes@ =~= before + bpe_bytes(tok@.subrange(0, k + 1)));
                    }
                    k = k + 1;
                }
                assert(tok@.subrange(0, tok@.len() as int) =~= tok@);
            } else {
                assert(bytes@ =~= before + Seq::<u8>::empty());
            }
            i = i + 1;
        }
        assert(all.subrange(0, all.len() as int) =~= all);
        text_of_bytes(bytes.as_slice())
    }

    /// The text behind a space, with spaces as marks.
    fn normalized_exec(text: &str) -> (v: Vec<char>)
        ensures
            v@ == normalized(text@),
    {
        let s: Vec<char> = chars_of(text);
        let mut v: Vec<char> = Vec::new();
        v.push(SPM_SPACE);
        let mut i: usize = 0;
        assert(v@ =~= normalized(text@).subrange(0, 1));
        while i < s.len()
            invariant
                i <= s@.len(),
                s@ == text@,
                v@ == normalized(text@).subrange(0, i + 1),
            decreases s@.len() - i,
        {
            v.push(
                if s[i] == ' ' {
                    SPM_SPACE
                } else {
                    s[i]
                },
            );
            proof {
                let all = normalized(text@);
                assert(all.subrange(0, i + 2) =~= all.subrange(0, i + 1).push(all[i + 1]));
            }
            i = i + 1;
        }
        assert(v@ =~= normalized(text@));
        v
    }

    fn encode_spm(&self, text: &str) -> (r: Vec<usize>)
        requires
            self.wf(),
        ensures
            ids_of(r@) == spm_ids(self.tokens@, normalized(text@), 0),
    {
        let s: Vec<char> = GgufTokenizer::normalized_exec(text);
        let n: usize = s.len();
        let ghost goal = spm_ids(self.tokens@, s@, 0);
        let mut out: Vec<usize> = Vec::new();
        let mut i: usize = 0;
        assert(ids_of(out@) + goal =~= goal);
        while i < n
            invariant
                i <= n,
                n == s@.len(),
                self.wf(),
                goal == ids_of(out@) + spm_ids(self.tokens@, s@, i as int),
            decreases n - i,
        {
            let ghost before = ids_of(out@);
            let mut j: usize = if self.max_token_len < n - i {
                i + self.max_token_len
            } else {
                n
            };
            let ghost found = longest_match(
                self.tokens@,
                s@,
                i as int,
                window_end(self.tokens@, s@, i as int),
            );
            let mut hit: Option<usize> = None;
            while j > i && hit.is_none()
                invariant
                    i < n,
                    i <= j <= n,
                    n == s@.len(),
                    self.wf(),
                    match hit {
                        Some(id) => found == Some(j as int) && j > i && first_at(
                            self.tokens@,
                            s@.subrange(i as int, j as int),
                        ) == Some(id as int),
                        None => found == longest_match(self.tokens@, s@, i as int, j as int),
                    },
                decreases j - i, if hit is None { 1int } else { 0int },
            {
                let cand: Vec<char> = slice_of(s.as_slice(), i, j);
                hit = self.tokens.find(cand.as_slice());
                if hit.is_none() {
                    j = j - 1;
                }
            }
            match hit {
                Some(id) => {
                    out.push(id);
                    proof {
                        assert(ids_of(out@) =~= before.push(id as int));
                        assert(ids_of(out@) + spm_ids(self.tokens@, s@, j as int) =~= before + (seq![
                            id as int,
                        ] + spm_ids(self.tokens@, s@, j as int)));
                    }
                    i = j;
                },
                None => {
                    let one: Vec<char> = slice_of(s.as_slice(), i, i + 1);
                    assert(one@ =~= seq![s@[i as int]]);
                    let bytes: Vec<u8> = utf8_of(one.as_slice());
                    self.push_fallback(bytes.as_slice(), &mut out);
                    proof {
                        let back = fallback_ids(self.tokens@, bytes@);
                        let rest = spm_ids(self.tokens@, s@, i + 1);
                        assert((before + back) + rest =~= before + (back + rest));
                    }
                    i = i + 1;
                },
            }
        }
        assert(ids_of(out@) + spm_ids(self.tokens@, s@, n as int) =~= ids_of(out@));
        out
    }

    /// Appends the tokens for bytes.
    fn push_fallback(&self, bytes: &[u8], out: &mut Vec<usize>)
        requires
            self.wf(),
        ensures
            ids_of(final(out)@) == ids_of(old(out)@) + fallback_ids(self.tokens@, bytes@),
    {
        let ghost before = ids_of(out@);
        let mut i: usize = 0;
        assert(before + fallback_ids(self.tokens@, bytes@.subrange(0, 0)) =~= before);
        while i < bytes.len()
            invariant
                i <= bytes@.len(),
                self.wf(),
                ids_of(out@) == before + fallback_ids(self.tokens@, bytes@.subrange(0, i as int)),
            decreases bytes@.len() - i,
        {
            proof {
                let next = bytes@.subrange(0, i + 1);
                assert(next.drop_last() =~= bytes@.subrange(0, i as int));
                assert(next.last() == bytes@[i as int]);
                assert(same_id(
                    self.byte_ids@[bytes@[i as int] as int],
                    byte_id(self.tokens@, bytes@[i as int] as int),
                ));
            }
            let ghost held = ids_of(out@);
            match self.byte_ids[bytes[i] as usize] {
                Some(id) => {
                    out.push(id);
                    proof {
                        let part = fallback_ids(self.tokens@, bytes@.subrange(0, i as int));
                        assert(ids_of(out@) =~= held.push(id as int));
                        assert((before + part).push(id as int) =~= before + part.push(id as int));
                    }
                },
                None => {},
            }
            i = i + 1;
        }
        assert(bytes@.subrange(0, bytes@.len() as int) =~= bytes@);
    }

    fn decode_spm(&self, ids: &[usize]) -> (s: String)
        requires
            self.wf(),
        ensures
            s@ == without_space(text_from(spm_decoded(self.tokens@, ids_of(ids@)))),
    {
        let ghost all = ids_of(ids@);
        let mut bytes: Vec<u8> = Vec::new();
        let mut i: usize = 0;
        assert(bytes@ =~= spm_decoded(self.tokens@, all.subrange(0, 0)));
        while i < ids.len()
            invariant
                i <= ids@.len(),
                self.wf(),
                all == ids_of(ids@),
                bytes@ == spm_decoded(self.tokens@, all.subrange(0, i as int)),
            decreases ids@.len() - i,
        {
            let id: usize = ids[i];
            let ghost before = bytes@;
            proof {
                let next = all.subrange(0, i + 1);
                assert(next.drop_last() =~= all.subrange(0, i as int));
                assert(next.last() == id);
            }
            if id < self.tokens.keys.len() {
                let tok: &Vec<char> = &self.tokens.keys[id];
                assert(self.tokens@[id as int] == tok@);
                match parse_byte_token(tok.as_slice()) {
                    Some(b) => {
                        bytes.push(b);
                        assert(bytes@ =~= before + spm_bytes(tok@));
                    },
                    None => {
                        let plain: Vec<char> = unmarked_exec(tok.as_slice());
                        let part: Vec<u8> = utf8_of(plain.as_slice());
                        push_bytes(&mut bytes, part.as_slice());
                    },
                }
            } else {
                assert(bytes@ =~= before + Seq::<u8>::empty());
            }
            i = i + 1;
        }
        assert(all.subrange(0, all.len() as int) =~= all);
        let s: String = text_of_bytes(bytes.as_slice());
        let cs: Vec<char> = chars_of(s.as_str());
        if cs.len() > 0 && cs[0] == ' ' {
            let rest: Vec<char> = slice_of(cs.as_slice(), 1, cs.len());
            assert(rest@ =~= s@.drop_first());
            return string_of(rest.as_slice());
        }
        s
    }
}

/// Characters with marks as spaces.
fn unmarked_exec(s: &[char]) -> (v: Vec<char>)
    ensures
        v@ == s@.map_values(|c: char| unmarked(c)),
{
    let mut v: Vec<char> = Vec::new();
    let mut i: usize = 0;
    while i < s.len()
        invariant
            i <= s@.len(),
            v@.len() == i,
            forall|k: int| 0 <= k < i ==> #[trigger] v@[k] == unmarked(s@[k]),
        decreases s@.len() - i,
    {
        v.push(
            if s[i] == SPM_SPACE {
                ' '
            } else {
                s[i]
            },
        );
        i = i + 1;
    }
    assert(v@ =~= s@.map_values(|c: char| unmarked(c)));
    v
}

// ---------------------------------------------------------------------------
// Decoding is the inverse of encoding
// ---------------------------------------------------------------------------

/// Texts, one behind the other.
pub open spec fn flat(p: Seq<Seq<char>>) -> Seq<char>
    decreases p.len(),
{
    if p.len() == 0 {
        Seq::empty()
    } else {
        flat(p.drop_last()) + p.last()
    }
}

/// Each character alone is a token.
pub open spec fn each_known(tokens: Seq<Seq<char>>, s: Seq<char>) -> bool {
    forall|k: int| 0 <= k < s.len() ==> first_at(tokens, seq![#[trigger] s[k]]) is Some
}

proof fn lemma_flat_front(a: Seq<char>, rest: Seq<Seq<char>>)
    ensures
        flat(seq![a] + rest) == a + flat(rest),
    decreases rest.len(),
{
    let all = seq![a] + rest;
    if rest.len() == 0 {
        assert(all.drop_last() =~= Seq::<Seq<char>>::empty());
        assert(all.last() == a);
        assert(flat(all.drop_last()) == Seq::<char>::empty());
        assert(flat(all) =~= a + flat(rest));
    } else {
        lemma_flat_front(a, rest.drop_last());
        assert(all.drop_last() =~= seq![a] + rest.drop_last());
        assert(all.last() == rest.last());
        assert(flat(all) =~= a + flat(rest));
    }
}

proof fn lemma_flat_joined(p: Seq<Seq<char>>, i: int)
    requires
        0 <= i < p.len() - 1,
    ensures
        flat(joined_at(p, i)) == flat(p),
    decreases p.len(),
{
    let q = joined_at(p, i);
    if i == p.len() - 2 {
        assert(q.drop_last() =~= p.drop_last().drop_last());
        assert(q.last() == p[i] + p[i + 1]);
        assert(p.drop_last().last() == p[i]);
        assert(p.last() == p[i + 1]);
        let base = flat(p.drop_last().drop_last());
        assert(flat(p.drop_last()) == base + p[i]);
        assert(flat(q) == base + (p[i] + p[i + 1]));
        assert(flat(q) =~= flat(p));
    } else {
        lemma_flat_joined(p.drop_last(), i);
        assert(q.drop_last() =~= joined_at(p.drop_last(), i));
        assert(q.last() == p.last());
    }
}

proof fn lemma_best_pair(merges: Seq<Seq<char>>, p: Seq<Seq<char>>, n: nat)
    ensures
        best_pair(merges, p, n) is Some ==> 0 <= best_pair(merges, p, n)->0 < n,
    decreases n,
{
    if n > 0 {
        lemma_best_pair(merges, p, (n - 1) as nat);
    }
}

proof fn lemma_flat_merged(merges: Seq<Seq<char>>, p: Seq<Seq<char>>)
    ensures
        flat(merged(merges, p)) == flat(p),
    decreases p.len(),
{
    if p.len() > 1 {
        lemma_best_pair(merges, p, (p.len() - 1) as nat);
        match best_pair(merges, p, (p.len() - 1) as nat) {
            Some(i) => {
                lemma_flat_joined(p, i);
                lemma_flat_merged(merges, joined_at(p, i));
            },
            None => {},
        }
    }
}

/// The characters that stand for bytes.
pub open spec fn chars_for(bytes: Seq<u8>) -> Seq<char> {
    bytes.map_values(|b: u8| byte_char(b))
}

proof fn lemma_flat_bytes(bytes: Seq<u8>)
    ensures
        flat(byte_pieces(bytes)) == chars_for(bytes),
    decreases bytes.len(),
{
    let p = byte_pieces(bytes);
    if bytes.len() > 0 {
        lemma_flat_bytes(bytes.drop_last());
        assert(p.drop_last() =~= byte_pieces(bytes.drop_last()));
        assert(flat(p) =~= chars_for(bytes));
    } else {
        assert(flat(p) =~= chars_for(bytes));
    }
}

proof fn lemma_bytes_back(bytes: Seq<u8>)
    ensures
        bpe_bytes(chars_for(bytes)) == bytes,
    decreases bytes.len(),
{
    let s = chars_for(bytes);
    if bytes.len() > 0 {
        lemma_bytes_back(bytes.drop_last());
        assert(s.drop_last() =~= chars_for(bytes.drop_last()));
        byte_characters_are_a_bijection();
        let b = bytes.last();
        assert(s.last() == byte_char(b));
        assert((byte_char(b) as u32) as int == byte_code(b as int));
        assert(code_byte(byte_code(b as int)) == Some(b as int));
        assert(bpe_bytes(s) =~= bytes);
    } else {
        assert(bpe_bytes(s) =~= bytes);
    }
}

proof fn lemma_bpe_bytes_add(a: Seq<char>, b: Seq<char>)
    ensures
        bpe_bytes(a + b) == bpe_bytes(a) + bpe_bytes(b),
    decreases b.len(),
{
    if b.len() > 0 {
        lemma_bpe_bytes_add(a, b.drop_last());
        assert((a + b).drop_last() =~= a + b.drop_last());
        assert((a + b).last() == b.last());
        assert(bpe_bytes(a + b) =~= bpe_bytes(a) + bpe_bytes(b));
    } else {
        assert(a + b =~= a);
        assert(bpe_bytes(a) + bpe_bytes(b) =~= bpe_bytes(a));
    }
}

proof fn lemma_bpe_decoded_add(tokens: Seq<Seq<char>>, a: Seq<int>, b: Seq<int>)
    ensures
        bpe_decoded(tokens, a + b) == bpe_decoded(tokens, a) + bpe_decoded(tokens, b),
    decreases b.len(),
{
    if b.len() > 0 {
        lemma_bpe_decoded_add(tokens, a, b.drop_last());
        assert((a + b).drop_last() =~= a + b.drop_last());
        assert((a + b).last() == b.last());
        assert(bpe_decoded(tokens, a + b) =~= bpe_decoded(tokens, a) + bpe_decoded(tokens, b));
    } else {
        assert(a + b =~= a);
        assert(bpe_decoded(tokens, a) + bpe_decoded(tokens, b) =~= bpe_decoded(tokens, a));
    }
}

proof fn lemma_bpe_decoded_one(tokens: Seq<Seq<char>>, id: int)
    requires
        0 <= id < tokens.len(),
    ensures
        bpe_decoded(tokens, seq![id]) == bpe_bytes(tokens[id]),
{
    let s = seq![id];
    assert(s.drop_last() =~= Seq::<int>::empty());
    assert(bpe_decoded(tokens, s.drop_last()) =~= Seq::<u8>::empty());
    assert(bpe_decoded(tokens, s) =~= bpe_bytes(tokens[id]));
}

proof fn lemma_char_ids(tokens: Seq<Seq<char>>, s: Seq<char>)
    requires
        each_known(tokens, s),
    ensures
        bpe_decoded(tokens, char_ids(tokens, s)) == bpe_bytes(s),
    decreases s.len(),
{
    if s.len() > 0 {
        let init = s.drop_last();
        assert forall|k: int| 0 <= k < init.len() implies first_at(
            tokens,
            seq![#[trigger] init[k]],
        ) is Some by {
            assert(init[k] == s[k]);
        }
        lemma_char_ids(tokens, init);
        let c = s.last();
        assert(c == s[s.len() - 1]);
        lemma_first_holds(tokens, seq![c]);
        let id = first_at(tokens, seq![c])->0;
        lemma_bpe_decoded_one(tokens, id);
        lemma_bpe_decoded_add(tokens, char_ids(tokens, init), seq![id]);
        assert(char_ids(tokens, s) =~= char_ids(tokens, init) + seq![id]);
        lemma_bpe_bytes_add(init, seq![c]);
        assert(init + seq![c] =~= s);
    }
}

proof fn lemma_piece_ids(tokens: Seq<Seq<char>>, piece: Seq<char>)
    requires
        each_known(tokens, piece),
    ensures
        bpe_decoded(tokens, piece_ids(tokens, piece)) == bpe_bytes(piece),
{
    lemma_first_holds(tokens, piece);
    match first_at(tokens, piece) {
        Some(id) => {
            lemma_bpe_decoded_one(tokens, id);
        },
        None => {
            lemma_char_ids(tokens, piece);
        },
    }
}

proof fn lemma_pieces_ids(tokens: Seq<Seq<char>>, p: Seq<Seq<char>>)
    requires
        each_known(tokens, flat(p)),
    ensures
        bpe_decoded(tokens, pieces_ids(tokens, p)) == bpe_bytes(flat(p)),
    decreases p.len(),
{
    if p.len() > 0 {
        let init = p.drop_last();
        let all = flat(p);
        assert forall|k: int| 0 <= k < flat(init).len() implies first_at(
            tokens,
            seq![#[trigger] flat(init)[k]],
        ) is Some by {
            assert(flat(init)[k] == all[k]);
        }
        assert forall|k: int| 0 <= k < p.last().len() implies first_at(
            tokens,
            seq![#[trigger] p.last()[k]],
        ) is Some by {
            assert(p.last()[k] == all[flat(init).len() + k]);
        }
        lemma_pieces_ids(tokens, init);
        lemma_piece_ids(tokens, p.last());
        lemma_bpe_decoded_add(tokens, pieces_ids(tokens, init), piece_ids(tokens, p.last()));
        lemma_bpe_bytes_add(flat(init), p.last());
    }
}

/// The bytes of two texts together are those of one and then the other.
pub proof fn lemma_encode_add(a: Seq<char>, b: Seq<char>)
    ensures
        encode_utf8(a + b) == encode_utf8(a) + encode_utf8(b),
    decreases a.len(),
{
    if a.len() > 0 {
        lemma_encode_add(a.drop_first(), b);
        assert((a + b).drop_first() =~= a.drop_first() + b);
        assert((a + b)[0] == a[0]);
        assert(encode_utf8(a + b) =~= encode_utf8(a) + encode_utf8(b));
    } else {
        assert(a + b =~= b);
        assert(encode_utf8(a) + encode_utf8(b) =~= encode_utf8(b));
    }
}

proof fn lemma_chunks_cover(s: Seq<char>, kinds: Seq<CharKind>, i: int)
    requires
        kinds.len() == s.len(),
        0 <= i <= s.len(),
    ensures
        flat(chunks_from(s, kinds, i)) == s.skip(i),
    decreases s.len() - i,
{
    if i < s.len() {
        lemma_chunk_end(s, kinds, i);
        let e = chunk_end(s, kinds, i);
        lemma_chunks_cover(s, kinds, e);
        lemma_flat_front(s.subrange(i, e), chunks_from(s, kinds, e));
        assert(s.subrange(i, e) + s.skip(e) =~= s.skip(i));
    } else {
        assert(s.skip(i) =~= Seq::<char>::empty());
    }
}

/// The bytes of a text, each as a token.
pub open spec fn bytes_known(tokens: Seq<Seq<char>>, bytes: Seq<u8>) -> bool {
    forall|k: int|
        0 <= k < bytes.len() ==> first_at(tokens, seq![byte_char(#[trigger] bytes[k])]) is Some
}

proof fn lemma_bpe_ids(tokens: Seq<Seq<char>>, merges: Seq<Seq<char>>, chunks: Seq<Seq<char>>)
    requires
        bytes_known(tokens, encode_utf8(flat(chunks))),
    ensures
        bpe_decoded(tokens, bpe_ids(tokens, merges, chunks)) == encode_utf8(flat(chunks)),
    decreases chunks.len(),
{
    if chunks.len() > 0 {
        let init = chunks.drop_last();
        let last = encode_utf8(chunks.last());
        let all = encode_utf8(flat(chunks));
        lemma_encode_add(flat(init), chunks.last());
        assert forall|k: int| 0 <= k < encode_utf8(flat(init)).len() implies first_at(
            tokens,
            seq![byte_char(#[trigger] encode_utf8(flat(init))[k])],
        ) is Some by {
            assert(encode_utf8(flat(init))[k] == all[k]);
        }
        lemma_bpe_ids(tokens, merges, init);
        let p = merged(merges, byte_pieces(last));
        lemma_flat_merged(merges, byte_pieces(last));
        lemma_flat_bytes(last);
        assert forall|k: int| 0 <= k < flat(p).len() implies first_at(
            tokens,
            seq![#[trigger] flat(p)[k]],
        ) is Some by {
            assert(flat(p)[k] == byte_char(last[k]));
            assert(last[k] == all[encode_utf8(flat(init)).len() + k]);
        }
        lemma_pieces_ids(tokens, p);
        lemma_bytes_back(last);
        lemma_bpe_decoded_add(tokens, bpe_ids(tokens, merges, init), pieces_ids(tokens, p));
    } else {
        assert(flat(chunks) =~= Seq::<char>::empty());
        assert(encode_utf8(flat(chunks)) =~= Seq::<u8>::empty());
    }
}

/// Byte-pair encoding loses nothing: decoding what was encoded gives the text
/// back, wherever the vocabulary has a token for each of its bytes.
pub proof fn byte_pairs_decode_back(t: GgufTokenizer, s: Seq<char>)
    requires
        t.family is Bpe,
        bytes_known(t.tokens@, encode_utf8(s)),
    ensures
        t.decoded(t.encoded(s)) == s,
{
    lemma_chunks_cover(s, kinds_of(s), 0);
    assert(s.skip(0) =~= s);
    lemma_bpe_ids(t.tokens@, t.merges@, chunks_of(s));
    encode_utf8_valid_utf8(s);
    encode_utf8_decode_utf8(s);
}

/// From `i` on, each match is a token of its characters, and each character that
/// has no match has tokens for its bytes and is no mark.
pub open spec fn is_covered(tokens: Seq<Seq<char>>, s: Seq<char>, i: int) -> bool
    decreases s.len() - i,
{
    if 0 <= i < s.len() {
        match longest_match(tokens, s, i, window_end(tokens, s, i)) {
            Some(j) => i < j <= s.len() && byte_token(s.subrange(i, j)) is None && is_covered(
                tokens,
                s,
                j,
            ),
            None => {
                &&& s[i] != SPM_SPACE
                &&& has_byte_tokens(tokens, encode_utf8(seq![s[i]]))
                &&& is_covered(tokens, s, i + 1)
            },
        }
    } else {
        true
    }
}

/// Each byte has a token.
pub open spec fn has_byte_tokens(tokens: Seq<Seq<char>>, bytes: Seq<u8>) -> bool {
    forall|k: int|
        0 <= k < bytes.len() ==> byte_id(tokens, (#[trigger] bytes[k]) as int) is Some
}

proof fn lemma_spm_decoded_add(tokens: Seq<Seq<char>>, a: Seq<int>, b: Seq<int>)
    ensures
        spm_decoded(tokens, a + b) == spm_decoded(tokens, a) + spm_decoded(tokens, b),
    decreases b.len(),
{
    if b.len() > 0 {
        lemma_spm_decoded_add(tokens, a, b.drop_last());
        assert((a + b).drop_last() =~= a + b.drop_last());
        assert((a + b).last() == b.last());
        assert(spm_decoded(tokens, a + b) =~= spm_decoded(tokens, a) + spm_decoded(tokens, b));
    } else {
        assert(a + b =~= a);
        assert(spm_decoded(tokens, a) + spm_decoded(tokens, b) =~= spm_decoded(tokens, a));
    }
}

proof fn lemma_spm_decoded_one(tokens: Seq<Seq<char>>, id: int)
    requires
        0 <= id < tokens.len(),
    ensures
        spm_decoded(tokens, seq![id]) == spm_bytes(tokens[id]),
{
    let s = seq![id];
    assert(s.drop_last() =~= Seq::<int>::empty());
    assert(spm_decoded(tokens, s.drop_last()) =~= Seq::<u8>::empty());
    assert(spm_decoded(tokens, s) =~= spm_bytes(tokens[id]));
}

proof fn lemma_byte_id(tokens: Seq<Seq<char>>, b: int)
    ensures
        byte_id(tokens, b) is Some ==> 0 <= byte_id(tokens, b)->0 < tokens.len() && byte_token(
            tokens[byte_id(tokens, b)->0],
        ) == Some(b),
    decreases tokens.len(),
{
    if tokens.len() > 0 {
        lemma_byte_id(tokens.drop_last(), b);
        let init = tokens.drop_last();
        if byte_token(tokens.last()) != Some(b) && byte_id(init, b) is Some {
            assert(init[byte_id(init, b)->0] == tokens[byte_id(init, b)->0]);
        }
    }
}

proof fn lemma_fallback(tokens: Seq<Seq<char>>, bytes: Seq<u8>)
    requires
        has_byte_tokens(tokens, bytes),
    ensures
        spm_decoded(tokens, fallback_ids(tokens, bytes)) == bytes,
    decreases bytes.len(),
{
    if bytes.len() > 0 {
        let init = bytes.drop_last();
        let b = bytes.last();
        assert forall|k: int| 0 <= k < init.len() implies byte_id(
            tokens,
            (#[trigger] init[k]) as int,
        ) is Some by {
            assert(init[k] == bytes[k]);
        }
        lemma_fallback(tokens, init);
        assert(b == bytes[bytes.len() - 1]);
        let id = byte_id(tokens, b as int)->0;
        lemma_byte_id(tokens, b as int);
        lemma_spm_decoded_one(tokens, id);
        lemma_spm_decoded_add(tokens, fallback_ids(tokens, init), seq![id]);
        assert(fallback_ids(tokens, bytes) =~= fallback_ids(tokens, init) + seq![id]);
        assert(init + seq![b] =~= bytes);
    } else {
        assert(bytes =~= Seq::<u8>::empty());
    }
}

/// Characters with marks as spaces.
pub open spec fn unmark(s: Seq<char>) -> Seq<char> {
    s.map_values(|c: char| unmarked(c))
}

proof fn lemma_longest_match(tokens: Seq<Seq<char>>, s: Seq<char>, i: int, j: int)
    ensures
        longest_match(tokens, s, i, j) is Some ==> first_at(
            tokens,
            s.subrange(i, longest_match(tokens, s, i, j)->0),
        ) is Some,
    decreases j - i,
{
    if j > i && first_at(tokens, s.subrange(i, j)) is None {
        lemma_longest_match(tokens, s, i, j - 1);
    }
}

proof fn lemma_spm_ids(tokens: Seq<Seq<char>>, s: Seq<char>, i: int)
    requires
        0 <= i <= s.len(),
        is_covered(tokens, s, i),
    ensures
        spm_decoded(tokens, spm_ids(tokens, s, i)) == encode_utf8(unmark(s.skip(i))),
    decreases s.len() - i,
{
    if i < s.len() {
        let w = window_end(tokens, s, i);
        lemma_longest_match(tokens, s, i, w);
        match longest_match(tokens, s, i, w) {
            Some(j) => {
                let tok = s.subrange(i, j);
                lemma_first_holds(tokens, tok);
                let id = first_at(tokens, tok)->0;
                lemma_spm_ids(tokens, s, j);
                lemma_spm_decoded_one(tokens, id);
                lemma_spm_decoded_add(tokens, seq![id], spm_ids(tokens, s, j));
                lemma_encode_add(unmark(tok), unmark(s.skip(j)));
                assert(unmark(tok) + unmark(s.skip(j)) =~= unmark(s.skip(i)));
            },
            None => {
                let c = seq![s[i]];
                lemma_spm_ids(tokens, s, i + 1);
                lemma_fallback(tokens, encode_utf8(c));
                lemma_spm_decoded_add(
                    tokens,
                    fallback_ids(tokens, encode_utf8(c)),
                    spm_ids(tokens, s, i + 1),
                );
                lemma_encode_add(unmark(c), unmark(s.skip(i + 1)));
                assert(unmark(c) =~= c);
                assert(unmark(c) + unmark(s.skip(i + 1)) =~= unmark(s.skip(i)));
            },
        }
    } else {
        assert(unmark(s.skip(i)) =~= Seq::<char>::empty());
        assert(encode_utf8(unmark(s.skip(i))) =~= Seq::<u8>::empty());
    }
}

/// Longest matches lose nothing: decoding what was encoded gives the text back,
/// if it holds no mark, and wherever its matches are no tokens for bytes and the
/// rest has such tokens.
pub proof fn longest_matches_decode_back(t: GgufTokenizer, s: Seq<char>)
    requires
        t.family is Spm,
        !s.contains(SPM_SPACE),
        is_covered(t.tokens@, normalized(s), 0),
    ensures
        t.decoded(t.encoded(s)) == s,
{
    let n = normalized(s);
    lemma_spm_ids(t.tokens@, n, 0);
    assert(n.skip(0) =~= n);
    let plain = seq![' '] + s;
    assert(unmark(n) =~= plain) by {
        assert forall|k: int| 0 <= k < n.len() implies #[trigger] unmark(n)[k] == plain[k] by {
            if k > 0 {
                assert(s[k - 1] != SPM_SPACE);
            }
        }
    }
    encode_utf8_valid_utf8(plain);
    encode_utf8_decode_utf8(plain);
    assert(plain.drop_first() =~= s);
}

} // verus!
