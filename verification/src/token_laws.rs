//! Which tokens a text is encoded to: the merged pieces of its chunks, or the longest
//! tokens from left to right.
use crate::gguf_codec::{
    bpe_ids, byte_pieces, fallback_ids, longest_match, merged, normalized, pieces_ids,
    spm_ids, window_end,
};
use crate::gguf_tokenizer::{
    chunk_end, chunks_from, chunks_of, goes_on, kind_of, kinds_of, longest_len, run_end,
    CharKind, GgufTokenizer, SPM_SPACE,
};
use crate::merge_order::lemma_first;
use crate::text_index::first_at;
use vstd::prelude::*;
use vstd::utf8::encode_utf8;

verus! {

/// Token `id` is the first in the list with this text.
pub open spec fn is_first_token(tokens: Seq<Seq<char>>, text: Seq<char>, id: int) -> bool {
    &&& 0 <= id < tokens.len()
    &&& tokens[id] == text
    &&& forall|t: int| 0 <= t < id ==> #[trigger] tokens[t] != text
}

/// Some token has this text.
pub open spec fn is_token(tokens: Seq<Seq<char>>, text: Seq<char>) -> bool {
    exists|id: int| 0 <= id < tokens.len() && #[trigger] tokens[id] == text
}

/// The first place of a text.
proof fn lemma_first_token(tokens: Seq<Seq<char>>, text: Seq<char>)
    ensures
        first_at(tokens, text) is Some <==> is_token(tokens, text),
        first_at(tokens, text) is Some ==> is_first_token(tokens, text, first_at(tokens, text)->0),
{
    lemma_first(tokens, text);
}

// ---------------------------------------------------------------------------
// Longest matches
// ---------------------------------------------------------------------------

/// No token is longer than the longest.
proof fn lemma_longest(tokens: Seq<Seq<char>>, id: int)
    requires
        0 <= id < tokens.len(),
    ensures
        tokens[id].len() <= longest_len(tokens),
    decreases tokens.len(),
{
    let init = tokens.drop_last();
    if id < init.len() {
        lemma_longest(init, id);
        assert(init[id] == tokens[id]);
    }
}

/// A match is a token, and no end behind it, up to `j`, gives one.
proof fn lemma_match(tokens: Seq<Seq<char>>, s: Seq<char>, i: int, j: int)
    ensures
        match longest_match(tokens, s, i, j) {
            Some(e) => {
                &&& i < e <= j
                &&& is_token(tokens, s.subrange(i, e))
                &&& forall|k: int| e < k <= j ==> !is_token(tokens, #[trigger] s.subrange(i, k))
            },
            None => forall|k: int| i < k <= j ==> !is_token(tokens, #[trigger] s.subrange(i, k)),
        },
    decreases j - i,
{
    if j > i {
        lemma_first_token(tokens, s.subrange(i, j));
        if first_at(tokens, s.subrange(i, j)) is None {
            lemma_match(tokens, s, i, j - 1);
        }
    }
}

/// The text from `i` to `e` is the longest token that the text has there.
pub open spec fn is_longest_token(tokens: Seq<Seq<char>>, s: Seq<char>, i: int, e: int) -> bool {
    &&& i < e <= s.len()
    &&& is_token(tokens, s.subrange(i, e))
    &&& forall|k: int| e < k <= s.len() ==> !is_token(tokens, #[trigger] s.subrange(i, k))
}

/// What matches within the window is what matches at all.
proof fn lemma_window(tokens: Seq<Seq<char>>, s: Seq<char>, i: int)
    requires
        0 <= i < s.len(),
    ensures
        match longest_match(tokens, s, i, window_end(tokens, s, i)) {
            Some(e) => is_longest_token(tokens, s, i, e),
            None => forall|k: int| i < k <= s.len() ==> !is_token(tokens, #[trigger] s.subrange(i, k)),
        },
{
    let w = window_end(tokens, s, i);
    lemma_match(tokens, s, i, w);
    assert forall|k: int| w < k <= s.len() implies !is_token(tokens, #[trigger] s.subrange(i, k)) by {
        if is_token(tokens, s.subrange(i, k)) {
            let id = choose|id: int| 0 <= id < tokens.len() && #[trigger] tokens[id] == s.subrange(i, k);
            lemma_longest(tokens, id);
        }
    }
}

/// Where the text has a token, the longest one is taken, and encoding goes on behind
/// it.
pub proof fn the_longest_token_is_taken(tokens: Seq<Seq<char>>, s: Seq<char>, i: int, e: int, id: int)
    requires
        0 <= i < s.len(),
        is_longest_token(tokens, s, i, e),
        is_first_token(tokens, s.subrange(i, e), id),
    ensures
        spm_ids(tokens, s, i) == seq![id] + spm_ids(tokens, s, e),
{
    lemma_window(tokens, s, i);
    lemma_first_token(tokens, s.subrange(i, e));
    match longest_match(tokens, s, i, window_end(tokens, s, i)) {
        Some(k) => {
            if k < e {
                assert(!is_token(tokens, s.subrange(i, e)));
            } else if e < k {
                assert(!is_token(tokens, s.subrange(i, k)));
            }
            let first = first_at(tokens, s.subrange(i, e))->0;
            if first < id {
                assert(tokens[first] != s.subrange(i, e));
            } else if id < first {
                assert(tokens[id] != s.subrange(i, e));
            }
        },
        None => {
            assert(!is_token(tokens, s.subrange(i, e)));
        },
    }
}

/// Where the text has no token, the bytes of the character are taken, and encoding
/// goes on behind it.
pub proof fn bytes_are_taken_where_no_token_fits(tokens: Seq<Seq<char>>, s: Seq<char>, i: int)
    requires
        0 <= i < s.len(),
        forall|k: int| i < k <= s.len() ==> !is_token(tokens, #[trigger] s.subrange(i, k)),
    ensures
        spm_ids(tokens, s, i) == fallback_ids(tokens, encode_utf8(seq![s[i]])) + spm_ids(
            tokens,
            s,
            i + 1,
        ),
{
    lemma_window(tokens, s, i);
    match longest_match(tokens, s, i, window_end(tokens, s, i)) {
        Some(k) => {
            assert(is_token(tokens, s.subrange(i, k)));
        },
        None => {},
    }
}

/// Text of one token with its space in front is encoded to that token.
pub proof fn whole_tokens_encode_to_themselves(t: GgufTokenizer, s: Seq<char>, id: int)
    requires
        t.family is Spm,
        is_first_token(t.tokens@, seq![SPM_SPACE] + s, id),
        !s.contains(' '),
    ensures
        t.encoded(s) == seq![id],
{
    let n = normalized(s);
    assert(n =~= seq![SPM_SPACE] + s) by {
        assert forall|k: int| 0 <= k < s.len() implies n[k + 1] == s[k] by {
            assert(s.contains(s[k]));
        }
    }
    assert(n.subrange(0, n.len() as int) =~= n);
    assert(t.tokens@[id] == n);
    assert(is_longest_token(t.tokens@, n, 0, n.len() as int));
    the_longest_token_is_taken(t.tokens@, n, 0, n.len() as int, id);
    assert(spm_ids(t.tokens@, n, n.len() as int) =~= Seq::<int>::empty());
    assert(t.encoded(s) =~= seq![id]);
}

// ---------------------------------------------------------------------------
// Byte pairs
// ---------------------------------------------------------------------------

/// The merged pieces of chunks, one behind the other.
pub open spec fn pieces_of(merges: Seq<Seq<char>>, chunks: Seq<Seq<char>>) -> Seq<Seq<char>>
    decreases chunks.len(),
{
    if chunks.len() == 0 {
        Seq::empty()
    } else {
        pieces_of(merges, chunks.drop_last()) + merged(
            merges,
            byte_pieces(encode_utf8(chunks.last())),
        )
    }
}

/// Numbers are those of the first tokens with these texts.
pub open spec fn are_tokens(tokens: Seq<Seq<char>>, pieces: Seq<Seq<char>>, ids: Seq<int>) -> bool {
    &&& ids.len() == pieces.len()
    &&& forall|k: int| 0 <= k < ids.len() ==> is_first_token(tokens, pieces[k], #[trigger] ids[k])
}

proof fn lemma_pieces(tokens: Seq<Seq<char>>, p: Seq<Seq<char>>)
    requires
        forall|k: int| 0 <= k < p.len() ==> is_token(tokens, #[trigger] p[k]),
    ensures
        are_tokens(tokens, p, pieces_ids(tokens, p)),
    decreases p.len(),
{
    if p.len() > 0 {
        let init = p.drop_last();
        assert forall|k: int| 0 <= k < init.len() implies is_token(tokens, #[trigger] init[k]) by {
            assert(init[k] == p[k]);
        }
        lemma_pieces(tokens, init);
        assert(is_token(tokens, p[p.len() - 1]));
        lemma_first_token(tokens, p.last());
        let ids = pieces_ids(tokens, p);
        let before = pieces_ids(tokens, init);
        assert forall|k: int| 0 <= k < ids.len() implies is_first_token(
            tokens,
            p[k],
            #[trigger] ids[k],
        ) by {
            if k < before.len() {
                assert(ids[k] == before[k]);
                assert(init[k] == p[k]);
            }
        }
    }
}

proof fn lemma_chunks(tokens: Seq<Seq<char>>, merges: Seq<Seq<char>>, chunks: Seq<Seq<char>>)
    requires
        forall|k: int|
            0 <= k < pieces_of(merges, chunks).len() ==> is_token(
                tokens,
                #[trigger] pieces_of(merges, chunks)[k],
            ),
    ensures
        are_tokens(tokens, pieces_of(merges, chunks), bpe_ids(tokens, merges, chunks)),
    decreases chunks.len(),
{
    if chunks.len() > 0 {
        let init = chunks.drop_last();
        let all = pieces_of(merges, chunks);
        let before = pieces_of(merges, init);
        let p = merged(merges, byte_pieces(encode_utf8(chunks.last())));
        assert forall|k: int| 0 <= k < before.len() implies is_token(tokens, #[trigger] before[k]) by {
            assert(all[k] == before[k]);
        }
        assert forall|k: int| 0 <= k < p.len() implies is_token(tokens, #[trigger] p[k]) by {
            assert(all[before.len() + k] == p[k]);
        }
        lemma_chunks(tokens, merges, init);
        lemma_pieces(tokens, p);
        let ids = bpe_ids(tokens, merges, chunks);
        let front = bpe_ids(tokens, merges, init);
        let back = pieces_ids(tokens, p);
        assert forall|k: int| 0 <= k < ids.len() implies is_first_token(
            tokens,
            all[k],
            #[trigger] ids[k],
        ) by {
            if k < front.len() {
                assert(ids[k] == front[k]);
            } else {
                assert(ids[k] == back[k - front.len()]);
            }
        }
    }
}

/// Byte-pair encoding gives the tokens of the merged pieces of the chunks of a text, one
/// for each piece, wherever all pieces are tokens.
pub proof fn texts_encode_to_their_merged_pieces(t: GgufTokenizer, s: Seq<char>)
    requires
        t.family is Bpe,
        forall|k: int|
            0 <= k < pieces_of(t.merges@, chunks_of(s)).len() ==> is_token(
                t.tokens@,
                #[trigger] pieces_of(t.merges@, chunks_of(s))[k],
            ),
    ensures
        are_tokens(t.tokens@, pieces_of(t.merges@, chunks_of(s)), t.encoded(s)),
{
    lemma_chunks(t.tokens@, t.merges@, chunks_of(s));
}

// ---------------------------------------------------------------------------
// Chunks
// ---------------------------------------------------------------------------

/// A chunk is a run of characters of one kind, with a space in front where it has one.
pub open spec fn is_chunk(c: Seq<char>) -> bool {
    &&& c.len() > 0
    &&& c.len() > 1 ==> {
        let from: int = if c[0] == ' ' {
            1
        } else {
            0
        };
        forall|k: int| from <= k < c.len() ==> goes_on(kind_of(c[from]), kind_of(#[trigger] c[k]))
    }
}

proof fn lemma_run(kinds: Seq<CharKind>, first: CharKind, i: int)
    requires
        0 <= i <= kinds.len(),
    ensures
        i <= run_end(kinds, first, i) <= kinds.len(),
        forall|k: int|
            i <= k < run_end(kinds, first, i) ==> goes_on(first, #[trigger] kinds[k]),
        run_end(kinds, first, i) < kinds.len() ==> !goes_on(
            first,
            kinds[run_end(kinds, first, i)],
        ),
    decreases kinds.len() - i,
{
    if i < kinds.len() && goes_on(first, kinds[i]) {
        lemma_run(kinds, first, i + 1);
    }
}

proof fn lemma_chunk_runs(s: Seq<char>, i: int)
    requires
        0 <= i <= s.len(),
    ensures
        forall|k: int|
            0 <= k < chunks_from(s, kinds_of(s), i).len() ==> is_chunk(
                #[trigger] chunks_from(s, kinds_of(s), i)[k],
            ),
    decreases s.len() - i,
{
    let kinds = kinds_of(s);
    if i < s.len() {
        let e = chunk_end(s, kinds, i);
        let j = if s[i] == ' ' {
            i + 1
        } else {
            i
        };
        if j < s.len() {
            lemma_run(kinds, kinds[j], j + 1);
        }
        assert(i < e <= s.len());
        lemma_chunk_runs(s, e);
        let c = s.subrange(i, e);
        assert(is_chunk(c)) by {
            if c.len() > 1 {
                let from: int = j - i;
                assert forall|k: int| from <= k < c.len() implies goes_on(
                    kind_of(c[from]),
                    kind_of(#[trigger] c[k]),
                ) by {
                    assert(kinds[i + k] == kind_of(c[k]));
                    assert(kinds[j] == kind_of(c[from]));
                }
            }
        }
        let rest = chunks_from(s, kinds, e);
        let all = chunks_from(s, kinds, i);
        assert(all =~= seq![c] + rest);
        assert forall|k: int| 0 <= k < all.len() implies is_chunk(#[trigger] all[k]) by {
            if k > 0 {
                assert(all[k] == rest[k - 1]);
            }
        }
    }
}

/// Every chunk of a text is a run of letters, of numbers, of white space or of anything
/// else, with a space in front where it has one.
pub proof fn chunks_are_runs_of_one_kind(s: Seq<char>, k: int)
    requires
        0 <= k < chunks_of(s).len(),
    ensures
        is_chunk(chunks_of(s)[k]),
{
    lemma_chunk_runs(s, 0);
}

} // verus!
