//! Metadata are read back from their JSON.
use crate::csv::{task_name, task_names_round_trip, TaskType};
use crate::decimal::{is_fixed, is_parse, Decimals};
use crate::float::F32;
use crate::gguf_tokenizer::strings_of;
use crate::metadata::{
    behind_bracket, bracket_parts, bracketed, bracketed_list, digits_value, entry_end, escaped,
    escaped_char, first_two, is_digit, json_task, needle, numbers_among, pair_read, parts_read,
    quoted, quoted_list, rd_names, rd_quoted, size_value, spans, spans_from, state_entry,
    text_value, unsigned_digits, value_at, ModelMetadata,
};
use crate::text::{dec, digit};
use crate::textops::{
    found_from, joined_by, joined_pieces_are_split, lemma_place, place_of, reads_at, shed_start,
    trim, trim_end, trim_start,
};
use vstd::arithmetic::power2::pow2;
use vstd::prelude::*;

verus! {

// ---------------------------------------------------------------------------
// Texts between quotes, and what stands between them
// ---------------------------------------------------------------------------

/// Texts between quotes, each with what follows it up to the next one.
spec fn laid(ts: Seq<(Seq<char>, Seq<char>)>) -> Seq<char>
    decreases ts.len(),
{
    if ts.len() == 0 {
        Seq::empty()
    } else {
        seq!['"'] + ts[0].0 + seq!['"'] + ts[0].1 + laid(ts.drop_first())
    }
}

/// Every quote in a text has a backslash before it.
spec fn is_shielded(t: Seq<char>) -> bool {
    forall|k: int| 0 <= k < t.len() && #[trigger] t[k] == '"' ==> k > 0 && t[k - 1] == '\\'
}

/// Quotes in a text have a backslash before them, what follows a text holds none,
/// and begins with something that no key begins with: with a colon only where the
/// text holds no quote.
spec fn is_fit(t: (Seq<char>, Seq<char>)) -> bool {
    &&& is_shielded(t.0)
    &&& t.0.contains('"') ==> t.1[0] != ':'
    &&& !t.1.contains('"')
    &&& t.1.len() > 0
    &&& (t.1[0] == ':' || t.1[0] == ',' || t.1[0] == ']' || t.1[0] == '}')
}

/// All texts are such.
spec fn is_tidy(ts: Seq<(Seq<char>, Seq<char>)>) -> bool {
    forall|i: int| 0 <= i < ts.len() ==> is_fit(#[trigger] ts[i])
}

/// A text that can be a key.
spec fn is_key(key: Seq<char>) -> bool {
    &&& key.len() > 0
    &&& !key.contains('"')
    &&& !key.contains('\\')
    &&& key[0] != ':'
    &&& key[0] != ','
    &&& key[0] != ']'
    &&& key[0] != '}'
}

/// The text is this key.
spec fn names(t: (Seq<char>, Seq<char>), key: Seq<char>) -> bool {
    t.0 == key && t.1[0] == ':'
}

/// The length of a text with its quotes and what follows it.
spec fn length(t: (Seq<char>, Seq<char>)) -> int {
    (t.0.len() + 2 + t.1.len()) as int
}

/// Where a key stands among the first text and what follows it, it is that text.
proof fn lemma_only_there(ts: Seq<(Seq<char>, Seq<char>)>, key: Seq<char>, p: int)
    requires
        ts.len() > 0,
        is_tidy(ts),
        is_key(key),
        0 <= p < length(ts[0]),
        reads_at(laid(ts), needle(key), p),
    ensures
        p == 0,
        names(ts[0], key),
{
    let s = laid(ts);
    let n = needle(key);
    let (t, g) = ts[0];
    let a = t.len() as int;
    let k = key.len() as int;
    assert(s[p] == n[0]) by {
        assert(s.subrange(p, p + n.len())[0] == s[p]);
    }
    assert(s[p] == '"');
    if p >= a + 2 {
        assert(s[p] == g[p - a - 2]);
        assert(g.contains('"'));
    }
    assert forall|i: int| 0 <= i < n.len() implies #[trigger] s[p + i] == n[i] by {
        assert(s.subrange(p, p + n.len())[i] == s[p + i]);
    }
    assert forall|i: int| 0 <= i < a implies s[i + 1] == #[trigger] t[i] by {}
    assert(s[a + 1] == '"');
    let e = p + k + 1;
    assert(s[p + (k + 1)] == n[k + 1]);
    assert(n[k + 1] == '"');
    assert(s[p + k] == n[k]);
    assert(n[k] == key[k - 1]);
    assert(key.contains(key[k - 1]));
    if p == a + 1 {
        assert(s[p + 1] == n[1]);
        assert(s[p + 1] == g[0]);
        assert(n[1] == key[0]);
    } else {
        if e <= a {
            assert(s[(e - 1) + 1] == t[e - 1]);
            assert(t[e - 1] == '"');
            assert(s[(e - 2) + 1] == t[e - 2]);
        } else if e > a + 1 {
            let i = a + 1 - p;
            assert(s[p + i] == n[i]);
            assert(n[i] == key[i - 1]);
            assert(key.contains(key[i - 1]));
        }
        assert(e == a + 1);
        assert(s[p + (k + 2)] == n[k + 2]);
        assert(s[a + 2] == g[0]);
        if p > 0 {
            assert(s[(p - 1) + 1] == t[p - 1]);
            assert(t.contains('"'));
        }
        assert forall|i: int| 0 <= i < k implies t[i] == key[i] by {
            assert(s[p + (i + 1)] == n[i + 1]);
            assert(s[i + 1] == t[i]);
        }
        assert(t =~= key);
    }
}

/// Where the first text is the key, it stands there.
proof fn lemma_stands(ts: Seq<(Seq<char>, Seq<char>)>, key: Seq<char>)
    requires
        ts.len() > 0,
        is_tidy(ts),
        names(ts[0], key),
    ensures
        reads_at(laid(ts), needle(key), 0),
{
    let s = laid(ts);
    let n = needle(key);
    assert(ts[0].1.len() > 0);
    assert(s.subrange(0, n.len() as int) =~= n);
}

/// What stands behind the first text is what the rest lays out.
proof fn lemma_behind(ts: Seq<(Seq<char>, Seq<char>)>, part: Seq<char>, q: int)
    requires
        ts.len() > 0,
        q >= 0,
    ensures
        reads_at(laid(ts), part, length(ts[0]) + q) == reads_at(laid(ts.drop_first()), part, q),
        laid(ts).len() == length(ts[0]) + laid(ts.drop_first()).len(),
{
    let s = laid(ts);
    let r = laid(ts.drop_first());
    let n = length(ts[0]);
    if q + part.len() <= r.len() {
        assert(s.subrange(n + q, n + q + part.len()) =~= r.subrange(q, q + part.len()));
    }
}

/// The place of text `i`.
spec fn place(ts: Seq<(Seq<char>, Seq<char>)>, i: nat) -> int
    decreases i,
{
    if i == 0 {
        0
    } else {
        length(ts[0]) + place(ts.drop_first(), (i - 1) as nat)
    }
}

/// The key stands where it is the first text of its name, and nowhere before.
proof fn lemma_key_place(ts: Seq<(Seq<char>, Seq<char>)>, key: Seq<char>, i: nat)
    requires
        is_tidy(ts),
        is_key(key),
        i < ts.len(),
        names(ts[i as int], key),
        forall|j: int| 0 <= j < i ==> !names(#[trigger] ts[j], key),
    ensures
        place(ts, i) >= 0,
        reads_at(laid(ts), needle(key), place(ts, i)),
        forall|q: int|
            0 <= q < place(ts, i) ==> !#[trigger] reads_at(laid(ts), needle(key), q),
        laid(ts).subrange(place(ts, i) + needle(key).len(), laid(ts).len() as int) == ts[i as int].1.drop_first()
            + laid(ts.skip(i as int + 1)),
    decreases i,
{
    let s = laid(ts);
    let n = needle(key);
    if i == 0 {
        lemma_stands(ts, key);
        assert(ts[0].1.len() > 0);
        assert(ts.skip(1) =~= ts.drop_first());
        assert(s.subrange(n.len() as int, s.len() as int) =~= ts[0].1.drop_first() + laid(ts.skip(1)));
    } else {
        let rest = ts.drop_first();
        let a = length(ts[0]);
        let k = (i - 1) as nat;
        assert forall|j: int| 0 <= j < rest.len() implies rest[j] == #[trigger] ts[j + 1] by {}
        assert(is_tidy(rest)) by {
            assert forall|j: int| 0 <= j < rest.len() implies is_fit(#[trigger] rest[j]) by {
                assert(rest[j] == ts[j + 1]);
            }
        }
        assert forall|j: int| 0 <= j < k implies !names(#[trigger] rest[j], key) by {
            assert(rest[j] == ts[j + 1]);
        }
        assert(rest[k as int] == ts[i as int]);
        lemma_key_place(rest, key, k);
        let p = place(rest, k);
        lemma_behind(ts, n, p);
        assert forall|q: int| 0 <= q < a + p implies !#[trigger] reads_at(s, n, q) by {
            if q < a {
                if reads_at(s, n, q) {
                    lemma_only_there(ts, key, q);
                    assert(!names(ts[0], key));
                }
            } else {
                lemma_behind(ts, n, q - a);
                assert(!reads_at(laid(rest), n, q - a));
            }
        }
        let r = laid(rest);
        assert(rest.skip(k as int + 1) =~= ts.skip(i as int + 1));
        assert(s.subrange(a + p + n.len(), s.len() as int) =~= r.subrange(
            p + n.len(),
            r.len() as int,
        ));
    }
}

/// A key that no text is stands nowhere.
proof fn lemma_key_absent(ts: Seq<(Seq<char>, Seq<char>)>, key: Seq<char>, q: int)
    requires
        is_tidy(ts),
        is_key(key),
        0 <= q,
        forall|j: int| 0 <= j < ts.len() ==> !names(#[trigger] ts[j], key),
    ensures
        !reads_at(laid(ts), needle(key), q),
    decreases ts.len(),
{
    if ts.len() > 0 {
        let rest = ts.drop_first();
        let a = length(ts[0]);
        if q < a {
            if reads_at(laid(ts), needle(key), q) {
                lemma_only_there(ts, key, q);
                assert(!names(ts[0], key));
            }
        } else {
            assert(is_tidy(rest)) by {
                assert forall|j: int| 0 <= j < rest.len() implies is_fit(#[trigger] rest[j]) by {
                    assert(rest[j] == ts[j + 1]);
                }
            }
            assert forall|j: int| 0 <= j < rest.len() implies !names(#[trigger] rest[j], key) by {
                assert(rest[j] == ts[j + 1]);
            }
            lemma_key_absent(rest, key, q - a);
            lemma_behind(ts, needle(key), q - a);
        }
    }
}

/// The first place is the one before which there is none.
proof fn lemma_found_at(s: Seq<char>, part: Seq<char>, i: int, p: int)
    requires
        0 <= i <= p,
        reads_at(s, part, p),
        forall|q: int| i <= q < p ==> !#[trigger] reads_at(s, part, q),
    ensures
        found_from(s, part, i) == Some(p),
    decreases p - i,
{
    if i < p {
        assert(!reads_at(s, part, i));
        lemma_found_at(s, part, i + 1, p);
    }
}

proof fn lemma_found_nowhere(s: Seq<char>, part: Seq<char>, i: int)
    requires
        0 <= i,
        forall|q: int| i <= q ==> !#[trigger] reads_at(s, part, q),
    ensures
        found_from(s, part, i) is None,
    decreases s.len() + 1 - i,
{
    if i + part.len() <= s.len() {
        assert(!reads_at(s, part, i));
        lemma_found_nowhere(s, part, i + 1);
    }
}

/// The value of a key is what follows it behind the colon.
proof fn lemma_value(ts: Seq<(Seq<char>, Seq<char>)>, key: Seq<char>, i: nat)
    requires
        is_tidy(ts),
        is_key(key),
        i < ts.len(),
        names(ts[i as int], key),
        forall|j: int| 0 <= j < i ==> !names(#[trigger] ts[j], key),
    ensures
        value_at(seq!['{'] + laid(ts), key) == Some(
            trim_start(ts[i as int].1.drop_first() + laid(ts.skip(i as int + 1))),
        ),
{
    let r = laid(ts);
    let s = seq!['{'] + r;
    let n = needle(key);
    lemma_key_place(ts, key, i);
    let p = place(ts, i);
    lemma_brace(r, n, p);
    assert forall|q: int| 0 <= q < p + 1 implies !#[trigger] reads_at(s, n, q) by {
        lemma_brace(r, n, q - 1);
    }
    lemma_found_at(s, n, 0, p + 1);
    assert(s.subrange(p + 1 + n.len(), s.len() as int) =~= r.subrange(p + n.len(), r.len() as int));
}

proof fn lemma_no_value(ts: Seq<(Seq<char>, Seq<char>)>, key: Seq<char>)
    requires
        is_tidy(ts),
        is_key(key),
        forall|j: int| 0 <= j < ts.len() ==> !names(#[trigger] ts[j], key),
    ensures
        value_at(seq!['{'] + laid(ts), key) is None,
{
    let r = laid(ts);
    let s = seq!['{'] + r;
    let n = needle(key);
    assert forall|q: int| 0 <= q implies !#[trigger] reads_at(s, n, q) by {
        lemma_brace(r, n, q - 1);
        if q >= 1 {
            lemma_key_absent(ts, key, q - 1);
        }
    }
    lemma_found_nowhere(s, n, 0);
}

/// The brace at the beginning moves every place by one.
proof fn lemma_brace(r: Seq<char>, n: Seq<char>, q: int)
    requires
        n.len() > 0,
        n[0] == '"',
        q >= -1,
    ensures
        reads_at(seq!['{'] + r, n, q + 1) == (q >= 0 && reads_at(r, n, q)),
{
    let s = seq!['{'] + r;
    if q + 1 + n.len() <= s.len() {
        if q >= 0 {
            assert(s.subrange(q + 1, q + 1 + n.len()) =~= r.subrange(q, q + n.len()));
        } else {
            assert(s.subrange(0, n.len() as int)[0] == '{');
        }
    }
}

// ---------------------------------------------------------------------------
// Values
// ---------------------------------------------------------------------------

/// The first place of a character that a text does not hold is behind it.
proof fn lemma_place_after(a: Seq<char>, c: char, tail: Seq<char>)
    requires
        !a.contains(c),
        tail.len() > 0 ==> tail[0] == c,
    ensures
        place_of(a + tail, c, 0) == a.len(),
{
    let s = a + tail;
    lemma_place(s, c, 0);
    let e = place_of(s, c, 0);
    if e < a.len() {
        assert(s[e] == a[e]);
        assert(a.contains(c));
    } else if e > a.len() {
        assert(s[a.len() as int] == tail[0]);
    }
}

/// A text as it stands between quotes, from the front.
proof fn lemma_escaped_front(s: Seq<char>)
    requires
        s.len() > 0,
    ensures
        escaped(s) == escaped_char(s[0]) + escaped(s.skip(1)),
    decreases s.len(),
{
    if s.len() == 1 {
        assert(s.drop_last() =~= Seq::<char>::empty());
        assert(s.skip(1) =~= Seq::<char>::empty());
        assert(escaped(s) =~= escaped_char(s[0]) + escaped(s.skip(1)));
    } else {
        lemma_escaped_front(s.drop_last());
        assert(s.drop_last().skip(1) =~= s.skip(1).drop_last());
        assert(s.skip(1).last() == s.last());
        assert(escaped(s) =~= escaped_char(s[0]) + escaped(s.skip(1)));
    }
}

/// A text is read back up to its closing quote.
proof fn lemma_quoted_reads(name: Seq<char>, tail: Seq<char>)
    ensures
        rd_quoted(escaped(name) + (seq!['"'] + tail)) == (name, escaped(name).len() as int),
    decreases name.len(),
{
    let t = escaped(name) + (seq!['"'] + tail);
    if name.len() == 0 {
        assert(t[0] == '"');
        assert(rd_quoted(t).0 =~= name);
    } else {
        let c = name[0];
        let rest = name.skip(1);
        lemma_escaped_front(name);
        lemma_quoted_reads(rest, tail);
        let u = escaped(rest) + (seq!['"'] + tail);
        if c == '"' || c == '\\' {
            assert(t[0] == '\\' && t[1] == c);
            assert(t.skip(2) =~= u);
        } else {
            assert(t[0] == c);
            assert(t.skip(1) =~= u);
        }
        assert(seq![c] + rest =~= name);
    }
}

/// A text between quotes is read back.
proof fn lemma_text_reads(name: Seq<char>, tail: Seq<char>)
    ensures
        text_value(trim_start(seq!['"'] + escaped(name) + seq!['"'] + tail)) == Some(name),
{
    let v = seq!['"'] + escaped(name) + seq!['"'] + tail;
    assert(v[0] == '"');
    assert(trim_start(v) == v);
    assert(v.skip(1) =~= escaped(name) + (seq!['"'] + tail));
    lemma_quoted_reads(name, tail);
}

/// A text between quotes shields its quotes.
proof fn lemma_escaped_shields(s: Seq<char>)
    ensures
        is_shielded(escaped(s)),
    decreases s.len(),
{
    if s.len() > 0 {
        let before = escaped(s.drop_last());
        let here = escaped_char(s.last());
        let all = escaped(s);
        lemma_escaped_shields(s.drop_last());
        assert forall|k: int| 0 <= k < all.len() && #[trigger] all[k] == '"' implies k > 0 && all[k - 1]
            == '\\' by {
            if k < before.len() {
                assert(before[k] == '"');
                assert(all[k - 1] == before[k - 1]);
            } else {
                assert(here[k - before.len()] == '"');
            }
        }
    }
}

/// A text of digits stands for its number.
proof fn lemma_digits(n: nat)
    ensures
        dec(n).len() > 0,
        forall|i: int| 0 <= i < dec(n).len() ==> is_digit(#[trigger] dec(n)[i]),
        digits_value(dec(n)) == n,
    decreases n,
{
    if n >= 10 {
        lemma_digits(n / 10);
        assert(dec(n).drop_last() =~= dec(n / 10));
        assert(dec(n).last() == digit(n % 10));
    } else {
        assert(dec(n).drop_last() =~= Seq::<char>::empty());
        assert(dec(n).last() == digit(n));
        assert(digits_value(dec(n).drop_last()) == 0);
    }
}

/// A number is read back.
proof fn lemma_size_reads(n: usize, c: char, tail: Seq<char>)
    requires
        c == ',' || c == '}',
    ensures
        ({
            let v = trim_start(dec(n as nat) + seq![c] + tail);
            size_value(trim(v.subrange(0, entry_end(v)))) == Some(n)
        }),
{
    let a = dec(n as nat);
    let v = a + seq![c] + tail;
    lemma_digits(n as nat);
    assert(is_digit(a[0]));
    assert(v[0] == a[0]);
    assert(trim_start(v) == v);
    let rest = seq![c] + tail;
    assert(v =~= a + rest);
    assert(!a.contains(','));
    assert(!a.contains('}'));
    lemma_place(v, ',', 0);
    lemma_place(v, '}', 0);
    let x = place_of(v, ',', 0);
    let y = place_of(v, '}', 0);
    if x < a.len() {
        assert(v[x] == a[x]);
    }
    if y < a.len() {
        assert(v[y] == a[y]);
    }
    assert(v[a.len() as int] == c);
    assert(entry_end(v) == a.len());
    assert(v.subrange(0, a.len() as int) =~= a);
    assert(is_digit(a.last()));
    assert(trim_end(a) == a);
    assert(trim_start(a) == a);
    assert(unsigned_digits(a) == a);
}

/// Two texts of numbers between brackets are found again.
proof fn lemma_pair_parts(lo: Seq<char>, hi: Seq<char>, tail: Seq<char>)
    requires
        is_number_text(lo),
        is_number_text(hi),
    ensures
        bracket_parts(bracketed(lo, hi) + tail) == seq![lo, hi],
{
    let inner = lo + seq![','] + hi;
    let v = bracketed(lo, hi) + tail;
    let t = inner + (seq![']'] + tail);
    assert(v[0] == '[');
    assert(v.drop_first() =~= t);
    if lo.len() > 0 {
        assert(t[0] == lo[0]);
        assert(lo.contains(lo[0]));
    } else {
        assert(t[0] == ',');
    }
    assert(shed_start(t, '[') == t);
    assert(!inner.contains(']')) by {
        if inner.contains(']') {
            let k = inner.index_of(']');
            if k < lo.len() {
                assert(lo[k] == ']');
                assert(lo.contains(']'));
            } else if k > lo.len() {
                assert(hi[k - lo.len() - 1] == ']');
                assert(hi.contains(']'));
            }
        }
    }
    lemma_place_after(inner, ']', seq![']'] + tail);
    assert(t.subrange(0, inner.len() as int) =~= inner);
    let parts = seq![lo, hi];
    assert(parts.drop_first() =~= seq![hi]);
    assert(joined_by(seq![hi], ',') == hi);
    assert(joined_by(parts, ',') =~= inner);
    joined_pieces_are_split(parts, ',');
}

/// A text that can stand for a number between brackets.
pub open spec fn is_number_text(s: Seq<char>) -> bool {
    &&& !s.contains('"')
    &&& !s.contains(',')
    &&& !s.contains('[')
    &&& !s.contains(']')
}

/// Between brackets the depth stays.
proof fn lemma_spans_skip(s: Seq<char>, i: int, e: int, depth: int, start: int)
    requires
        0 <= i <= e <= s.len(),
        forall|k: int| i <= k < e ==> s[k] != '[' && s[k] != ']',
    ensures
        spans_from(s, i, depth, start) == spans_from(s, e, depth, start),
    decreases e - i,
{
    if i < e {
        assert(s[i] != '[' && s[i] != ']');
        lemma_spans_skip(s, i + 1, e, depth, start);
    }
}

/// One pair between brackets is found.
proof fn lemma_span(s: Seq<char>, i: int, lo: Seq<char>, hi: Seq<char>, start: int)
    requires
        0 <= i,
        i + bracketed(lo, hi).len() <= s.len(),
        s.subrange(i, i + bracketed(lo, hi).len()) == bracketed(lo, hi),
        is_number_text(lo),
        is_number_text(hi),
    ensures
        spans_from(s, i, 1, start) == seq![bracketed(lo, hi)] + spans_from(
            s,
            i + bracketed(lo, hi).len(),
            1,
            i,
        ),
{
    let b = bracketed(lo, hi);
    let e = i + b.len() - 1;
    assert forall|k: int| 0 <= k < b.len() implies s[i + k] == #[trigger] b[k] by {
        assert(s.subrange(i, i + b.len())[k] == s[i + k]);
    }
    assert(s[i + 0] == b[0]);
    assert(b[0] == '[');
    assert(b[b.len() - 1] == ']');
    assert(s[i + (b.len() - 1)] == b[b.len() - 1]);
    assert forall|k: int| i + 1 <= k < e implies s[k] != '[' && s[k] != ']' by {
        let j = k - i;
        assert(s[i + j] == b[j]);
        if j <= lo.len() {
            assert(b[j] == lo[j - 1]);
            assert(lo.contains(lo[j - 1]));
        } else if j > lo.len() + 1 {
            assert(b[j] == hi[j - lo.len() - 2]);
            assert(hi.contains(hi[j - lo.len() - 2]));
        }
    }
    lemma_spans_skip(s, i + 1, e, 2, i);
    assert(s.subrange(i, e + 1) =~= b);
}

/// The pairs of a list are found, one after the other.
proof fn lemma_spans_list(s: Seq<char>, i: int, lo: Seq<Seq<char>>, hi: Seq<Seq<char>>, start: int)
    requires
        0 <= i,
        lo.len() == hi.len(),
        forall|k: int| 0 <= k < lo.len() ==> is_number_text(#[trigger] lo[k]),
        forall|k: int| 0 <= k < hi.len() ==> is_number_text(#[trigger] hi[k]),
        i + bracketed_list(lo, hi).len() < s.len(),
        s.subrange(i, i + bracketed_list(lo, hi).len()) == bracketed_list(lo, hi),
        s[i + bracketed_list(lo, hi).len()] == ']',
    ensures
        spans_from(s, i, 1, start) == Seq::new(lo.len(), |k: int| bracketed(lo[k], hi[k])),
    decreases lo.len(),
{
    let pairs = Seq::new(lo.len(), |k: int| bracketed(lo[k], hi[k]));
    let list = bracketed_list(lo, hi);
    if lo.len() == 0 {
        assert(spans_from(s, i, 1, start) =~= pairs);
    } else {
        let b = pairs[0];
        let lo2 = lo.drop_first();
        let hi2 = hi.drop_first();
        let list2 = bracketed_list(lo2, hi2);
        assert(pairs.drop_first() =~= Seq::new(lo2.len(), |k: int| bracketed(lo2[k], hi2[k])));
        assert forall|k: int| 0 <= k < lo2.len() implies is_number_text(#[trigger] lo2[k]) by {
            assert(lo2[k] == lo[k + 1]);
        }
        assert forall|k: int| 0 <= k < hi2.len() implies is_number_text(#[trigger] hi2[k]) by {
            assert(hi2[k] == hi[k + 1]);
        }
        assert(is_number_text(lo[0]) && is_number_text(hi[0]));
        let n = b.len() as int;
        if lo.len() == 1 {
            assert(list == b);
            lemma_span(s, i, lo[0], hi[0], start);
            assert(spans_from(s, i + n, 1, i) =~= Seq::<Seq<char>>::empty());
            assert(spans_from(s, i, 1, start) =~= pairs);
        } else {
            assert(list =~= b + seq![','] + list2);
            assert(s.subrange(i, i + n) =~= list.subrange(0, n));
            assert(list.subrange(0, n) =~= b);
            lemma_span(s, i, lo[0], hi[0], start);
            assert(s.subrange(i, i + list.len())[n] == ',');
            lemma_spans_skip(s, i + n, i + n + 1, 1, i);
            assert(s.subrange(i + n + 1, i + n + 1 + list2.len()) =~= s.subrange(
                i,
                i + list.len(),
            ).subrange(n + 1, list.len() as int));
            assert(list.subrange(n + 1, list.len() as int) =~= list2);
            lemma_spans_list(s, i + n + 1, lo2, hi2, i);
            assert(seq![b] + pairs.drop_first() =~= pairs);
        }
    }
}

/// The pairs of a list are found again.
proof fn lemma_spans(lo: Seq<Seq<char>>, hi: Seq<Seq<char>>, tail: Seq<char>)
    requires
        lo.len() == hi.len(),
        forall|k: int| 0 <= k < lo.len() ==> is_number_text(#[trigger] lo[k]),
        forall|k: int| 0 <= k < hi.len() ==> is_number_text(#[trigger] hi[k]),
    ensures
        spans(trim_start(seq!['['] + bracketed_list(lo, hi) + seq![']'] + tail)) == Seq::new(
            lo.len(),
            |k: int| bracketed(lo[k], hi[k]),
        ),
{
    let list = bracketed_list(lo, hi);
    let v = seq!['['] + list + seq![']'] + tail;
    assert(v[0] == '[');
    assert(trim_start(v) == v);
    assert(place_of(v, '[', 0) == 0);
    assert(v.subrange(1, 1 + list.len() as int) =~= list);
    assert(v[1 + list.len() as int] == ']');
    lemma_spans_list(v, 1, lo, hi, 0);
    assert(spans(v) == spans_from(v, 1, 1, 0));
}

// ---------------------------------------------------------------------------
// The whole text
// ---------------------------------------------------------------------------

proof fn lemma_laid_joined(a: Seq<(Seq<char>, Seq<char>)>, b: Seq<(Seq<char>, Seq<char>)>)
    ensures
        laid(a + b) == laid(a) + laid(b),
    decreases a.len(),
{
    if a.len() == 0 {
        assert(a + b =~= b);
        assert(laid(a + b) =~= laid(a) + laid(b));
    } else {
        lemma_laid_joined(a.drop_first(), b);
        assert((a + b).drop_first() =~= a.drop_first() + b);
        assert(laid(a + b) =~= laid(a) + laid(b));
    }
}

/// A key between quotes.
spec fn keyed(key: Seq<char>) -> Seq<char> {
    seq!['"'] + key + seq!['"']
}

proof fn lemma_laid_one(t: Seq<char>, g: Seq<char>)
    ensures
        laid(seq![(t, g)]) == keyed(t) + g,
{
    assert(seq![(t, g)].drop_first() =~= Seq::<(Seq<char>, Seq<char>)>::empty());
    assert(laid(seq![(t, g)].drop_first()) =~= Seq::<char>::empty());
    assert(laid(seq![(t, g)]) =~= keyed(t) + g);
}

/// The texts of a list, and what follows each.
spec fn items(v: Seq<Seq<char>>) -> Seq<(Seq<char>, Seq<char>)> {
    Seq::new(
        v.len(),
        |i: int|
            (
                escaped(v[i]),
                if i + 1 == v.len() {
                    seq![']', ',']
                } else {
                    seq![',']
                },
            ),
    )
}

proof fn lemma_laid_items(v: Seq<Seq<char>>)
    requires
        v.len() > 0,
    ensures
        laid(items(v)) == quoted_list(v) + seq![']', ','],
    decreases v.len(),
{
    let parts = v.map_values(|s: Seq<char>| quoted(s));
    assert(quoted(v[0]) =~= keyed(escaped(v[0])));
    if v.len() == 1 {
        assert(items(v) =~= seq![(escaped(v[0]), seq![']', ','])]);
        lemma_laid_one(escaped(v[0]), seq![']', ',']);
        assert(quoted_list(v) == parts[0]);
    } else {
        let rest = v.drop_first();
        lemma_laid_items(rest);
        assert(items(v).drop_first() =~= items(rest));
        assert(parts.drop_first() =~= rest.map_values(|s: Seq<char>| quoted(s)));
        assert(quoted_list(v) == parts[0] + seq![','] + quoted_list(rest));
        assert(laid(items(v)) =~= quoted_list(v) + seq![']', ',']);
    }
}

/// The texts of a list are read back.
proof fn lemma_items_read(v: Seq<Seq<char>>, tail: Seq<char>)
    requires
        v.len() > 0,
    ensures
        rd_names(laid(items(v)) + tail) == v,
    decreases v.len(),
{
    let t = laid(items(v)) + tail;
    let e = escaped(v[0]);
    let gap = items(v)[0].1;
    let rest = v.drop_first();
    let after = laid(items(v).drop_first()) + tail;
    assert(t =~= seq!['"'] + (e + (seq!['"'] + (gap + after))));
    assert(t[0] == '"');
    assert(t.skip(1) =~= e + (seq!['"'] + (gap + after)));
    lemma_quoted_reads(v[0], gap + after);
    let u = t.skip(e.len() as int + 2);
    assert(u =~= gap + after);
    assert(rd_names(t) == seq![v[0]] + rd_names(u));
    if v.len() == 1 {
        assert(u[0] == ']');
        assert(rd_names(u) =~= Seq::<Seq<char>>::empty());
        assert(seq![v[0]] + rd_names(u) =~= v);
    } else {
        assert(items(v).drop_first() =~= items(rest));
        assert(u[0] == ',');
        assert(u.skip(1) =~= laid(items(rest)) + tail);
        assert(rd_names(u) == rd_names(u.skip(1)));
        lemma_items_read(rest, tail);
        assert(seq![v[0]] + rest =~= v);
    }
}

/// A list under a key.
spec fn list_of(key: Seq<char>, v: Seq<Seq<char>>) -> Seq<(Seq<char>, Seq<char>)> {
    if v.len() == 0 {
        seq![(key, seq![':', '[', ']', ','])]
    } else {
        seq![(key, seq![':', '['])] + items(v)
    }
}

proof fn lemma_laid_list(key: Seq<char>, v: Seq<Seq<char>>)
    ensures
        laid(list_of(key, v)) == keyed(key) + seq![':', '['] + quoted_list(v) + seq![']', ','],
{
    if v.len() == 0 {
        lemma_laid_one(key, seq![':', '[', ']', ',']);
        assert(quoted_list(v) =~= Seq::<char>::empty());
        assert(laid(list_of(key, v)) =~= keyed(key) + seq![':', '['] + quoted_list(v) + seq![
            ']',
            ',',
        ]);
    } else {
        lemma_laid_one(key, seq![':', '[']);
        lemma_laid_items(v);
        lemma_laid_joined(seq![(key, seq![':', '['])], items(v));
        assert(laid(list_of(key, v)) =~= keyed(key) + seq![':', '['] + quoted_list(v) + seq![
            ']',
            ',',
        ]);
    }
}

/// The texts that come first: the name and the task.
spec fn opening(m: ModelMetadata) -> Seq<(Seq<char>, Seq<char>)> {
    seq![
        ("dataset_name"@, seq![':']),
        (escaped(m.dataset_name@), seq![',']),
        ("task"@, seq![':']),
        (task_name(m.task), seq![',']),
    ]
}

/// The ranges.
spec fn middle(lo: Seq<Seq<char>>, hi: Seq<Seq<char>>) -> Seq<(Seq<char>, Seq<char>)> {
    seq![("feature_ranges"@, seq![':', '['] + bracketed_list(lo, hi) + seq![']', ','])]
}

/// The texts that come last: the target, the sizes, and the state of a tokenizer.
spec fn closing(m: ModelMetadata, tlo: Seq<char>, thi: Seq<char>) -> Seq<(Seq<char>, Seq<char>)> {
    seq![
        ("target_name"@, seq![':']),
        (escaped(m.target_name@), seq![',']),
        ("target_range"@, seq![':'] + bracketed(tlo, thi) + seq![',']),
        ("input_dim"@, seq![':'] + dec(m.input_dim as nat) + seq![',']),
        (
            "output_dim"@,
            seq![':'] + dec(m.output_dim as nat) + seq![
                if m.tokenizer_state@.len() == 0 {
                    '}'
                } else {
                    ','
                },
            ],
        ),
    ] + (if m.tokenizer_state@.len() == 0 {
        Seq::empty()
    } else {
        seq![("tokenizer_state"@, seq![':']), (escaped(m.tokenizer_state@), seq!['}'])]
    })
}

/// All texts of the JSON.
spec fn texts(
    m: ModelMetadata,
    lo: Seq<Seq<char>>,
    hi: Seq<Seq<char>>,
    tlo: Seq<char>,
    thi: Seq<char>,
) -> Seq<(Seq<char>, Seq<char>)> {
    opening(m) + list_of("feature_names"@, strings_of(m.feature_names@)) + middle(lo, hi) + list_of(
        "class_names"@,
        strings_of(m.class_names@),
    ) + closing(m, tlo, thi)
}

#[verifier::rlimit(60)]
#[verifier::spinoff_prover]
proof fn lemma_opening(m: ModelMetadata)
    ensures
        "{\"dataset_name\":"@ + quoted(m.dataset_name@) + ",\"task\":\""@ + task_name(m.task)
            + "\",\"feature_names\":["@ == seq!['{'] + laid(opening(m)) + keyed("feature_names"@)
            + seq![':', '['],
{
    reveal_strlit("{\"dataset_name\":");
    reveal_strlit(",\"task\":\"");
    reveal_strlit("\",\"feature_names\":[");
    reveal_strlit("dataset_name");
    reveal_strlit("task");
    reveal_strlit("feature_names");
    let a = ("dataset_name"@, seq![':']);
    let b = (escaped(m.dataset_name@), seq![',']);
    let c = ("task"@, seq![':']);
    let d = (task_name(m.task), seq![',']);
    lemma_laid_one(a.0, a.1);
    lemma_laid_one(b.0, b.1);
    lemma_laid_one(c.0, c.1);
    lemma_laid_one(d.0, d.1);
    lemma_laid_joined(seq![a], seq![b]);
    lemma_laid_joined(seq![a] + seq![b], seq![c]);
    lemma_laid_joined(seq![a] + seq![b] + seq![c], seq![d]);
    assert(opening(m) =~= seq![a] + seq![b] + seq![c] + seq![d]);
    let x = quoted(m.dataset_name@);
    assert(x =~= keyed(escaped(m.dataset_name@)));
    let t = task_name(m.task);
    assert("{\"dataset_name\":"@ =~= seq!['{'] + keyed("dataset_name"@) + seq![':']);
    assert(",\"task\":\""@ =~= seq![','] + keyed("task"@) + seq![':', '"']);
    assert("\",\"feature_names\":["@ =~= seq!['"', ','] + keyed("feature_names"@) + seq![':', '[']);
    let k = keyed("dataset_name"@);
    let l = keyed("task"@);
    let n = keyed("feature_names"@);
    assert((seq!['{'] + k + seq![':']) + x + (seq![','] + l + seq![':', '"']) + t + (seq!['"', ',']
        + n + seq![':', '[']) =~= seq!['{'] + (k + seq![':'] + (x + seq![',']) + (l + seq![':']) + (
    seq!['"'] + t + seq!['"'] + seq![','])) + n + seq![':', '[']);
}

proof fn lemma_closing_words()
    ensures
        ",\"target_range\":"@ == seq![','] + keyed("target_range"@) + seq![':'],
        ",\"input_dim\":"@ == seq![','] + keyed("input_dim"@) + seq![':'],
        ",\"output_dim\":"@ == seq![','] + keyed("output_dim"@) + seq![':'],
        ",\"tokenizer_state\":"@ == seq![','] + keyed("tokenizer_state"@) + seq![':'],
        "}"@ == seq!['}'],
{
    reveal_strlit(",\"target_range\":");
    reveal_strlit(",\"input_dim\":");
    reveal_strlit(",\"output_dim\":");
    reveal_strlit(",\"tokenizer_state\":");
    reveal_strlit("}");
    reveal_strlit("target_range");
    reveal_strlit("input_dim");
    reveal_strlit("output_dim");
    reveal_strlit("tokenizer_state");
    assert(",\"target_range\":"@ =~= seq![','] + keyed("target_range"@) + seq![':']);
    assert(",\"input_dim\":"@ =~= seq![','] + keyed("input_dim"@) + seq![':']);
    assert(",\"output_dim\":"@ =~= seq![','] + keyed("output_dim"@) + seq![':']);
    assert(",\"tokenizer_state\":"@ =~= seq![','] + keyed("tokenizer_state"@) + seq![':']);
    assert("}"@ =~= seq!['}']);
}

/// Five texts, one behind the other.
proof fn lemma_laid_five(
    a: (Seq<char>, Seq<char>),
    b: (Seq<char>, Seq<char>),
    c: (Seq<char>, Seq<char>),
    d: (Seq<char>, Seq<char>),
    e: (Seq<char>, Seq<char>),
)
    ensures
        laid(seq![a, b, c, d, e]) == (keyed(a.0) + a.1) + (keyed(b.0) + b.1) + (keyed(c.0) + c.1) + (
        keyed(d.0) + d.1) + (keyed(e.0) + e.1),
{
    lemma_laid_one(a.0, a.1);
    lemma_laid_one(b.0, b.1);
    lemma_laid_one(c.0, c.1);
    lemma_laid_one(d.0, d.1);
    lemma_laid_one(e.0, e.1);
    lemma_laid_joined(seq![a], seq![b]);
    lemma_laid_joined(seq![a] + seq![b], seq![c]);
    lemma_laid_joined(seq![a] + seq![b] + seq![c], seq![d]);
    lemma_laid_joined(seq![a] + seq![b] + seq![c] + seq![d], seq![e]);
    assert(seq![a] + seq![b] + seq![c] + seq![d] + seq![e] =~= seq![a, b, c, d, e]);
}

/// What stands between the texts can be counted to either of them.
proof fn lemma_regroup(
    k: Seq<char>,
    x: Seq<char>,
    kr: Seq<char>,
    pair: Seq<char>,
    ki: Seq<char>,
    i: Seq<char>,
    ko: Seq<char>,
    o: Seq<char>,
    last: Seq<char>,
)
    ensures
        (k + seq![':']) + (x + seq![',']) + (kr + (seq![':'] + pair + seq![','])) + (ki + (seq![':']
            + i + seq![','])) + (ko + (seq![':'] + o + last)) == k + seq![':'] + (x + (seq![','] + kr
            + seq![':']) + pair + (seq![','] + ki + seq![':']) + i + (seq![','] + ko + seq![':']) + o
            + last),
{
    let colon = seq![':'];
    let comma = seq![','];
    let start = k + colon;
    let p1 = x + (comma + kr + colon) + pair;
    assert(start + (x + comma) + (kr + (colon + pair + comma)) =~= start + (p1 + comma));
    let p2 = p1 + (comma + ki + colon) + i;
    assert(start + (p1 + comma) + (ki + (colon + i + comma)) =~= start + (p2 + comma));
    let p3 = p2 + (comma + ko + colon) + o;
    assert(start + (p2 + comma) + (ko + (colon + o + last)) =~= start + (p3 + last));
}

proof fn lemma_regroup_state(start: Seq<char>, body: Seq<char>, ks: Seq<char>, y: Seq<char>)
    ensures
        start + (body + seq![',']) + ((ks + seq![':']) + (y + seq!['}'])) == start + (body + ((seq![
            ',',
        ] + ks + seq![':']) + y) + seq!['}']),
{
    assert(start + (body + seq![',']) + ((ks + seq![':']) + (y + seq!['}'])) =~= start + (body + ((
    seq![','] + ks + seq![':']) + y) + seq!['}']));
}

proof fn lemma_closing(m: ModelMetadata, tlo: Seq<char>, thi: Seq<char>)
    ensures
        laid(closing(m, tlo, thi)) == keyed("target_name"@) + seq![':'] + (quoted(m.target_name@)
            + ",\"target_range\":"@ + bracketed(tlo, thi) + ",\"input_dim\":"@ + dec(
            m.input_dim as nat,
        ) + ",\"output_dim\":"@ + dec(m.output_dim as nat) + state_entry(m.tokenizer_state@) + "}"@),
{
    lemma_closing_words();
    let pair = bracketed(tlo, thi);
    let i = dec(m.input_dim as nat);
    let o = dec(m.output_dim as nat);
    let last = if m.tokenizer_state@.len() == 0 {
        '}'
    } else {
        ','
    };
    let a = ("target_name"@, seq![':']);
    let b = (escaped(m.target_name@), seq![',']);
    let c = ("target_range"@, seq![':'] + pair + seq![',']);
    let d = ("input_dim"@, seq![':'] + i + seq![',']);
    let e = ("output_dim"@, seq![':'] + o + seq![last]);
    let five = seq![a, b, c, d, e];
    lemma_laid_five(a, b, c, d, e);
    let k = keyed("target_name"@);
    let x = keyed(escaped(m.target_name@));
    let kr = keyed("target_range"@);
    let ki = keyed("input_dim"@);
    let ko = keyed("output_dim"@);
    assert(quoted(m.target_name@) =~= x);
    lemma_regroup(k, x, kr, pair, ki, i, ko, o, seq![last]);
    let body = x + (seq![','] + kr + seq![':']) + pair + (seq![','] + ki + seq![':']) + i + (seq![
        ',',
    ] + ko + seq![':']) + o;
    assert(laid(five) == k + seq![':'] + (body + seq![last]));
    if m.tokenizer_state@.len() == 0 {
        assert(closing(m, tlo, thi) =~= five);
        assert(body + Seq::<char>::empty() =~= body);
    } else {
        let f = ("tokenizer_state"@, seq![':']);
        let g = (escaped(m.tokenizer_state@), seq!['}']);
        lemma_laid_one(f.0, f.1);
        lemma_laid_one(g.0, g.1);
        lemma_laid_joined(seq![f], seq![g]);
        assert(seq![f] + seq![g] =~= seq![f, g]);
        lemma_laid_joined(five, seq![f, g]);
        assert(closing(m, tlo, thi) == five + seq![f, g]);
        let y = keyed(escaped(m.tokenizer_state@));
        assert(quoted(m.tokenizer_state@) =~= y);
        lemma_regroup_state(k + seq![':'], body, keyed("tokenizer_state"@), y);
    }
}

/// The JSON is its texts, laid out behind a brace.
#[verifier::rlimit(60)]
#[verifier::spinoff_prover]
proof fn lemma_json(
    m: ModelMetadata,
    lo: Seq<Seq<char>>,
    hi: Seq<Seq<char>>,
    tlo: Seq<char>,
    thi: Seq<char>,
)
    ensures
        m.json(lo, hi, tlo, thi) == seq!['{'] + laid(texts(m, lo, hi, tlo, thi)),
{
    reveal_strlit("],\"feature_ranges\":[");
    reveal_strlit("],\"class_names\":[");
    reveal_strlit("],\"target_name\":");
    reveal_strlit("feature_ranges");
    reveal_strlit("class_names");
    reveal_strlit("target_name");
    let names = strings_of(m.feature_names@);
    let classes = strings_of(m.class_names@);
    let a = opening(m);
    let b = list_of("feature_names"@, names);
    let c = middle(lo, hi);
    let d = list_of("class_names"@, classes);
    let e = closing(m, tlo, thi);
    lemma_opening(m);
    lemma_laid_list("feature_names"@, names);
    lemma_laid_one("feature_ranges"@, seq![':', '['] + bracketed_list(lo, hi) + seq![']', ',']);
    lemma_laid_list("class_names"@, classes);
    lemma_closing(m, tlo, thi);
    lemma_laid_joined(a, b);
    lemma_laid_joined(a + b, c);
    lemma_laid_joined(a + b + c, d);
    lemma_laid_joined(a + b + c + d, e);
    let start = seq!['{'] + laid(a);
    let kn = keyed("feature_names"@) + seq![':', '['];
    let kr = keyed("feature_ranges"@) + seq![':', '['];
    let kc = keyed("class_names"@) + seq![':', '['];
    let kt = keyed("target_name"@) + seq![':'];
    let end = seq![']', ','];
    let ranges = bracketed_list(lo, hi);
    let first = quoted_list(names);
    let second = quoted_list(classes);
    assert("],\"feature_ranges\":["@ =~= end + kr);
    assert("],\"class_names\":["@ =~= end + kc);
    assert("],\"target_name\":"@ =~= end + kt);
    let p1 = start + kn;
    assert(p1 =~= seq!['{'] + laid(a) + keyed("feature_names"@) + seq![':', '[']);
    let tail = quoted(m.target_name@) + ",\"target_range\":"@ + bracketed(tlo, thi)
        + ",\"input_dim\":"@ + dec(m.input_dim as nat) + ",\"output_dim\":"@ + dec(
        m.output_dim as nat,
    ) + state_entry(m.tokenizer_state@) + "}"@;
    let front = p1 + first + (end + kr) + ranges + (end + kc) + second + (end + kt);
    assert(m.json(lo, hi, tlo, thi) =~= front + tail) by {
        lemma_tail(
            front,
            quoted(m.target_name@),
            ",\"target_range\":"@,
            bracketed(tlo, thi),
            ",\"input_dim\":"@,
            dec(m.input_dim as nat),
            ",\"output_dim\":"@,
            dec(m.output_dim as nat),
            state_entry(m.tokenizer_state@),
            "}"@,
        );
    }
    assert(laid(b) == kn + first + end);
    assert(laid(c) =~= kr + ranges + end);
    assert(laid(d) == kc + second + end);
    lemma_front(start, kn, first, end, kr, ranges, kc, second, kt, tail);
    assert(seq!['{'] + (laid(a) + laid(b) + laid(c) + laid(d) + laid(e)) =~= start + laid(b) + laid(c)
        + laid(d) + laid(e));
}

/// What is put together from the left is the same put together at the end.
proof fn lemma_tail(
    front: Seq<char>,
    a: Seq<char>,
    b: Seq<char>,
    c: Seq<char>,
    d: Seq<char>,
    e: Seq<char>,
    f: Seq<char>,
    g: Seq<char>,
    h: Seq<char>,
    i: Seq<char>,
)
    ensures
        front + a + b + c + d + e + f + g + h + i == front + (a + b + c + d + e + f + g + h + i),
{
    assert(front + a + b =~= front + (a + b));
    assert(front + (a + b) + c =~= front + (a + b + c));
    assert(front + (a + b + c) + d =~= front + (a + b + c + d));
    assert(front + (a + b + c + d) + e =~= front + (a + b + c + d + e));
    assert(front + (a + b + c + d + e) + f =~= front + (a + b + c + d + e + f));
    assert(front + (a + b + c + d + e + f) + g =~= front + (a + b + c + d + e + f + g));
    assert(front + (a + b + c + d + e + f + g) + h =~= front + (a + b + c + d + e + f + g + h));
    assert(front + (a + b + c + d + e + f + g + h) + i =~= front + (a + b + c + d + e + f + g + h
        + i));
}

proof fn lemma_front(
    s: Seq<char>,
    kn: Seq<char>,
    first: Seq<char>,
    end: Seq<char>,
    kr: Seq<char>,
    ranges: Seq<char>,
    kc: Seq<char>,
    second: Seq<char>,
    kt: Seq<char>,
    tail: Seq<char>,
)
    ensures
        s + kn + first + (end + kr) + ranges + (end + kc) + second + (end + kt) + tail == s + (kn
            + first + end) + (kr + ranges + end) + (kc + second + end) + (kt + tail),
{
    let one = s + (kn + first + end);
    assert(s + kn + first + (end + kr) =~= one + kr);
    let two = one + (kr + ranges + end);
    assert(one + kr + ranges + (end + kc) =~= two + kc);
    let three = two + (kc + second + end);
    assert(two + kc + second + (end + kt) =~= three + kt);
    assert(three + kt + tail =~= three + (kt + tail));
}

// ---------------------------------------------------------------------------
// Reading back
// ---------------------------------------------------------------------------

/// The keys are different, and can be keys.
proof fn lemma_keys()
    ensures
        is_key("dataset_name"@),
        is_key("task"@),
        is_key("feature_names"@),
        is_key("feature_ranges"@),
        is_key("class_names"@),
        is_key("target_name"@),
        is_key("target_range"@),
        is_key("input_dim"@),
        is_key("output_dim"@),
        is_key("tokenizer_state"@),
        "dataset_name"@ != "task"@,
        "dataset_name"@ != "feature_names"@,
        "dataset_name"@ != "feature_ranges"@,
        "dataset_name"@ != "class_names"@,
        "dataset_name"@ != "target_name"@,
        "dataset_name"@ != "target_range"@,
        "dataset_name"@ != "input_dim"@,
        "dataset_name"@ != "output_dim"@,
        "dataset_name"@ != "tokenizer_state"@,
        "task"@ != "feature_names"@,
        "task"@ != "feature_ranges"@,
        "task"@ != "class_names"@,
        "task"@ != "target_name"@,
        "task"@ != "target_range"@,
        "task"@ != "input_dim"@,
        "task"@ != "output_dim"@,
        "task"@ != "tokenizer_state"@,
        "feature_names"@ != "feature_ranges"@,
        "feature_names"@ != "class_names"@,
        "feature_names"@ != "target_name"@,
        "feature_names"@ != "target_range"@,
        "feature_names"@ != "input_dim"@,
        "feature_names"@ != "output_dim"@,
        "feature_names"@ != "tokenizer_state"@,
        "feature_ranges"@ != "class_names"@,
        "feature_ranges"@ != "target_name"@,
        "feature_ranges"@ != "target_range"@,
        "feature_ranges"@ != "input_dim"@,
        "feature_ranges"@ != "output_dim"@,
        "feature_ranges"@ != "tokenizer_state"@,
        "class_names"@ != "target_name"@,
        "class_names"@ != "target_range"@,
        "class_names"@ != "input_dim"@,
        "class_names"@ != "output_dim"@,
        "class_names"@ != "tokenizer_state"@,
        "target_name"@ != "target_range"@,
        "target_name"@ != "input_dim"@,
        "target_name"@ != "output_dim"@,
        "target_name"@ != "tokenizer_state"@,
        "target_range"@ != "input_dim"@,
        "target_range"@ != "output_dim"@,
        "target_range"@ != "tokenizer_state"@,
        "input_dim"@ != "output_dim"@,
        "input_dim"@ != "tokenizer_state"@,
        "output_dim"@ != "tokenizer_state"@,
{
    reveal_strlit("dataset_name");
    reveal_strlit("task");
    reveal_strlit("feature_names");
    reveal_strlit("feature_ranges");
    reveal_strlit("class_names");
    reveal_strlit("target_name");
    reveal_strlit("target_range");
    reveal_strlit("input_dim");
    reveal_strlit("output_dim");
    reveal_strlit("tokenizer_state");
    assert("dataset_name"@.len() == 12 && "dataset_name"@[0] == 'd');
    assert("task"@.len() == 4 && "task"@[0] == 't');
    assert("feature_names"@.len() == 13 && "feature_names"@[0] == 'f');
    assert("feature_ranges"@.len() == 14 && "feature_ranges"@[0] == 'f');
    assert("class_names"@.len() == 11 && "class_names"@[0] == 'c');
    assert("target_name"@.len() == 11 && "target_name"@[0] == 't');
    assert("target_range"@.len() == 12 && "target_range"@[0] == 't');
    assert("input_dim"@.len() == 9 && "input_dim"@[0] == 'i');
    assert("output_dim"@.len() == 10 && "output_dim"@[0] == 'o');
    assert("tokenizer_state"@.len() == 15 && "tokenizer_state"@[0] == 't');
    assert(!"dataset_name"@.contains('"') && !"dataset_name"@.contains('\\'));
    assert(!"task"@.contains('"') && !"task"@.contains('\\'));
    assert(!"feature_names"@.contains('"') && !"feature_names"@.contains('\\'));
    assert(!"feature_ranges"@.contains('"') && !"feature_ranges"@.contains('\\'));
    assert(!"class_names"@.contains('"') && !"class_names"@.contains('\\'));
    assert(!"target_name"@.contains('"') && !"target_name"@.contains('\\'));
    assert(!"target_range"@.contains('"') && !"target_range"@.contains('\\'));
    assert(!"input_dim"@.contains('"') && !"input_dim"@.contains('\\'));
    assert(!"output_dim"@.contains('"') && !"output_dim"@.contains('\\'));
    assert(!"tokenizer_state"@.contains('"') && !"tokenizer_state"@.contains('\\'));
}

/// What follows a text that is a key begins with a colon.
spec fn opens(t: (Seq<char>, Seq<char>)) -> bool {
    t.1[0] == ':'
}

/// The places of the keys, where the lists hold `nf` and `nc` texts.
spec fn is_key_place(j: int, nf: int, nc: int) -> bool {
    j == 0 || j == 2 || j == 4 || j == 5 + nf || j == 6 + nf || j == 7 + nf + nc || j == 9 + nf + nc
        || j == 10 + nf + nc || j == 11 + nf + nc || j == 12 + nf + nc
}

/// The keys stand at their places, and no other text opens.
proof fn lemma_places(
    m: ModelMetadata,
    lo: Seq<Seq<char>>,
    hi: Seq<Seq<char>>,
    tlo: Seq<char>,
    thi: Seq<char>,
)
    ensures
        ({
            let ts = texts(m, lo, hi, tlo, thi);
            let nf = m.feature_names@.len() as int;
            let nc = m.class_names@.len() as int;
            &&& ts.len() == 12 + nf + nc + (if m.tokenizer_state@.len() == 0 {
                0int
            } else {
                2
            })
            &&& forall|j: int|
                0 <= j < ts.len() && opens(#[trigger] ts[j]) ==> is_key_place(j, nf, nc)
            &&& ts[0] == ("dataset_name"@, seq![':'])
            &&& ts[1] == (escaped(m.dataset_name@), seq![','])
            &&& ts[2] == ("task"@, seq![':'])
            &&& ts[3] == (task_name(m.task), seq![','])
            &&& ts.skip(4) == list_of("feature_names"@, strings_of(m.feature_names@)) + ts.skip(
                5 + nf,
            )
            &&& ts[4].0 == "feature_names"@ && opens(ts[4])
            &&& ts[5 + nf] == middle(lo, hi)[0]
            &&& ts.skip(6 + nf) == list_of("class_names"@, strings_of(m.class_names@)) + ts.skip(
                7 + nf + nc,
            )
            &&& ts[6 + nf].0 == "class_names"@ && opens(ts[6 + nf])
            &&& ts.skip(7 + nf + nc) == closing(m, tlo, thi)
            &&& forall|k: int|
                0 <= k < closing(m, tlo, thi).len() ==> ts[7 + nf + nc + k] == #[trigger] closing(
                    m,
                    tlo,
                    thi,
                )[k]
        }),
{
    let ts = texts(m, lo, hi, tlo, thi);
    let a = opening(m);
    let b = list_of("feature_names"@, strings_of(m.feature_names@));
    let c = middle(lo, hi);
    let d = list_of("class_names"@, strings_of(m.class_names@));
    let e = closing(m, tlo, thi);
    let nf = m.feature_names@.len() as int;
    let nc = m.class_names@.len() as int;
    assert(a.len() == 4 && b.len() == 1 + nf && c.len() == 1 && d.len() == 1 + nc);
    assert(ts =~= a + b + c + d + e);
    assert forall|k: int| 0 <= k < 4 implies ts[k] == #[trigger] a[k] by {}
    assert forall|k: int| 0 <= k < b.len() implies ts[4 + k] == #[trigger] b[k] by {}
    assert(ts[5 + nf] == c[0]);
    assert forall|k: int| 0 <= k < d.len() implies ts[6 + nf + k] == #[trigger] d[k] by {}
    assert forall|k: int| 0 <= k < e.len() implies ts[7 + nf + nc + k] == #[trigger] e[k] by {}
    assert(ts[0] == a[0] && ts[1] == a[1] && ts[2] == a[2] && ts[3] == a[3]);
    assert(ts[4int + 0] == b[0]);
    assert(ts[6 + nf + 0] == d[0]);
    assert(ts.skip(4) =~= b + ts.skip(5 + nf));
    assert(ts.skip(6 + nf) =~= d + ts.skip(7 + nf + nc));
    assert(ts.skip(7 + nf + nc) =~= e);
    assert forall|j: int| 0 <= j < ts.len() && opens(#[trigger] ts[j]) implies is_key_place(
        j,
        nf,
        nc,
    ) by {
        if j < 4 {
            assert(ts[j] == a[j]);
        } else if j < 5 + nf {
            assert(ts[4 + (j - 4)] == b[j - 4]);
            if j > 4 {
                assert(b[j - 4] == items(strings_of(m.feature_names@))[j - 5]);
            }
        } else if 6 + nf <= j < 7 + nf + nc {
            assert(ts[6 + nf + (j - 6 - nf)] == d[j - 6 - nf]);
            if j > 6 + nf {
                assert(d[j - 6 - nf] == items(strings_of(m.class_names@))[j - 7 - nf]);
            }
        } else if 7 + nf + nc <= j {
            assert(ts[7 + nf + nc + (j - 7 - nf - nc)] == e[j - 7 - nf - nc]);
        }
    }
}

/// Neither of two texts holds a character that their union does not.
proof fn lemma_free(a: Seq<char>, b: Seq<char>, c: char)
    requires
        !a.contains(c),
        !b.contains(c),
    ensures
        !(a + b).contains(c),
{
    let s = a + b;
    if s.contains(c) {
        let k = s.index_of(c);
        if k < a.len() {
            assert(a[k] == c);
        } else {
            assert(b[k - a.len()] == c);
        }
    }
}

proof fn lemma_pair_free(lo: Seq<char>, hi: Seq<char>)
    requires
        is_number_text(lo),
        is_number_text(hi),
    ensures
        !bracketed(lo, hi).contains('"'),
{
    let q = '"';
    assert(!seq!['['].contains(q) && !seq![','].contains(q) && !seq![']'].contains(q));
    lemma_free(seq!['['], lo, q);
    lemma_free(seq!['['] + lo, seq![','], q);
    lemma_free(seq!['['] + lo + seq![','], hi, q);
    lemma_free(seq!['['] + lo + seq![','] + hi, seq![']'], q);
}

proof fn lemma_joined_free(parts: Seq<Seq<char>>)
    requires
        forall|i: int| 0 <= i < parts.len() ==> !(#[trigger] parts[i]).contains('"'),
    ensures
        !joined_by(parts, ',').contains('"'),
    decreases parts.len(),
{
    if parts.len() == 1 {
        assert(!parts[0].contains('"'));
    } else if parts.len() > 1 {
        let rest = parts.drop_first();
        assert forall|i: int| 0 <= i < rest.len() implies !(#[trigger] rest[i]).contains('"') by {
            assert(rest[i] == parts[i + 1]);
        }
        lemma_joined_free(rest);
        assert(!parts[0].contains('"'));
        assert(!seq![','].contains('"'));
        lemma_free(parts[0], seq![','], '"');
        lemma_free(parts[0] + seq![','], joined_by(rest, ','), '"');
    }
}

/// Texts of numbers that can stand between brackets.
pub open spec fn are_number_texts(lo: Seq<Seq<char>>, hi: Seq<Seq<char>>) -> bool {
    &&& lo.len() == hi.len()
    &&& forall|k: int| 0 <= k < lo.len() ==> is_number_text(#[trigger] lo[k])
    &&& forall|k: int| 0 <= k < hi.len() ==> is_number_text(#[trigger] hi[k])
}

proof fn lemma_ranges_free(lo: Seq<Seq<char>>, hi: Seq<Seq<char>>)
    requires
        are_number_texts(lo, hi),
    ensures
        !bracketed_list(lo, hi).contains('"'),
{
    let parts = Seq::new(lo.len(), |i: int| bracketed(lo[i], hi[i]));
    assert forall|i: int| 0 <= i < parts.len() implies !(#[trigger] parts[i]).contains('"') by {
        assert(is_number_text(lo[i]) && is_number_text(hi[i]));
        lemma_pair_free(lo[i], hi[i]);
    }
    lemma_joined_free(parts);
}

proof fn lemma_number_free(n: nat)
    ensures
        !dec(n).contains('"'),
{
    lemma_digits(n);
    if dec(n).contains('"') {
        let k = dec(n).index_of('"');
        assert(is_digit(dec(n)[k]));
    }
}

proof fn lemma_fit_joined(a: Seq<(Seq<char>, Seq<char>)>, b: Seq<(Seq<char>, Seq<char>)>)
    requires
        is_tidy(a),
        is_tidy(b),
    ensures
        is_tidy(a + b),
{
    let s = a + b;
    assert forall|i: int| 0 <= i < s.len() implies is_fit(#[trigger] s[i]) by {
        if i < a.len() {
            assert(s[i] == a[i]);
        } else {
            assert(s[i] == b[i - a.len()]);
        }
    }
}

proof fn lemma_list_fit(key: Seq<char>, v: Seq<Seq<char>>)
    requires
        is_key(key),
    ensures
        is_tidy(list_of(key, v)),
{
    lemma_plain_shields(key);
    assert(!seq![':', '[', ']', ','].contains('"'));
    assert(!seq![':', '['].contains('"'));
    assert(!seq![']', ','].contains('"'));
    assert(!seq![','].contains('"'));
    let all = items(v);
    assert forall|i: int| 0 <= i < all.len() implies is_fit(#[trigger] all[i]) by {
        lemma_escaped_shields(v[i]);
    }
    if v.len() > 0 {
        let one = seq![(key, seq![':', '['])];
        assert(is_tidy(one));
        lemma_fit_joined(one, all);
    }
}

/// A text without quotes shields them.
proof fn lemma_plain_shields(t: Seq<char>)
    requires
        !t.contains('"'),
    ensures
        is_shielded(t),
{
    assert forall|k: int| 0 <= k < t.len() && #[trigger] t[k] == '"' implies k > 0 && t[k - 1] == '\\' by {
        assert(t.contains(t[k]));
    }
}

/// A text without quotes and backslashes stands between quotes as it is.
proof fn lemma_plain_escaped(s: Seq<char>)
    requires
        !s.contains('"'),
        !s.contains('\\'),
    ensures
        escaped(s) == s,
    decreases s.len(),
{
    if s.len() > 0 {
        let init = s.drop_last();
        assert forall|i: int| 0 <= i < init.len() implies init[i] != '"' && init[i] != '\\' by {
            assert(s.contains(s[i]));
        }
        lemma_plain_escaped(init);
        assert(s.contains(s.last()));
        assert(init + seq![s.last()] =~= s);
    }
}

proof fn lemma_task_name(t: TaskType)
    ensures
        !task_name(t).contains('"'),
        !task_name(t).contains('\\'),
{
    reveal_strlit("classification");
    reveal_strlit("regression");
    reveal_strlit("transformer_slm");
    assert(!"classification"@.contains('"') && !"classification"@.contains('\\'));
    assert(!"regression"@.contains('"') && !"regression"@.contains('\\'));
    assert(!"transformer_slm"@.contains('"') && !"transformer_slm"@.contains('\\'));
}

proof fn lemma_closing_fit(m: ModelMetadata, tlo: Seq<char>, thi: Seq<char>)
    requires
        is_number_text(tlo),
        is_number_text(thi),
    ensures
        is_tidy(closing(m, tlo, thi)),
{
    lemma_keys();
    let q = '"';
    assert(!seq![':'].contains(q) && !seq![','].contains(q) && !seq!['}'].contains(q));
    lemma_pair_free(tlo, thi);
    lemma_number_free(m.input_dim as nat);
    lemma_number_free(m.output_dim as nat);
    lemma_free(seq![':'], bracketed(tlo, thi), q);
    lemma_free(seq![':'] + bracketed(tlo, thi), seq![','], q);
    lemma_free(seq![':'], dec(m.input_dim as nat), q);
    lemma_free(seq![':'] + dec(m.input_dim as nat), seq![','], q);
    lemma_free(seq![':'], dec(m.output_dim as nat), q);
    lemma_free(seq![':'] + dec(m.output_dim as nat), seq![','], q);
    lemma_free(seq![':'] + dec(m.output_dim as nat), seq!['}'], q);
    lemma_escaped_shields(m.target_name@);
    lemma_escaped_shields(m.tokenizer_state@);
    lemma_plain_shields("target_name"@);
    lemma_plain_shields("target_range"@);
    lemma_plain_shields("input_dim"@);
    lemma_plain_shields("output_dim"@);
    lemma_plain_shields("tokenizer_state"@);
    let e = closing(m, tlo, thi);
    assert forall|i: int| 0 <= i < e.len() implies is_fit(#[trigger] e[i]) by {}
}

proof fn lemma_tidy(
    m: ModelMetadata,
    lo: Seq<Seq<char>>,
    hi: Seq<Seq<char>>,
    tlo: Seq<char>,
    thi: Seq<char>,
)
    requires
        are_number_texts(lo, hi),
        is_number_text(tlo),
        is_number_text(thi),
    ensures
        is_tidy(texts(m, lo, hi, tlo, thi)),
{
    lemma_keys();
    let q = '"';
    let a = opening(m);
    let b = list_of("feature_names"@, strings_of(m.feature_names@));
    let c = middle(lo, hi);
    let d = list_of("class_names"@, strings_of(m.class_names@));
    let e = closing(m, tlo, thi);
    assert(!seq![':'].contains(q) && !seq![','].contains(q));
    assert(!seq![':', '['].contains(q) && !seq![']', ','].contains(q));
    lemma_task_name(m.task);
    lemma_plain_shields(task_name(m.task));
    lemma_plain_shields("dataset_name"@);
    lemma_plain_shields("task"@);
    lemma_plain_shields("feature_ranges"@);
    lemma_escaped_shields(m.dataset_name@);
    assert(is_tidy(a));
    lemma_list_fit("feature_names"@, strings_of(m.feature_names@));
    lemma_ranges_free(lo, hi);
    lemma_free(seq![':', '['], bracketed_list(lo, hi), q);
    lemma_free(seq![':', '['] + bracketed_list(lo, hi), seq![']', ','], q);
    assert(is_tidy(c));
    lemma_list_fit("class_names"@, strings_of(m.class_names@));
    lemma_closing_fit(m, tlo, thi);
    lemma_fit_joined(a, b);
    lemma_fit_joined(a + b, c);
    lemma_fit_joined(a + b + c, d);
    lemma_fit_joined(a + b + c + d, e);
}

/// What each key has for a value.
#[verifier::rlimit(60)]
#[verifier::spinoff_prover]
proof fn lemma_values(
    m: ModelMetadata,
    lo: Seq<Seq<char>>,
    hi: Seq<Seq<char>>,
    tlo: Seq<char>,
    thi: Seq<char>,
)
    requires
        are_number_texts(lo, hi),
        is_number_text(tlo),
        is_number_text(thi),
    ensures
        ({
            let ts = texts(m, lo, hi, tlo, thi);
            let s = seq!['{'] + laid(ts);
            let nf = m.feature_names@.len() as int;
            let nc = m.class_names@.len() as int;
            &&& value_at(s, "dataset_name"@) == Some(
                trim_start(ts[0].1.drop_first() + laid(ts.skip(1))),
            )
            &&& value_at(s, "task"@) == Some(
                trim_start(ts[2].1.drop_first() + laid(ts.skip(3))),
            )
            &&& value_at(s, "feature_names"@) == Some(
                trim_start(ts[4].1.drop_first() + laid(ts.skip(5))),
            )
            &&& value_at(s, "feature_ranges"@) == Some(
                trim_start(ts[5 + nf].1.drop_first() + laid(ts.skip(6 + nf))),
            )
            &&& value_at(s, "class_names"@) == Some(
                trim_start(ts[6 + nf].1.drop_first() + laid(ts.skip(7 + nf))),
            )
            &&& value_at(s, "target_name"@) == Some(
                trim_start(ts[7 + nf + nc].1.drop_first() + laid(ts.skip(8 + nf + nc))),
            )
            &&& value_at(s, "target_range"@) == Some(
                trim_start(ts[9 + nf + nc].1.drop_first() + laid(ts.skip(10 + nf + nc))),
            )
            &&& value_at(s, "input_dim"@) == Some(
                trim_start(ts[10 + nf + nc].1.drop_first() + laid(ts.skip(11 + nf + nc))),
            )
            &&& value_at(s, "output_dim"@) == Some(
                trim_start(ts[11 + nf + nc].1.drop_first() + laid(ts.skip(12 + nf + nc))),
            )
            &&& m.tokenizer_state@.len() > 0 ==> value_at(s, "tokenizer_state"@) == Some(
                trim_start(ts[12 + nf + nc].1.drop_first() + laid(ts.skip(13 + nf + nc))),
            )
            &&& m.tokenizer_state@.len() == 0 ==> value_at(s, "tokenizer_state"@) is None
        }),
{
    lemma_keys();
    lemma_places(m, lo, hi, tlo, thi);
    lemma_tidy(m, lo, hi, tlo, thi);
    let ts = texts(m, lo, hi, tlo, thi);
    let e = closing(m, tlo, thi);
    let nf = m.feature_names@.len() as int;
    let nc = m.class_names@.len() as int;
    assert(ts[7 + nf + nc + 0] == e[0]);
    assert(ts[7 + nf + nc + 2] == e[2]);
    assert(ts[7 + nf + nc + 3] == e[3]);
    assert(ts[7 + nf + nc + 4] == e[4]);
    assert forall|j: int| 0 <= j < 0 implies !names(#[trigger] ts[j], "dataset_name"@) by {
        assert(opens(ts[j]) ==> is_key_place(j, nf, nc));
    }
    lemma_value(ts, "dataset_name"@, (0) as nat);
    assert forall|j: int| 0 <= j < 2 implies !names(#[trigger] ts[j], "task"@) by {
        assert(opens(ts[j]) ==> is_key_place(j, nf, nc));
    }
    lemma_value(ts, "task"@, (2) as nat);
    assert forall|j: int| 0 <= j < 4 implies !names(#[trigger] ts[j], "feature_names"@) by {
        assert(opens(ts[j]) ==> is_key_place(j, nf, nc));
    }
    lemma_value(ts, "feature_names"@, (4) as nat);
    assert forall|j: int| 0 <= j < 5 + nf implies !names(#[trigger] ts[j], "feature_ranges"@) by {
        assert(opens(ts[j]) ==> is_key_place(j, nf, nc));
    }
    lemma_value(ts, "feature_ranges"@, (5 + nf) as nat);
    assert forall|j: int| 0 <= j < 6 + nf implies !names(#[trigger] ts[j], "class_names"@) by {
        assert(opens(ts[j]) ==> is_key_place(j, nf, nc));
    }
    lemma_value(ts, "class_names"@, (6 + nf) as nat);
    assert forall|j: int| 0 <= j < 7 + nf + nc implies !names(#[trigger] ts[j], "target_name"@) by {
        assert(opens(ts[j]) ==> is_key_place(j, nf, nc));
    }
    lemma_value(ts, "target_name"@, (7 + nf + nc) as nat);
    assert forall|j: int| 0 <= j < 9 + nf + nc implies !names(#[trigger] ts[j], "target_range"@) by {
        assert(opens(ts[j]) ==> is_key_place(j, nf, nc));
    }
    lemma_value(ts, "target_range"@, (9 + nf + nc) as nat);
    assert forall|j: int| 0 <= j < 10 + nf + nc implies !names(#[trigger] ts[j], "input_dim"@) by {
        assert(opens(ts[j]) ==> is_key_place(j, nf, nc));
    }
    lemma_value(ts, "input_dim"@, (10 + nf + nc) as nat);
    assert forall|j: int| 0 <= j < 11 + nf + nc implies !names(#[trigger] ts[j], "output_dim"@) by {
        assert(opens(ts[j]) ==> is_key_place(j, nf, nc));
    }
    lemma_value(ts, "output_dim"@, (11 + nf + nc) as nat);
    if m.tokenizer_state@.len() > 0 {
        assert(ts[7 + nf + nc + 5] == e[5]);
        assert forall|j: int| 0 <= j < 12 + nf + nc implies !names(
            #[trigger] ts[j],
            "tokenizer_state"@,
        ) by {
            assert(opens(ts[j]) ==> is_key_place(j, nf, nc));
        }
        lemma_value(ts, "tokenizer_state"@, (12 + nf + nc) as nat);
    } else {
        assert forall|j: int| 0 <= j < ts.len() implies !names(#[trigger] ts[j], "tokenizer_state"@) by {
            assert(opens(ts[j]) ==> is_key_place(j, nf, nc));
        }
        lemma_no_value(ts, "tokenizer_state"@);
    }
}

/// A text that follows its key is read back.
proof fn lemma_text_follows(ts: Seq<(Seq<char>, Seq<char>)>, i: int, name: Seq<char>)
    requires
        0 <= i,
        i + 1 < ts.len(),
        ts[i].1 == seq![':'],
        ts[i + 1].0 == escaped(name),
    ensures
        text_value(trim_start(ts[i].1.drop_first() + laid(ts.skip(i + 1)))) == Some(name),
{
    let rest = ts.skip(i + 1);
    assert(rest[0] == ts[i + 1]);
    let tail = rest[0].1 + laid(rest.drop_first());
    assert(ts[i].1.drop_first() + laid(rest) =~= seq!['"'] + escaped(name) + seq!['"'] + tail);
    lemma_text_reads(name, tail);
}

/// A list that follows its key is read back.
proof fn lemma_list_follows(ts: Seq<(Seq<char>, Seq<char>)>, i: int, key: Seq<char>, v: Seq<Seq<char>>)
    requires
        0 <= i < ts.len(),
        i + 1 + v.len() <= ts.len(),
        ts.skip(i) == list_of(key, v) + ts.skip(i + 1 + v.len()),
    ensures
        rd_names(behind_bracket(trim_start(ts[i].1.drop_first() + laid(ts.skip(i + 1))))) == v,
{
    let rest = ts.skip(i + 1 + v.len());
    let list = list_of(key, v);
    assert(ts[i] == ts.skip(i)[0]);
    assert(ts[i] == list[0]);
    let w = ts[i].1.drop_first() + laid(ts.skip(i + 1));
    if v.len() == 0 {
        assert(ts[i].1.drop_first() =~= seq!['[', ']', ',']);
        assert(w[0] == '[');
        assert(trim_start(w) == w);
        assert(w.skip(1)[0] == ']');
        assert(rd_names(w.skip(1)) =~= v);
    } else {
        assert(ts.skip(i + 1) =~= items(v) + rest) by {
            assert(ts.skip(i + 1) =~= ts.skip(i).drop_first());
            assert((list + rest).drop_first() =~= items(v) + rest);
        }
        lemma_laid_joined(items(v), rest);
        assert(ts[i].1.drop_first() =~= seq!['[']);
        assert(w[0] == '[');
        assert(trim_start(w) == w);
        assert(w.skip(1) =~= laid(items(v)) + laid(rest));
        lemma_items_read(v, laid(rest));
    }
}

/// Two texts.
pub open spec fn both(lo: Seq<char>, hi: Seq<char>) -> Seq<Seq<char>> {
    seq![lo, hi]
}

/// The numbers that two texts read as: those of the texts that are numbers, or
/// zero and one in their place.
pub open spec fn pair_of_texts<D: Decimals>(d: &D, lo: Seq<char>, hi: Seq<char>, r: Seq<F32>) -> bool {
    exists|vals: Seq<Option<F32>>| #[trigger]
        parts_read(d, both(lo, hi), vals) && r == first_two(numbers_among(vals))
}

proof fn lemma_pair_of_texts<D: Decimals>(
    d: &D,
    v: Seq<char>,
    lo: Seq<char>,
    hi: Seq<char>,
    r: Seq<F32>,
)
    requires
        pair_read(d, v, r),
        bracket_parts(v) == seq![lo, hi],
    ensures
        pair_of_texts(d, lo, hi, r),
{
    let vals = choose|vals: Seq<Option<F32>>| #[trigger]
        parts_read(d, bracket_parts(v), vals) && r == first_two(numbers_among(vals));
    assert(parts_read(d, both(lo, hi), vals));
}

/// JSON that was written is not refused: it holds the task that was written,
/// whatever the texts hold.
pub proof fn written_tasks_are_found(
    m: ModelMetadata,
    lo: Seq<Seq<char>>,
    hi: Seq<Seq<char>>,
    tlo: Seq<char>,
    thi: Seq<char>,
)
    requires
        are_number_texts(lo, hi),
        is_number_text(tlo),
        is_number_text(thi),
    ensures
        json_task(m.json(lo, hi, tlo, thi)) == Some(m.task),
{
    let ts = texts(m, lo, hi, tlo, thi);
    lemma_json(m, lo, hi, tlo, thi);
    lemma_values(m, lo, hi, tlo, thi);
    lemma_places(m, lo, hi, tlo, thi);
    lemma_task_name(m.task);
    lemma_plain_escaped(task_name(m.task));
    lemma_text_follows(ts, 2, task_name(m.task));
    task_names_round_trip(m.task);
}

/// Reading is the inverse of writing: metadata are read back from their JSON,
/// whatever their texts hold. Every range is what its two texts read as.
pub proof fn metadata_are_read_back<D: Decimals>(
    d: &D,
    m: ModelMetadata,
    lo: Seq<Seq<char>>,
    hi: Seq<Seq<char>>,
    tlo: Seq<char>,
    thi: Seq<char>,
    r: ModelMetadata,
)
    requires
        are_number_texts(lo, hi),
        is_number_text(tlo),
        is_number_text(thi),
        r.is_read(d, m.json(lo, hi, tlo, thi)),
    ensures
        r.dataset_name@ == m.dataset_name@,
        strings_of(r.feature_names@) == strings_of(m.feature_names@),
        strings_of(r.class_names@) == strings_of(m.class_names@),
        r.target_name@ == m.target_name@,
        r.input_dim == m.input_dim,
        r.output_dim == m.output_dim,
        r.tokenizer_state@ == m.tokenizer_state@,
        r.feature_ranges@.len() == lo.len(),
        forall|i: int|
            0 <= i < lo.len() ==> pair_of_texts(d, lo[i], hi[i], (#[trigger] r.feature_ranges@[i])@),
        pair_of_texts(d, tlo, thi, r.target_range@),
{
    let ts = texts(m, lo, hi, tlo, thi);
    let e = closing(m, tlo, thi);
    let nf = m.feature_names@.len() as int;
    let nc = m.class_names@.len() as int;
    let base = 7 + nf + nc;
    lemma_json(m, lo, hi, tlo, thi);
    lemma_values(m, lo, hi, tlo, thi);
    lemma_places(m, lo, hi, tlo, thi);
    lemma_text_follows(ts, 0, m.dataset_name@);
    lemma_list_follows(ts, 4, "feature_names"@, strings_of(m.feature_names@));
    lemma_list_follows(ts, 6 + nf, "class_names"@, strings_of(m.class_names@));
    assert(ts[base + 0] == e[0]);
    assert(ts[base + 1] == e[1]);
    assert(ts[base + 2] == e[2]);
    assert(ts[base + 3] == e[3]);
    assert(ts[base + 4] == e[4]);
    lemma_text_follows(ts, base, m.target_name@);
    lemma_ranges_follow(ts, 5 + nf, lo, hi);
    lemma_pair_follows(ts, base + 2, tlo, thi);
    lemma_size_follows(ts, base + 3, m.input_dim, ',');
    lemma_size_follows(
        ts,
        base + 4,
        m.output_dim,
        if m.tokenizer_state@.len() == 0 {
            '}'
        } else {
            ','
        },
    );
    if m.tokenizer_state@.len() > 0 {
        assert(ts[base + 5] == e[5]);
        assert(ts[base + 6] == e[6]);
        lemma_text_follows(ts, base + 5, m.tokenizer_state@);
    }
    let w = value_at(m.json(lo, hi, tlo, thi), "target_range"@)->0;
    lemma_pair_of_texts(d, w, tlo, thi, r.target_range@);
    let v = value_at(m.json(lo, hi, tlo, thi), "feature_ranges"@)->0;
    assert forall|i: int| 0 <= i < lo.len() implies pair_of_texts(
        d,
        lo[i],
        hi[i],
        (#[trigger] r.feature_ranges@[i])@,
    ) by {
        assert(pair_read(d, spans(v)[i], r.feature_ranges@[i]@));
        assert(is_number_text(lo[i]) && is_number_text(hi[i]));
        lemma_pair_parts(lo[i], hi[i], Seq::empty());
        assert(bracketed(lo[i], hi[i]) + Seq::<char>::empty() =~= bracketed(lo[i], hi[i]));
        lemma_pair_of_texts(d, spans(v)[i], lo[i], hi[i], r.feature_ranges@[i]@);
    }
}

/// The ranges that follow their key are found.
proof fn lemma_ranges_follow(
    ts: Seq<(Seq<char>, Seq<char>)>,
    i: int,
    lo: Seq<Seq<char>>,
    hi: Seq<Seq<char>>,
)
    requires
        0 <= i < ts.len(),
        are_number_texts(lo, hi),
        ts[i] == middle(lo, hi)[0],
    ensures
        spans(trim_start(ts[i].1.drop_first() + laid(ts.skip(i + 1)))) == Seq::new(
            lo.len(),
            |k: int| bracketed(lo[k], hi[k]),
        ),
{
    let list = bracketed_list(lo, hi);
    let tail = seq![','] + laid(ts.skip(i + 1));
    assert(ts[i].1.drop_first() + laid(ts.skip(i + 1)) =~= seq!['['] + list + seq![']'] + tail);
    lemma_spans(lo, hi, tail);
}

/// A range that follows its key is found.
proof fn lemma_pair_follows(
    ts: Seq<(Seq<char>, Seq<char>)>,
    i: int,
    lo: Seq<char>,
    hi: Seq<char>,
)
    requires
        0 <= i < ts.len(),
        is_number_text(lo),
        is_number_text(hi),
        ts[i].1 == seq![':'] + bracketed(lo, hi) + seq![','],
    ensures
        bracket_parts(trim_start(ts[i].1.drop_first() + laid(ts.skip(i + 1)))) == seq![lo, hi],
{
    let tail = seq![','] + laid(ts.skip(i + 1));
    let v = ts[i].1.drop_first() + laid(ts.skip(i + 1));
    assert(v =~= bracketed(lo, hi) + tail);
    assert(v[0] == '[');
    assert(trim_start(v) == v);
    lemma_pair_parts(lo, hi, tail);
}

/// A number that follows its key is read back.
proof fn lemma_size_follows(ts: Seq<(Seq<char>, Seq<char>)>, i: int, n: usize, c: char)
    requires
        0 <= i < ts.len(),
        c == ',' || c == '}',
        ts[i].1 == seq![':'] + dec(n as nat) + seq![c],
    ensures
        ({
            let v = trim_start(ts[i].1.drop_first() + laid(ts.skip(i + 1)));
            size_value(trim(v.subrange(0, entry_end(v)))) == Some(n)
        }),
{
    let tail = laid(ts.skip(i + 1));
    assert(ts[i].1.drop_first() + tail =~= dec(n as nat) + seq![c] + tail);
    lemma_size_reads(n, c, tail);
}

/// Two numbers differ by at most a millionth.
pub open spec fn is_within_a_millionth(a: F32, b: F32) -> bool {
    let gap = a.units() - b.units();
    a.finite_spec() && -pow2(149) <= gap * 1_000_000 <= pow2(149)
}

/// Texts with six digits behind the point hold no mark of JSON, and read as the
/// number that was written, up to a millionth.
pub open spec fn six_digits_are_kept<D: Decimals>(d: &D) -> bool {
    &&& forall|x: F32, t: Seq<char>| #[trigger]
        is_fixed(d, x, 6, t) && x.finite_spec() ==> is_number_text(t)
    &&& forall|x: F32, t: Seq<char>, r: Option<F32>| #[trigger]
        is_fixed(d, x, 6, t) && #[trigger] is_parse(d, trim(t), r) && x.finite_spec() ==> r is Some
            && is_within_a_millionth(r->0, x)
}

/// Both ends of a range are kept, up to a millionth.
pub open spec fn range_kept(a: Seq<F32>, b: Seq<F32>) -> bool {
    is_within_a_millionth(a[0], b[0]) && is_within_a_millionth(a[1], b[1])
}

/// Both ends of a range are finite.
pub open spec fn range_finite(a: Seq<F32>) -> bool {
    a[0].finite_spec() && a[1].finite_spec()
}

/// A range reads as what was written, up to a millionth.
proof fn lemma_range_kept<D: Decimals>(
    d: &D,
    a: Seq<F32>,
    lo: Seq<char>,
    hi: Seq<char>,
    r: Seq<F32>,
)
    requires
        six_digits_are_kept(d),
        range_finite(a),
        is_fixed(d, a[0], 6, lo),
        is_fixed(d, a[1], 6, hi),
        pair_of_texts(d, lo, hi, r),
    ensures
        range_kept(r, a),
{
    let vals = choose|vals: Seq<Option<F32>>| #[trigger]
        parts_read(d, both(lo, hi), vals) && r == first_two(numbers_among(vals));
    assert(both(lo, hi)[0] == lo && both(lo, hi)[1] == hi);
    assert(is_parse(d, trim(lo), vals[0]));
    assert(is_parse(d, trim(hi), vals[1]));
    assert(vals.drop_last().drop_last().len() == 0);
    assert(vals.drop_last().last() == vals[0]);
    reveal_with_fuel(numbers_among, 3);
    assert(numbers_among(vals) =~= seq![vals[0]->0, vals[1]->0]);
}

/// Metadata survive being written and read, the ends of finite ranges up to a
/// millionth.
pub proof fn written_metadata_are_read_back<D: Decimals>(
    d: &D,
    m: ModelMetadata,
    lo: Seq<Seq<char>>,
    hi: Seq<Seq<char>>,
    tlo: Seq<char>,
    thi: Seq<char>,
    s: Seq<char>,
    r: ModelMetadata,
)
    requires
        six_digits_are_kept(d),
        m.written(d, lo, hi, tlo, thi, s),
        forall|i: int|
            0 <= i < m.feature_ranges@.len() ==> range_finite((#[trigger] m.feature_ranges@[i])@),
        range_finite(m.target_range@),
        r.is_read(d, s),
    ensures
        json_task(s) == Some(m.task),
        r.dataset_name@ == m.dataset_name@,
        strings_of(r.feature_names@) == strings_of(m.feature_names@),
        strings_of(r.class_names@) == strings_of(m.class_names@),
        r.target_name@ == m.target_name@,
        r.input_dim == m.input_dim,
        r.output_dim == m.output_dim,
        r.tokenizer_state@ == m.tokenizer_state@,
        r.feature_ranges@.len() == m.feature_ranges@.len(),
        forall|i: int|
            0 <= i < m.feature_ranges@.len() ==> range_kept(
                (#[trigger] r.feature_ranges@[i])@,
                m.feature_ranges@[i]@,
            ),
        range_kept(r.target_range@, m.target_range@),
{
    assert forall|k: int| 0 <= k < lo.len() implies is_number_text(#[trigger] lo[k]) by {
        assert(range_finite(m.feature_ranges@[k]@));
        assert(is_fixed(d, m.feature_ranges@[k]@[0], 6, lo[k]));
    }
    assert forall|k: int| 0 <= k < hi.len() implies is_number_text(#[trigger] hi[k]) by {
        assert(range_finite(m.feature_ranges@[k]@));
        assert(is_fixed(d, m.feature_ranges@[k]@[1], 6, hi[k]));
    }
    written_tasks_are_found(m, lo, hi, tlo, thi);
    metadata_are_read_back(d, m, lo, hi, tlo, thi, r);
    assert forall|i: int| 0 <= i < m.feature_ranges@.len() implies range_kept(
        (#[trigger] r.feature_ranges@[i])@,
        m.feature_ranges@[i]@,
    ) by {
        assert(range_finite(m.feature_ranges@[i]@));
        lemma_range_kept(d, m.feature_ranges@[i]@, lo[i], hi[i], r.feature_ranges@[i]@);
    }
    lemma_range_kept(d, m.target_range@, tlo, thi, r.target_range@);
}

} // verus!
