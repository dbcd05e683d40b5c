//! Splitting, trimming and searching text.
use crate::text_index::texts_of;
use vstd::prelude::*;

verus! {

/// White space of Unicode.
pub open spec fn is_blank(c: char) -> bool {
    let k = (c as u32) as int;
    9 <= k <= 13 || k == 32 || k == 0x85 || k == 0xa0 || k == 0x1680 || 0x2000 <= k <= 0x200a || k
        == 0x2028 || k == 0x2029 || k == 0x202f || k == 0x205f || k == 0x3000
}

/// Control characters of ASCII.
pub open spec fn is_control(c: char) -> bool {
    let k = (c as u32) as int;
    k < 0x20 || k == 0x7f
}

/// Whether a character is white space.
pub fn white(c: char) -> (b: bool)
    ensures
        b == is_blank(c),
{
    let k: u32 = c as u32;
    (9 <= k && k <= 13) || k == 32 || k == 0x85 || k == 0xa0 || k == 0x1680 || (0x2000 <= k && k
        <= 0x200a) || k == 0x2028 || k == 0x2029 || k == 0x202f || k == 0x205f || k == 0x3000
}

/// Whether a character is a control character of ASCII.
pub fn control(c: char) -> (b: bool)
    ensures
        b == is_control(c),
{
    let k: u32 = c as u32;
    k < 0x20 || k == 0x7f
}

/// The characters from `a` to `b`.
pub fn slice_of(s: &[char], a: usize, b: usize) -> (v: Vec<char>)
    requires
        a <= b <= s@.len(),
    ensures
        v@ == s@.subrange(a as int, b as int),
{
    let mut v: Vec<char> = Vec::new();
    let mut i: usize = a;
    while i < b
        invariant
            a <= i <= b <= s@.len(),
            v@ == s@.subrange(a as int, i as int),
        decreases b - i,
    {
        v.push(s[i]);
        proof {
            assert(s@.subrange(a as int, i + 1) =~= s@.subrange(a as int, i as int).push(
                s@[i as int],
            ));
        }
        i = i + 1;
    }
    v
}

/// Appends characters.
pub fn push_chars(out: &mut Vec<char>, s: &[char])
    ensures
        final(out)@ == old(out)@ + s@,
{
    let ghost before = out@;
    let mut i: usize = 0;
    assert(before + s@.subrange(0, 0) =~= before);
    while i < s.len()
        invariant
            i <= s@.len(),
            out@ == before + s@.subrange(0, i as int),
        decreases s@.len() - i,
    {
        out.push(s[i]);
        proof {
            assert(before + s@.subrange(0, i + 1) =~= (before + s@.subrange(0, i as int)).push(
                s@[i as int],
            ));
        }
        i = i + 1;
    }
    assert(s@.subrange(0, s@.len() as int) =~= s@);
}

// ---------------------------------------------------------------------------
// Splitting
// ---------------------------------------------------------------------------

/// The first place of a character from `i` on, or the end.
pub open spec fn place_of(s: Seq<char>, c: char, i: int) -> int
    decreases s.len() - i,
{
    if 0 <= i < s.len() && s[i] != c {
        place_of(s, c, i + 1)
    } else {
        i
    }
}

pub proof fn lemma_place(s: Seq<char>, c: char, i: int)
    requires
        0 <= i <= s.len(),
    ensures
        i <= place_of(s, c, i) <= s.len(),
        place_of(s, c, i) < s.len() ==> s[place_of(s, c, i)] == c,
        forall|k: int| i <= k < place_of(s, c, i) ==> s[k] != c,
    decreases s.len() - i,
{
    if i < s.len() && s[i] != c {
        lemma_place(s, c, i + 1);
    }
}

/// The first place of a character from `i` on, or the end.
pub fn place_exec(s: &[char], c: char, i: usize) -> (p: usize)
    requires
        i <= s@.len(),
    ensures
        p == place_of(s@, c, i as int),
        i <= p <= s@.len(),
        p < s@.len() ==> s@[p as int] == c,
{
    let mut p: usize = i;
    while p < s.len()
        invariant
            i <= p <= s@.len(),
            place_of(s@, c, i as int) == place_of(s@, c, p as int),
        decreases s@.len() - p,
    {
        if s[p] == c {
            return p;
        }
        p = p + 1;
    }
    p
}

/// The pieces between separators, from `i` on.
pub open spec fn split_from(s: Seq<char>, c: char, i: int) -> Seq<Seq<char>>
    decreases s.len() - i,
{
    let e = place_of(s, c, i);
    if 0 <= i <= e < s.len() {
        seq![s.subrange(i, e)] + split_from(s, c, e + 1)
    } else {
        seq![s.subrange(i, s.len() as int)]
    }
}

/// The pieces between separators.
pub open spec fn split_on(s: Seq<char>, c: char) -> Seq<Seq<char>> {
    split_from(s, c, 0)
}

/// The pieces between separators.
pub fn split_exec(s: &[char], c: char) -> (r: Vec<Vec<char>>)
    ensures
        texts_of(r@) == split_on(s@, c),
        r@.len() >= 1,
{
    let mut r: Vec<Vec<char>> = Vec::new();
    let mut i: usize = 0;
    assert(texts_of(r@) + split_from(s@, c, 0) =~= split_from(s@, c, 0));
    loop
        invariant
            i <= s@.len(),
            texts_of(r@) + split_from(s@, c, i as int) == split_on(s@, c),
        decreases s@.len() - i,
    {
        let e: usize = place_exec(s, c, i);
        let ghost before = texts_of(r@);
        r.push(slice_of(s, i, e));
        let ghost piece = s@.subrange(i as int, e as int);
        assert(texts_of(r@) =~= before.push(piece));
        if e >= s.len() {
            assert(texts_of(r@) =~= before + seq![piece]);
            return r;
        }
        proof {
            let rest = split_from(s@, c, e + 1);
            assert(texts_of(r@) + rest =~= before + (seq![piece] + rest));
        }
        i = e + 1;
    }
}

/// A line without the carriage return at its end.
pub open spec fn without_return(s: Seq<char>) -> Seq<char> {
    if s.len() > 0 && s.last() == '\r' {
        s.drop_last()
    } else {
        s
    }
}

/// The lines from `i` on. A carriage return goes with the line feed behind it;
/// the last line may lack its line feed.
pub open spec fn lines_from(s: Seq<char>, i: int) -> Seq<Seq<char>>
    decreases s.len() - i,
{
    if 0 <= i < s.len() {
        let e = place_of(s, '\n', i);
        if i <= e < s.len() {
            seq![without_return(s.subrange(i, e))] + lines_from(s, e + 1)
        } else {
            seq![s.subrange(i, s.len() as int)]
        }
    } else {
        Seq::empty()
    }
}

/// The lines of a text.
pub open spec fn lines_of(s: Seq<char>) -> Seq<Seq<char>> {
    lines_from(s, 0)
}

/// The lines of a text.
pub fn lines_exec(s: &[char]) -> (r: Vec<Vec<char>>)
    ensures
        texts_of(r@) == lines_of(s@),
{
    let mut r: Vec<Vec<char>> = Vec::new();
    let mut i: usize = 0;
    assert(texts_of(r@) + lines_from(s@, 0) =~= lines_from(s@, 0));
    while i < s.len()
        invariant
            i <= s@.len(),
            texts_of(r@) + lines_from(s@, i as int) == lines_of(s@),
        decreases s@.len() - i,
    {
        let e: usize = place_exec(s, '\n', i);
        let ghost before = texts_of(r@);
        if e >= s.len() {
            let line: Vec<char> = slice_of(s, i, e);
            r.push(line);
            assert(texts_of(r@) =~= before + seq![s@.subrange(i as int, s@.len() as int)]);
            return r;
        }
        let stop: usize = if e > i && s[e - 1] == '\r' {
            e - 1
        } else {
            e
        };
        let line: Vec<char> = slice_of(s, i, stop);
        proof {
            let whole = s@.subrange(i as int, e as int);
            assert(e > i ==> whole.last() == s@[e - 1]);
            assert(line@ =~= without_return(whole));
        }
        r.push(line);
        proof {
            let rest = lines_from(s@, e + 1);
            assert(texts_of(r@) =~= before.push(line@));
            assert(texts_of(r@) + rest =~= before + (seq![line@] + rest));
        }
        i = e + 1;
    }
    assert(texts_of(r@) + lines_from(s@, i as int) =~= texts_of(r@));
    r
}

// ---------------------------------------------------------------------------
// Trimming
// ---------------------------------------------------------------------------

/// The text without white space at its end.
pub open spec fn trim_end(s: Seq<char>) -> Seq<char>
    decreases s.len(),
{
    if s.len() > 0 && is_blank(s.last()) {
        trim_end(s.drop_last())
    } else {
        s
    }
}

/// The text without white space at its beginning.
pub open spec fn trim_start(s: Seq<char>) -> Seq<char>
    decreases s.len(),
{
    if s.len() > 0 && is_blank(s[0]) {
        trim_start(s.drop_first())
    } else {
        s
    }
}

/// The text without white space at either end.
pub open spec fn trim(s: Seq<char>) -> Seq<char> {
    trim_start(trim_end(s))
}

/// The text without white space at its end.
pub fn trim_end_exec(s: &[char]) -> (v: Vec<char>)
    ensures
        v@ == trim_end(s@),
{
    let mut e: usize = s.len();
    assert(s@.subrange(0, e as int) =~= s@);
    while e > 0 && white(s[e - 1])
        invariant
            e <= s@.len(),
            trim_end(s@) == trim_end(s@.subrange(0, e as int)),
        decreases e,
    {
        proof {
            assert(s@.subrange(0, e as int).drop_last() =~= s@.subrange(0, e - 1));
        }
        e = e - 1;
    }
    proof {
        assert(e > 0 ==> s@.subrange(0, e as int).last() == s@[e - 1]);
    }
    slice_of(s, 0, e)
}

/// The text without white space at its beginning.
pub fn trim_start_exec(s: &[char]) -> (v: Vec<char>)
    ensures
        v@ == trim_start(s@),
{
    let n: usize = s.len();
    let mut b: usize = 0;
    assert(s@.subrange(0, n as int) =~= s@);
    while b < n && white(s[b])
        invariant
            b <= n,
            n == s@.len(),
            trim_start(s@) == trim_start(s@.subrange(b as int, n as int)),
        decreases n - b,
    {
        proof {
            assert(s@.subrange(b as int, n as int).drop_first() =~= s@.subrange(b + 1, n as int));
        }
        b = b + 1;
    }
    slice_of(s, b, n)
}

/// The text without white space at either end.
pub fn trim_exec(s: &[char]) -> (v: Vec<char>)
    ensures
        v@ == trim(s@),
{
    let e: Vec<char> = trim_end_exec(s);
    trim_start_exec(e.as_slice())
}

/// The text without a character at its end, however often.
pub open spec fn shed_end(s: Seq<char>, c: char) -> Seq<char>
    decreases s.len(),
{
    if s.len() > 0 && s.last() == c {
        shed_end(s.drop_last(), c)
    } else {
        s
    }
}

/// The text without a character at its beginning, however often.
pub open spec fn shed_start(s: Seq<char>, c: char) -> Seq<char>
    decreases s.len(),
{
    if s.len() > 0 && s[0] == c {
        shed_start(s.drop_first(), c)
    } else {
        s
    }
}

/// The text without a character at either end, however often.
pub open spec fn shed(s: Seq<char>, c: char) -> Seq<char> {
    shed_start(shed_end(s, c), c)
}

/// The text without a character at its beginning, however often.
pub fn shed_start_exec(s: &[char], c: char) -> (v: Vec<char>)
    ensures
        v@ == shed_start(s@, c),
{
    let n: usize = s.len();
    let mut b: usize = 0;
    assert(s@.subrange(0, n as int) =~= s@);
    while b < n && s[b] == c
        invariant
            b <= n,
            n == s@.len(),
            shed_start(s@, c) == shed_start(s@.subrange(b as int, n as int), c),
        decreases n - b,
    {
        proof {
            assert(s@.subrange(b as int, n as int).drop_first() =~= s@.subrange(b + 1, n as int));
        }
        b = b + 1;
    }
    slice_of(s, b, n)
}

/// The text without a character at either end, however often.
pub fn shed_exec(s: &[char], c: char) -> (v: Vec<char>)
    ensures
        v@ == shed(s@, c),
{
    let mut e: usize = s.len();
    assert(s@.subrange(0, e as int) =~= s@);
    while e > 0 && s[e - 1] == c
        invariant
            e <= s@.len(),
            shed_end(s@, c) == shed_end(s@.subrange(0, e as int), c),
        decreases e,
    {
        proof {
            assert(s@.subrange(0, e as int).drop_last() =~= s@.subrange(0, e - 1));
        }
        e = e - 1;
    }
    proof {
        assert(e > 0 ==> s@.subrange(0, e as int).last() == s@[e - 1]);
    }
    let head: Vec<char> = slice_of(s, 0, e);
    shed_start_exec(head.as_slice(), c)
}

// ---------------------------------------------------------------------------
// Searching
// ---------------------------------------------------------------------------

/// `part` stands in `s` at `i`.
pub open spec fn reads_at(s: Seq<char>, part: Seq<char>, i: int) -> bool {
    0 <= i && i + part.len() <= s.len() && s.subrange(i, i + part.len()) == part
}

/// The first place of a text from `i` on.
pub open spec fn found_from(s: Seq<char>, part: Seq<char>, i: int) -> Option<int>
    decreases s.len() + 1 - i,
{
    if i + part.len() > s.len() {
        None
    } else if reads_at(s, part, i) {
        Some(i)
    } else {
        found_from(s, part, i + 1)
    }
}

/// The first place of a text.
pub open spec fn found(s: Seq<char>, part: Seq<char>) -> Option<int> {
    found_from(s, part, 0)
}

/// Whether `part` stands in `s` at `i`.
fn reads_exec(s: &[char], part: &[char], i: usize) -> (b: bool)
    requires
        i + part@.len() <= s@.len(),
    ensures
        b == reads_at(s@, part@, i as int),
{
    let total: usize = s.len();
    let mut k: usize = 0;
    while k < part.len()
        invariant
            k <= part@.len(),
            total == s@.len(),
            i + part@.len() <= s@.len(),
            forall|t: int| 0 <= t < k ==> s@[i + t] == part@[t],
        decreases part@.len() - k,
    {
        if s[i + k] != part[k] {
            proof {
                assert(s@.subrange(i as int, i + part@.len())[k as int] == s@[i + k]);
            }
            return false;
        }
        k = k + 1;
    }
    assert(s@.subrange(i as int, i + part@.len()) =~= part@);
    true
}

/// The first place of a text.
pub fn find_exec(s: &[char], part: &[char]) -> (r: Option<usize>)
    ensures
        match found(s@, part@) {
            Some(i) => r is Some && r->0 == i && i + part@.len() <= s@.len(),
            None => r is None,
        },
{
    let n: usize = s.len();
    let m: usize = part.len();
    let mut i: usize = 0;
    while m <= n && i <= n - m
        invariant
            n == s@.len(),
            m == part@.len(),
            i <= n,
            found(s@, part@) == found_from(s@, part@, i as int),
        decreases n - i,
    {
        if reads_exec(s, part, i) {
            return Some(i);
        }
        proof {
            if i == n {
                assert(s@.subrange(i as int, i + m) =~= part@);
            }
        }
        i = i + 1;
    }
    None
}

// ---------------------------------------------------------------------------
// Joining
// ---------------------------------------------------------------------------

/// Pieces with a separator between them.
pub open spec fn joined_by(parts: Seq<Seq<char>>, c: char) -> Seq<char>
    decreases parts.len(),
{
    if parts.len() == 0 {
        Seq::empty()
    } else if parts.len() == 1 {
        parts[0]
    } else {
        parts[0] + seq![c] + joined_by(parts.drop_first(), c)
    }
}

/// What follows the first `i` pieces.
spec fn joined_after(parts: Seq<Seq<char>>, c: char, i: int) -> Seq<char> {
    if i < parts.len() {
        seq![c] + joined_by(parts.skip(i), c)
    } else {
        Seq::empty()
    }
}

/// Pieces with a separator between them.
pub fn join_exec(parts: &Vec<Vec<char>>, c: char) -> (r: Vec<char>)
    ensures
        r@ == joined_by(texts_of(parts@), c),
{
    let ghost all = texts_of(parts@);
    let mut out: Vec<char> = Vec::new();
    if parts.len() == 0 {
        assert(out@ =~= joined_by(all, c));
        return out;
    }
    push_chars(&mut out, parts[0].as_slice());
    proof {
        assert(all.drop_first() =~= all.skip(1));
        assert(out@ + joined_after(all, c, 1) =~= joined_by(all, c));
    }
    let mut i: usize = 1;
    while i < parts.len()
        invariant
            1 <= i <= parts@.len(),
            all == texts_of(parts@),
            out@ + joined_after(all, c, i as int) == joined_by(all, c),
        decreases parts@.len() - i,
    {
        let ghost before = out@;
        out.push(c);
        push_chars(&mut out, parts[i].as_slice());
        proof {
            let rest = all.skip(i as int);
            assert(rest[0] == all[i as int]);
            assert(rest.drop_first() =~= all.skip(i + 1));
            assert(joined_by(rest, c) =~= all[i as int] + joined_after(all, c, i + 1));
            assert(out@ =~= before + seq![c] + all[i as int]);
            assert(out@ + joined_after(all, c, i + 1) =~= before + joined_after(all, c, i as int));
        }
        i = i + 1;
    }
    assert(out@ + Seq::<char>::empty() =~= out@);
    out
}

pub(crate) proof fn lemma_place_shift(s: Seq<char>, c: char, i: int, k: int)
    requires
        0 <= i <= s.len(),
        0 <= k <= s.len() - i,
    ensures
        place_of(s, c, i + k) == i + place_of(s.subrange(i, s.len() as int), c, k),
    decreases s.len() - i - k,
{
    if k < s.len() - i && s[i + k] != c {
        lemma_place_shift(s, c, i, k + 1);
    }
}

proof fn lemma_split_shift(s: Seq<char>, c: char, i: int, k: int)
    requires
        0 <= i <= s.len(),
        0 <= k <= s.len() - i,
    ensures
        split_from(s, c, i + k) == split_from(s.subrange(i, s.len() as int), c, k),
    decreases s.len() - i - k,
{
    let t = s.subrange(i, s.len() as int);
    let e = place_of(s, c, i + k);
    lemma_place_shift(s, c, i, k);
    lemma_place(s, c, i + k);
    if e < s.len() {
        lemma_split_shift(s, c, i, e + 1 - i);
        assert(s.subrange(i + k, e) =~= t.subrange(k, e - i));
    } else {
        assert(s.subrange(i + k, s.len() as int) =~= t.subrange(k, t.len() as int));
    }
}

pub(crate) proof fn lemma_place_behind(a: Seq<char>, rest: Seq<char>, c: char, k: int)
    requires
        !a.contains(c),
        0 <= k <= a.len(),
        rest.len() == 0 || rest[0] == c,
    ensures
        place_of(a + rest, c, k) == a.len(),
    decreases a.len() - k,
{
    if k < a.len() {
        assert((a + rest)[k] == a[k]);
        lemma_place_behind(a, rest, c, k + 1);
    } else if rest.len() > 0 {
        assert((a + rest)[k] == c);
    }
}

/// Pieces that do not hold the separator are found again between the
/// separators.
pub proof fn joined_pieces_are_split(parts: Seq<Seq<char>>, c: char)
    requires
        parts.len() > 0,
        forall|i: int| 0 <= i < parts.len() ==> !(#[trigger] parts[i]).contains(c),
    ensures
        split_on(joined_by(parts, c), c) == parts,
    decreases parts.len(),
{
    let a = parts[0];
    let s = joined_by(parts, c);
    if parts.len() == 1 {
        lemma_place_behind(a, Seq::empty(), c, 0);
        assert(a + Seq::<char>::empty() =~= s);
        assert(s.subrange(0, s.len() as int) =~= a);
        assert(split_on(s, c) =~= parts);
    } else {
        let rest = joined_by(parts.drop_first(), c);
        joined_pieces_are_split(parts.drop_first(), c);
        lemma_place_behind(a, seq![c] + rest, c, 0);
        assert(a + (seq![c] + rest) =~= s);
        assert(s.subrange(0, a.len() as int) =~= a);
        lemma_split_shift(s, c, a.len() as int + 1, 0);
        assert(s.subrange(a.len() as int + 1, s.len() as int) =~= rest);
        assert(split_on(s, c) =~= parts);
    }
}

} // verus!
