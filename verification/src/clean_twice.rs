//! Cleaning a cleaned text again changes nothing.
use crate::dataset::{
    all_lack, cleaned, cleaned_char, cleaned_chars, collapsed, folded, from_first,
    lemma_collapsed_lacks, lemma_lines_lack, lemma_no_returns, lemma_trim_lacks,
    stays, tidy_lines, up_to_last, written_lines, CleanOptions,
};
use crate::textops::{
    is_blank, lemma_place, lemma_place_behind, lemma_place_shift, lines_from, lines_of, place_of,
    trim_end, without_return,
};
use vstd::prelude::*;

verus! {

/// A character that cleaning leaves as it is.
spec fn is_fixed(c: char, o: CleanOptions) -> bool {
    cleaned_char(c, o) == seq![c]
}

proof fn lemma_becomes_fixed(c: char, o: CleanOptions, k: int)
    requires
        !o.lowercase,
        0 <= k < cleaned_char(c, o).len(),
    ensures
        is_fixed(cleaned_char(c, o)[k], o),
{
    let s = cleaned_char(c, o);
    if o.normalize_punctuation && folded(c) is Some {
        let d = s[k];
        assert(d == '\'' || d == '"' || d == '-' || d == '.' || d == ' ' || d == '*');
        assert(folded(d) is None);
    }
}

proof fn lemma_chars_become_fixed(s: Seq<char>, o: CleanOptions)
    requires
        !o.lowercase,
    ensures
        forall|k: int|
            0 <= k < cleaned_chars(s, o).len() ==> is_fixed(#[trigger] cleaned_chars(s, o)[k], o),
    decreases s.len(),
{
    if s.len() > 0 {
        let before = cleaned_chars(s.drop_last(), o);
        let here = cleaned_char(s.last(), o);
        let all = cleaned_chars(s, o);
        lemma_chars_become_fixed(s.drop_last(), o);
        assert forall|k: int| 0 <= k < all.len() implies is_fixed(#[trigger] all[k], o) by {
            if k < before.len() {
                assert(all[k] == before[k]);
            } else {
                lemma_becomes_fixed(s.last(), o, k - before.len());
                assert(all[k] == here[k - before.len()]);
            }
        }
    }
}

proof fn lemma_fixed_stay(s: Seq<char>, o: CleanOptions)
    requires
        forall|k: int| 0 <= k < s.len() ==> is_fixed(#[trigger] s[k], o),
    ensures
        cleaned_chars(s, o) == s,
    decreases s.len(),
{
    if s.len() > 0 {
        let init = s.drop_last();
        assert forall|k: int| 0 <= k < init.len() implies is_fixed(#[trigger] init[k], o) by {
            assert(init[k] == s[k]);
        }
        lemma_fixed_stay(init, o);
        assert(is_fixed(s[s.len() - 1], o));
        assert(init + seq![s.last()] =~= s);
    } else {
        assert(cleaned_chars(s, o) =~= s);
    }
}

// ---------------------------------------------------------------------------
// Lines
// ---------------------------------------------------------------------------

/// Lines with a new line behind each.
spec fn laid(lines: Seq<Seq<char>>) -> Seq<char>
    decreases lines.len(),
{
    if lines.len() == 0 {
        Seq::empty()
    } else {
        lines[0] + seq!['\n'] + laid(lines.drop_first())
    }
}

proof fn lemma_laid_push(lines: Seq<Seq<char>>, l: Seq<char>)
    ensures
        laid(lines.push(l)) == laid(lines) + l.push('\n'),
    decreases lines.len(),
{
    let all = lines.push(l);
    if lines.len() == 0 {
        assert(all.drop_first() =~= Seq::<Seq<char>>::empty());
        assert(laid(all.drop_first()) =~= Seq::<char>::empty());
        assert(laid(lines) =~= Seq::<char>::empty());
        assert(laid(all) =~= laid(lines) + l.push('\n'));
    } else {
        lemma_laid_push(lines.drop_first(), l);
        assert(all.drop_first() =~= lines.drop_first().push(l));
        assert(laid(all) =~= laid(lines) + l.push('\n'));
    }
}

/// A line that is read back as it was written.
spec fn is_line(l: Seq<char>) -> bool {
    &&& !l.contains('\n')
    &&& !l.contains('\r')
    &&& trim_end(l) == l
}

spec fn are_lines(lines: Seq<Seq<char>>) -> bool {
    forall|k: int| 0 <= k < lines.len() ==> is_line(#[trigger] lines[k])
}

proof fn lemma_lines_shift(s: Seq<char>, i: int, k: int)
    requires
        0 <= i <= s.len(),
        0 <= k <= s.len() - i,
    ensures
        lines_from(s, i + k) == lines_from(s.subrange(i, s.len() as int), k),
    decreases s.len() - i - k,
{
    let t = s.subrange(i, s.len() as int);
    if i + k < s.len() {
        let e = place_of(s, '\n', i + k);
        lemma_place_shift(s, '\n', i, k);
        lemma_place(s, '\n', i + k);
        if e < s.len() {
            lemma_lines_shift(s, i, e + 1 - i);
            assert(s.subrange(i + k, e) =~= t.subrange(k, e - i));
        } else {
            assert(s.subrange(i + k, s.len() as int) =~= t.subrange(k, t.len() as int));
        }
    }
}

/// Lines are found again.
proof fn lemma_lines_return(lines: Seq<Seq<char>>)
    requires
        are_lines(lines),
    ensures
        lines_of(laid(lines)) == lines,
    decreases lines.len(),
{
    let s = laid(lines);
    if lines.len() == 0 {
        assert(lines_of(s) =~= lines);
    } else {
        let l = lines[0];
        let rest = lines.drop_first();
        assert(is_line(l));
        assert forall|k: int| 0 <= k < rest.len() implies is_line(#[trigger] rest[k]) by {
            assert(rest[k] == lines[k + 1]);
        }
        lemma_lines_return(rest);
        let tail = seq!['\n'] + laid(rest);
        assert(s =~= l + tail);
        lemma_place_behind(l, tail, '\n', 0);
        assert(s.subrange(0, l.len() as int) =~= l);
        if l.len() > 0 {
            assert(l.contains(l.last()));
        }
        assert(without_return(l) == l);
        lemma_lines_shift(s, l.len() as int + 1, 0);
        assert(s.subrange(l.len() as int + 1, s.len() as int) =~= laid(rest));
        assert(lines_of(s) =~= lines);
    }
}

/// The first `n` lines that stay.
spec fn staying(lines: Seq<Seq<char>>, n: nat) -> Seq<Seq<char>>
    decreases n,
{
    if n == 0 {
        Seq::empty()
    } else if stays(lines, n - 1) {
        staying(lines, (n - 1) as nat).push(lines[n - 1])
    } else {
        staying(lines, (n - 1) as nat)
    }
}

/// Of lines that stay, no two in a row are empty.
spec fn is_sparse(lines: Seq<Seq<char>>) -> bool {
    forall|k: int| 0 < k < lines.len() ==> stays(lines, k)
}

proof fn lemma_staying(lines: Seq<Seq<char>>, n: nat)
    requires
        n <= lines.len(),
        are_lines(lines),
    ensures
        written_lines(lines, n) == laid(staying(lines, n)),
        are_lines(staying(lines, n)),
        is_sparse(staying(lines, n)),
        n > 0 ==> staying(lines, n).len() > 0 && staying(lines, n)[0] == lines[0],
        n > 0 ==> (staying(lines, n).last().len() == 0 <==> lines[n - 1].len() == 0),
    decreases n,
{
    if n > 0 {
        let k = (n - 1) as nat;
        lemma_staying(lines, k);
        let before = staying(lines, k);
        let now = staying(lines, n);
        assert(is_line(lines[n - 1]));
        if stays(lines, n - 1) {
            lemma_laid_push(before, lines[n - 1]);
            assert forall|j: int| 0 <= j < now.len() implies is_line(#[trigger] now[j]) by {
                if j < before.len() {
                    assert(now[j] == before[j]);
                }
            }
            assert forall|j: int| 0 < j < now.len() implies stays(now, j) by {
                assert(now[j - 1] == before[j - 1]);
                if j < before.len() {
                    assert(now[j] == before[j]);
                    assert(stays(before, j));
                } else {
                    assert(before.last() == before[j - 1]);
                }
            }
        } else {
            assert(written_lines(lines, n) =~= written_lines(lines, k));
        }
    } else {
        assert(written_lines(lines, n) =~= laid(staying(lines, n)));
    }
}

proof fn lemma_trim_twice(l: Seq<char>)
    ensures
        trim_end(trim_end(l)) == trim_end(l),
    decreases l.len(),
{
    if l.len() > 0 && is_blank(l.last()) {
        lemma_trim_twice(l.drop_last());
    }
}

/// Lines hold no new line.
proof fn lemma_lines_lack_ends(s: Seq<char>, i: int)
    requires
        0 <= i <= s.len(),
    ensures
        all_lack(lines_from(s, i), '\n'),
    decreases s.len() - i,
{
    if i < s.len() {
        let e = place_of(s, '\n', i);
        lemma_place(s, '\n', i);
        let all = lines_from(s, i);
        if e < s.len() {
            lemma_lines_lack_ends(s, e + 1);
            let rest = lines_from(s, e + 1);
            assert forall|k: int| 0 <= k < all.len() implies !(#[trigger] all[k]).contains('\n') by {
                if k > 0 {
                    assert(all[k] == rest[k - 1]);
                } else {
                    let l = all[0];
                    assert forall|j: int| 0 <= j < l.len() implies l[j] != '\n' by {
                        assert(l[j] == s[i + j]);
                    }
                }
            }
        } else {
            let l = all[0];
            assert forall|j: int| 0 <= j < l.len() implies l[j] != '\n' by {
                assert(l[j] == s[i + j]);
            }
        }
    }
}

proof fn lemma_ends(lines: Seq<Seq<char>>)
    requires
        are_lines(lines),
    ensures
        are_lines(from_first(lines)),
        are_lines(up_to_last(lines)),
        from_first(lines).len() > 0 ==> from_first(lines)[0].len() > 0,
        up_to_last(lines).len() > 0 ==> up_to_last(lines).last().len() > 0,
        up_to_last(lines).len() > 0 ==> up_to_last(lines)[0] == lines[0],
    decreases lines.len(),
{
    if lines.len() > 0 && lines[0].len() == 0 {
        let rest = lines.drop_first();
        assert forall|k: int| 0 <= k < rest.len() implies is_line(#[trigger] rest[k]) by {
            assert(rest[k] == lines[k + 1]);
        }
        lemma_ends(rest);
    }
    if lines.len() > 0 && lines.last().len() == 0 {
        let rest = lines.drop_last();
        assert forall|k: int| 0 <= k < rest.len() implies is_line(#[trigger] rest[k]) by {
            assert(rest[k] == lines[k]);
        }
        lemma_ends(rest);
    }
}

/// Lines that are tidy stay as they are.
proof fn lemma_collapsed_again(lines: Seq<Seq<char>>)
    requires
        are_lines(lines),
        is_sparse(lines),
        lines.len() > 0 ==> lines[0].len() > 0 && lines.last().len() > 0,
    ensures
        collapsed(laid(lines)) == laid(lines),
{
    lemma_lines_return(lines);
    let tidy = tidy_lines(laid(lines));
    assert forall|k: int| 0 <= k < lines.len() implies tidy[k] == lines[k] by {
        assert(is_line(lines[k]));
    }
    assert(tidy =~= lines);
    assert(from_first(lines) == lines);
    assert(up_to_last(lines) == lines);
    lemma_all_written(lines, lines.len());
    assert(lines.take(lines.len() as int) =~= lines);
}

proof fn lemma_all_written(lines: Seq<Seq<char>>, n: nat)
    requires
        n <= lines.len(),
        is_sparse(lines),
    ensures
        written_lines(lines, n) == laid(lines.take(n as int)),
    decreases n,
{
    if n > 0 {
        let k = n - 1;
        lemma_all_written(lines, k as nat);
        assert(stays(lines, k));
        lemma_laid_push(lines.take(k), lines[k]);
        assert(lines.take(k).push(lines[k]) =~= lines.take(n as int));
    } else {
        assert(lines.take(0) =~= Seq::<Seq<char>>::empty());
        assert(written_lines(lines, 0) =~= laid(lines.take(0)));
    }
}

proof fn lemma_collapsed_twice(s: Seq<char>)
    requires
        !s.contains('\r'),
    ensures
        collapsed(collapsed(s)) == collapsed(s),
{
    lemma_lines_lack(s, '\r', 0);
    lemma_lines_lack_ends(s, 0);
    let raw = lines_of(s);
    let tidy = tidy_lines(s);
    assert forall|k: int| 0 <= k < tidy.len() implies is_line(#[trigger] tidy[k]) by {
        assert(!raw[k].contains('\r'));
        assert(!raw[k].contains('\n'));
        lemma_trim_lacks(raw[k], '\r');
        lemma_trim_lacks(raw[k], '\n');
        lemma_trim_twice(raw[k]);
        assert(tidy[k] == trim_end(raw[k]));
    }
    lemma_ends(tidy);
    let first = from_first(tidy);
    lemma_ends(first);
    let lines = up_to_last(first);
    lemma_staying(lines, lines.len());
    let left = staying(lines, lines.len());
    if left.len() > 0 {
        assert(lines.len() > 0);
        assert(lines.last() == lines[lines.len() - 1]);
    }
    lemma_collapsed_again(left);
}

/// Cleaning a cleaned text again changes nothing: without the search for a body,
/// in its own case and without a bound.
pub proof fn cleaning_twice_is_cleaning_once(s: Seq<char>, o: CleanOptions)
    requires
        !o.strip_gutenberg,
        !o.lowercase,
        o.max_chars is None,
    ensures
        cleaned(cleaned(s, o), o) == cleaned(s, o),
{
    let plain = cleaned_chars(s, o);
    lemma_chars_become_fixed(s, o);
    lemma_no_returns(s, o);
    if o.collapse_whitespace {
        let tidy = collapsed(plain);
        assert forall|k: int| 0 <= k < tidy.len() implies is_fixed(#[trigger] tidy[k], o) by {
            let c = tidy[k];
            if c != '\n' {
                if !plain.contains(c) {
                    lemma_collapsed_lacks(plain, c);
                    assert(tidy.contains(c));
                }
                let j = plain.index_of(c);
                assert(is_fixed(plain[j], o));
            } else {
                assert(folded(c) is None);
            }
        }
        lemma_fixed_stay(tidy, o);
        lemma_collapsed_twice(plain);
    } else {
        lemma_fixed_stay(plain, o);
    }
}

} // verus!
