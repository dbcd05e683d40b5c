//! What a user interface needs to know of a model, as compact JSON.
use crate::csv::{task_name, task_named, TaskType};
use crate::decimal::{fixed_text, is_fixed, is_parse, parse_chars, Decimals};
use crate::error::{InferError, Result};
use crate::float::F32;
use crate::gguf_tokenizer::strings_of;
use crate::text::{chars_of, dec, joined, push_dec, string_of};
use crate::text_index::texts_of;
use crate::textops::{
    find_exec, found, is_blank, join_exec, joined_by, lemma_place_shift, place_exec, place_of,
    push_chars, shed_start, shed_start_exec, slice_of, split_exec, split_on, trim, trim_end,
    trim_end_exec, trim_exec, trim_start, trim_start_exec, white,
};
use vstd::prelude::*;

verus! {

/// Names, ranges and sizes of a model.
#[derive(Clone, Debug)]
pub struct ModelMetadata {
    pub dataset_name: String,
    pub task: TaskType,
    pub feature_names: Vec<String>,
    /// Smallest and largest number of each feature.
    pub feature_ranges: Vec<[F32; 2]>,
    /// The classes in the order of their numbers; none where a number is
    /// predicted.
    pub class_names: Vec<String>,
    pub target_name: String,
    pub target_range: [F32; 2],
    pub input_dim: usize,
    pub output_dim: usize,
    /// The state of a tokenizer as text; empty where there is none.
    pub tokenizer_state: String,
}

// ---------------------------------------------------------------------------
// Writing
// ---------------------------------------------------------------------------

/// A character as it stands between quotes: a backslash before a quote and before
/// a backslash.
pub open spec fn escaped_char(c: char) -> Seq<char> {
    if c == '"' || c == '\\' {
        seq!['\\', c]
    } else {
        seq![c]
    }
}

/// A text as it stands between quotes.
pub open spec fn escaped(s: Seq<char>) -> Seq<char>
    decreases s.len(),
{
    if s.len() == 0 {
        Seq::empty()
    } else {
        escaped(s.drop_last()) + escaped_char(s.last())
    }
}

/// A text between quotes.
pub open spec fn quoted(s: Seq<char>) -> Seq<char> {
    seq!['"'] + escaped(s) + seq!['"']
}

/// Texts between quotes, with commas between them.
pub open spec fn quoted_list(v: Seq<Seq<char>>) -> Seq<char> {
    joined_by(v.map_values(|s: Seq<char>| quoted(s)), ',')
}

/// Two texts of numbers between brackets.
pub open spec fn bracketed(lo: Seq<char>, hi: Seq<char>) -> Seq<char> {
    seq!['['] + lo + seq![','] + hi + seq![']']
}

/// Pairs of texts of numbers between brackets, with commas between them.
pub open spec fn bracketed_list(lo: Seq<Seq<char>>, hi: Seq<Seq<char>>) -> Seq<char> {
    joined_by(Seq::new(lo.len(), |i: int| bracketed(lo[i], hi[i])), ',')
}

/// The state of a tokenizer as a last entry, if there is one.
pub open spec fn state_entry(s: Seq<char>) -> Seq<char> {
    if s.len() == 0 {
        Seq::empty()
    } else {
        ",\"tokenizer_state\":"@ + quoted(s)
    }
}

impl ModelMetadata {
    /// The JSON with the given texts for the ranges.
    pub open spec fn json(
        self,
        lo: Seq<Seq<char>>,
        hi: Seq<Seq<char>>,
        tlo: Seq<char>,
        thi: Seq<char>,
    ) -> Seq<char> {
        "{\"dataset_name\":"@ + quoted(self.dataset_name@) + ",\"task\":\""@ + task_name(self.task)
            + "\",\"feature_names\":["@ + quoted_list(strings_of(self.feature_names@))
            + "],\"feature_ranges\":["@ + bracketed_list(lo, hi) + "],\"class_names\":["@
            + quoted_list(strings_of(self.class_names@)) + "],\"target_name\":"@ + quoted(
            self.target_name@,
        ) + ",\"target_range\":"@ + bracketed(tlo, thi) + ",\"input_dim\":"@ + dec(
            self.input_dim as nat,
        ) + ",\"output_dim\":"@ + dec(self.output_dim as nat) + state_entry(self.tokenizer_state@)
            + "}"@
    }

    /// `s` is the JSON, with texts of six digits for the ranges.
    pub open spec fn written<D: Decimals>(
        self,
        d: &D,
        lo: Seq<Seq<char>>,
        hi: Seq<Seq<char>>,
        tlo: Seq<char>,
        thi: Seq<char>,
        s: Seq<char>,
    ) -> bool {
        &&& ranges_written(d, self.feature_ranges@, self.feature_ranges@.len() as int, lo, hi)
        &&& is_fixed(d, self.target_range@[0], 6, tlo)
        &&& is_fixed(d, self.target_range@[1], 6, thi)
        &&& s == self.json(lo, hi, tlo, thi)
    }
}

/// The texts of the first `k` ranges.
pub open spec fn ranges_written<D: Decimals>(
    d: &D,
    r: Seq<[F32; 2]>,
    k: int,
    lo: Seq<Seq<char>>,
    hi: Seq<Seq<char>>,
) -> bool {
    &&& lo.len() == k
    &&& hi.len() == k
    &&& forall|i: int|
        #![trigger r[i]]
        0 <= i < k ==> is_fixed(d, r[i]@[0], 6, lo[i]) && is_fixed(d, r[i]@[1], 6, hi[i])
}

/// A text between quotes.
fn quoted_exec(s: &str) -> (r: Vec<char>)
    ensures
        r@ == quoted(s@),
{
    let v: Vec<char> = chars_of(s);
    let mut r: Vec<char> = Vec::new();
    r.push('"');
    let mut i: usize = 0;
    assert(v@.subrange(0, 0).len() == 0);
    assert(r@ =~= seq!['"'] + escaped(v@.subrange(0, 0)));
    while i < v.len()
        invariant
            i <= v@.len(),
            r@ == seq!['"'] + escaped(v@.subrange(0, i as int)),
        decreases v@.len() - i,
    {
        let ghost before = escaped(v@.subrange(0, i as int));
        assert(v@.subrange(0, i + 1).drop_last() =~= v@.subrange(0, i as int));
        if v[i] == '"' || v[i] == '\\' {
            r.push('\\');
        }
        r.push(v[i]);
        assert(r@ =~= seq!['"'] + (before + escaped_char(v@[i as int])));
        i = i + 1;
    }
    assert(v@.subrange(0, v@.len() as int) =~= s@);
    r.push('"');
    assert(r@ =~= quoted(s@));
    r
}

/// Texts between quotes, with commas between them.
fn quoted_list_exec(v: &Vec<String>) -> (r: Vec<char>)
    ensures
        r@ == quoted_list(strings_of(v@)),
{
    let ghost all = strings_of(v@).map_values(|s: Seq<char>| quoted(s));
    let mut parts: Vec<Vec<char>> = Vec::new();
    let mut i: usize = 0;
    while i < v.len()
        invariant
            i <= v@.len(),
            all == strings_of(v@).map_values(|s: Seq<char>| quoted(s)),
            parts@.len() == i,
            forall|k: int| 0 <= k < i ==> (#[trigger] parts@[k])@ == all[k],
        decreases v@.len() - i,
    {
        parts.push(quoted_exec(v[i].as_str()));
        i = i + 1;
    }
    assert(texts_of(parts@) =~= all);
    join_exec(&parts, ',')
}

/// Two texts of numbers between brackets.
fn bracketed_exec(lo: &str, hi: &str) -> (r: Vec<char>)
    ensures
        r@ == bracketed(lo@, hi@),
{
    let mut r: Vec<char> = Vec::new();
    r.push('[');
    push_chars(&mut r, chars_of(lo).as_slice());
    r.push(',');
    push_chars(&mut r, chars_of(hi).as_slice());
    r.push(']');
    assert(r@ =~= bracketed(lo@, hi@));
    r
}

impl ModelMetadata {
    /// The metadata as compact JSON.
    pub fn to_json<D: Decimals>(&self, d: &D) -> (s: String)
        ensures
            exists|lo: Seq<Seq<char>>, hi: Seq<Seq<char>>, tlo: Seq<char>, thi: Seq<char>|
                #[trigger] self.written(d, lo, hi, tlo, thi, s@),
    {
        let ghost mut lo: Seq<Seq<char>> = Seq::empty();
        let ghost mut hi: Seq<Seq<char>> = Seq::empty();
        let ghost r = self.feature_ranges@;
        let mut parts: Vec<Vec<char>> = Vec::new();
        let mut i: usize = 0;
        while i < self.feature_ranges.len()
            invariant
                i <= self.feature_ranges@.len(),
                r == self.feature_ranges@,
                ranges_written(d, r, i as int, lo, hi),
                parts@.len() == i,
                forall|k: int| 0 <= k < i ==> (#[trigger] parts@[k])@ == bracketed(lo[k], hi[k]),
            decreases self.feature_ranges@.len() - i,
        {
            let a: String = fixed_text(d, self.feature_ranges[i][0], 6);
            let b: String = fixed_text(d, self.feature_ranges[i][1], 6);
            let ghost before = parts@;
            let ghost lo0 = lo;
            let ghost hi0 = hi;
            parts.push(bracketed_exec(a.as_str(), b.as_str()));
            proof {
                lo = lo.push(a@);
                hi = hi.push(b@);
                assert forall|k: int|
                    #![trigger r[k]]
                    0 <= k < i + 1 implies is_fixed(d, r[k]@[0], 6, lo[k]) && is_fixed(
                    d,
                    r[k]@[1],
                    6,
                    hi[k],
                ) by {
                    if k < i {
                        assert(lo[k] == lo0[k] && hi[k] == hi0[k]);
                    }
                }
                assert forall|k: int| 0 <= k < i + 1 implies (#[trigger] parts@[k])@ == bracketed(
                    lo[k],
                    hi[k],
                ) by {
                    if k < i {
                        assert(parts@[k] == before[k]);
                        assert(lo[k] == lo0[k] && hi[k] == hi0[k]);
                    }
                }
            }
            i = i + 1;
        }
        assert(texts_of(parts@) =~= Seq::new(lo.len(), |i: int| bracketed(lo[i], hi[i])));
        let ranges: Vec<char> = join_exec(&parts, ',');
        let tlo: String = fixed_text(d, self.target_range[0], 6);
        let thi: String = fixed_text(d, self.target_range[1], 6);
        let mut s: String = "{\"dataset_name\":".to_owned();
        s.append(string_of(quoted_exec(self.dataset_name.as_str()).as_slice()).as_str());
        s.append(",\"task\":\"");
        s.append(self.task.as_str());
        s.append("\",\"feature_names\":[");
        s.append(string_of(quoted_list_exec(&self.feature_names).as_slice()).as_str());
        s.append("],\"feature_ranges\":[");
        s.append(string_of(ranges.as_slice()).as_str());
        s.append("],\"class_names\":[");
        s.append(string_of(quoted_list_exec(&self.class_names).as_slice()).as_str());
        s.append("],\"target_name\":");
        s.append(string_of(quoted_exec(self.target_name.as_str()).as_slice()).as_str());
        s.append(",\"target_range\":");
        s.append(string_of(bracketed_exec(tlo.as_str(), thi.as_str()).as_slice()).as_str());
        s.append(",\"input_dim\":");
        push_dec(&mut s, self.input_dim as u64);
        s.append(",\"output_dim\":");
        push_dec(&mut s, self.output_dim as u64);
        let state: String = state_exec(self.tokenizer_state.as_str());
        s.append(state.as_str());
        s.append("}");
        assert(self.written(d, lo, hi, tlo@, thi@, s@));
        s
    }
}

/// The state of a tokenizer as a last entry, if there is one.
fn state_exec(s: &str) -> (r: String)
    ensures
        r@ == state_entry(s@),
{
    let q: Vec<char> = quoted_exec(s);
    let v: Vec<char> = chars_of(s);
    if v.len() == 0 {
        String::new()
    } else {
        joined(",\"tokenizer_state\":", string_of(q.as_slice()).as_str())
    }
}

// ---------------------------------------------------------------------------
// Reading
// ---------------------------------------------------------------------------

/// A key between quotes with a colon behind it.
pub open spec fn needle(key: Seq<char>) -> Seq<char> {
    seq!['"'] + key + seq!['"', ':']
}

/// What stands behind the first place of a key.
pub open spec fn value_at(s: Seq<char>, key: Seq<char>) -> Option<Seq<char>> {
    match found(s, needle(key)) {
        Some(p) => Some(trim_start(s.subrange(p + needle(key).len(), s.len() as int))),
        None => None,
    }
}

/// The text up to the first quote that no backslash escapes, without the
/// backslashes that escape, and how many characters it takes.
pub open spec fn rd_quoted(t: Seq<char>) -> (Seq<char>, int)
    decreases t.len(),
{
    if t.len() == 0 || t[0] == '"' {
        (Seq::empty(), 0)
    } else if t[0] == '\\' && t.len() > 1 && (t[1] == '"' || t[1] == '\\') {
        let r = rd_quoted(t.skip(2));
        (seq![t[1]] + r.0, r.1 + 2)
    } else {
        let r = rd_quoted(t.skip(1));
        (seq![t[0]] + r.0, r.1 + 1)
    }
}

/// The text between quotes; without an opening quote, what stands before the next
/// quote.
pub open spec fn text_value(v: Seq<char>) -> Option<Seq<char>> {
    if v.len() > 0 && v[0] == '"' {
        let r = rd_quoted(v.skip(1));
        if r.1 < v.len() - 1 {
            Some(r.0)
        } else {
            None
        }
    } else {
        let e = place_of(v, '"', 0);
        if e < v.len() {
            Some(v.subrange(0, e))
        } else {
            None
        }
    }
}

/// The text of a key; empty if there is none.
pub open spec fn text_field(s: Seq<char>, key: Seq<char>) -> Seq<char> {
    match value_at(s, key) {
        Some(v) => match text_value(v) {
            Some(t) => t,
            None => Seq::empty(),
        },
        None => Seq::empty(),
    }
}

/// What stands up to the next closing bracket, behind the opening ones at the
/// beginning, between commas.
pub open spec fn bracket_parts(v: Seq<char>) -> Seq<Seq<char>> {
    let t = shed_start(v, '[');
    split_on(t.subrange(0, place_of(t, ']', 0)), ',')
}

/// The first place of a comma or a closing bracket, or the end.
pub open spec fn word_end(t: Seq<char>) -> int {
    let a = place_of(t, ',', 0);
    let b = place_of(t, ']', 0);
    if a < b {
        a
    } else {
        b
    }
}

/// The texts of a list up to its closing bracket. A text between quotes is read
/// as such; a word without quotes goes up to the next comma.
pub open spec fn rd_names(t: Seq<char>) -> Seq<Seq<char>>
    decreases t.len(),
{
    if t.len() == 0 || t[0] == ']' {
        Seq::empty()
    } else if t[0] == '"' {
        let r = rd_quoted(t.skip(1));
        seq![r.0] + if 0 <= r.1 && r.1 + 2 <= t.len() {
            rd_names(t.skip(r.1 + 2))
        } else {
            Seq::empty()
        }
    } else if t[0] == ',' || is_blank(t[0]) {
        rd_names(t.skip(1))
    } else {
        let e = word_end(t);
        seq![trim_end(t.subrange(0, e))] + if 0 < e <= t.len() {
            rd_names(t.skip(e))
        } else {
            Seq::empty()
        }
    }
}

/// A list behind its opening bracket.
pub open spec fn behind_bracket(v: Seq<char>) -> Seq<char> {
    if v.len() > 0 && v[0] == '[' {
        v.skip(1)
    } else {
        v
    }
}

/// The texts of the list of a key; none if there is no list.
pub open spec fn list_field(s: Seq<char>, key: Seq<char>) -> Seq<Seq<char>> {
    match value_at(s, key) {
        Some(v) => rd_names(behind_bracket(v)),
        None => Seq::empty(),
    }
}

/// Whether a character is a decimal digit.
pub open spec fn is_digit(c: char) -> bool {
    48 <= c as int <= 57
}

/// The number that digits stand for.
pub open spec fn digits_value(s: Seq<char>) -> int
    decreases s.len(),
{
    if s.len() == 0 {
        0
    } else {
        10 * digits_value(s.drop_last()) + (s.last() as int - 48)
    }
}

/// The digits of a number behind a plus sign.
pub open spec fn unsigned_digits(s: Seq<char>) -> Seq<char> {
    if s.len() > 0 && s[0] == '+' {
        s.drop_first()
    } else {
        s
    }
}

/// The number that a text of digits stands for, if it is one and can be held.
pub open spec fn size_value(s: Seq<char>) -> Option<usize> {
    let t = unsigned_digits(s);
    if t.len() > 0 && (forall|i: int| 0 <= i < t.len() ==> is_digit(#[trigger] t[i]))
        && digits_value(t) <= usize::MAX {
        Some(digits_value(t) as usize)
    } else {
        None
    }
}

/// The first place of a comma or a closing brace from `i` on, or the end.
pub open spec fn entry_end(s: Seq<char>) -> int {
    let a = place_of(s, ',', 0);
    let b = place_of(s, '}', 0);
    if a < b {
        a
    } else {
        b
    }
}

/// The number of a key, if there is one.
pub open spec fn size_field(s: Seq<char>, key: Seq<char>) -> Option<usize> {
    match value_at(s, key) {
        Some(v) => size_value(trim(v.subrange(0, entry_end(v)))),
        None => None,
    }
}

/// The numbers among what texts read as.
pub open spec fn numbers_among(v: Seq<Option<F32>>) -> Seq<F32>
    decreases v.len(),
{
    if v.len() == 0 {
        Seq::empty()
    } else {
        match v.last() {
            Some(x) => numbers_among(v.drop_last()).push(x),
            None => numbers_among(v.drop_last()),
        }
    }
}

/// The first two numbers, or zero and one in their place.
pub open spec fn first_two(v: Seq<F32>) -> Seq<F32> {
    seq![
        if v.len() > 0 {
            v[0]
        } else {
            F32 { bits: 0 }
        },
        if v.len() > 1 {
            v[1]
        } else {
            F32 { bits: 0x3f80_0000 }
        },
    ]
}

/// `vals` is what the parts of a pair read as.
pub open spec fn parts_read<D: Decimals>(
    d: &D,
    parts: Seq<Seq<char>>,
    vals: Seq<Option<F32>>,
) -> bool {
    &&& vals.len() == parts.len()
    &&& forall|i: int| 0 <= i < parts.len() ==> is_parse(d, trim(parts[i]), #[trigger] vals[i])
}

/// The numbers of a pair between brackets.
pub open spec fn pair_read<D: Decimals>(d: &D, v: Seq<char>, r: Seq<F32>) -> bool {
    exists|vals: Seq<Option<F32>>| #[trigger]
        parts_read(d, bracket_parts(v), vals) && r == first_two(numbers_among(vals))
}

/// The pairs between the brackets of a list of pairs, from place `i` on at a
/// depth, the last one of which was opened at `start`.
pub open spec fn spans_from(s: Seq<char>, i: int, depth: int, start: int) -> Seq<Seq<char>>
    decreases s.len() - i,
{
    if i < 0 || i >= s.len() {
        Seq::empty()
    } else if s[i] == '[' {
        spans_from(
            s,
            i + 1,
            depth + 1,
            if depth == 1 {
                i
            } else {
                start
            },
        )
    } else if s[i] == ']' {
        let here = if depth == 2 {
            seq![s.subrange(start, i + 1)]
        } else {
            Seq::empty()
        };
        if depth == 1 {
            here
        } else {
            here + spans_from(s, i + 1, depth - 1, start)
        }
    } else {
        spans_from(s, i + 1, depth, start)
    }
}

/// The pairs of a list of pairs, each with its brackets.
pub open spec fn spans(s: Seq<char>) -> Seq<Seq<char>> {
    spans_from(s, place_of(s, '[', 0), 0, 0)
}

/// The ranges of a key; none if there is no list.
pub open spec fn ranges_read<D: Decimals>(
    d: &D,
    s: Seq<char>,
    key: Seq<char>,
    r: Seq<[F32; 2]>,
) -> bool {
    match value_at(s, key) {
        Some(v) => {
            &&& r.len() == spans(v).len()
            &&& forall|i: int| 0 <= i < r.len() ==> pair_read(d, spans(v)[i], (#[trigger] r[i])@)
        },
        None => r.len() == 0,
    }
}

/// The task that a JSON text names, if it names one.
pub open spec fn json_task(s: Seq<char>) -> Option<TaskType> {
    match value_at(s, "task"@) {
        Some(v) => match text_value(v) {
            Some(t) => task_named(t),
            None => None,
        },
        None => None,
    }
}

/// The range of a key; zero and one if there is none.
pub open spec fn range_read<D: Decimals>(d: &D, s: Seq<char>, key: Seq<char>, r: Seq<F32>) -> bool {
    match value_at(s, key) {
        Some(v) => pair_read(d, v, r),
        None => r == first_two(Seq::empty()),
    }
}

/// What stands behind the first place of a key.
fn value_exec(s: &[char], key: &str) -> (r: Option<Vec<char>>)
    ensures
        match r {
            Some(v) => value_at(s@, key@) == Some(v@),
            None => value_at(s@, key@) is None,
        },
{
    let mut part: Vec<char> = Vec::new();
    part.push('"');
    push_chars(&mut part, chars_of(key).as_slice());
    part.push('"');
    part.push(':');
    assert(part@ =~= needle(key@));
    let end: usize = s.len();
    match find_exec(s, part.as_slice()) {
        Some(p) => {
            let rest: Vec<char> = slice_of(s, p + part.len(), end);
            Some(trim_start_exec(rest.as_slice()))
        },
        None => None,
    }
}

/// The text from `i` up to the first quote that no backslash escapes, and the place
/// of that quote.
fn quoted_at(s: &[char], i: usize) -> (r: (Vec<char>, usize))
    requires
        i <= s@.len(),
    ensures
        i <= r.1 <= s@.len(),
        rd_quoted(s@.skip(i as int)) == (r.0@, r.1 - i),
{
    let mut out: Vec<char> = Vec::new();
    let n: usize = s.len();
    let mut j: usize = i;
    let ghost all = rd_quoted(s@.skip(i as int));
    assert(out@ + all.0 =~= all.0);
    while j < n && s[j] != '"'
        invariant
            i <= j <= n,
            n == s@.len(),
            all == rd_quoted(s@.skip(i as int)),
            all.0 == out@ + rd_quoted(s@.skip(j as int)).0,
            all.1 == (j - i) + rd_quoted(s@.skip(j as int)).1,
        decreases n - j,
    {
        let ghost before = out@;
        let ghost t = s@.skip(j as int);
        if s[j] == '\\' && j + 1 < n && (s[j + 1] == '"' || s[j + 1] == '\\') {
            let c: char = s[j + 1];
            proof {
                assert(t[0] == s@[j as int] && t[1] == c);
                assert(t.skip(2) =~= s@.skip(j + 2));
                let rest = rd_quoted(t.skip(2)).0;
                assert(before + (seq![c] + rest) =~= before.push(c) + rest);
            }
            out.push(c);
            j = j + 2;
        } else {
            let c: char = s[j];
            proof {
                assert(t[0] == c);
                assert(t.len() > 1 ==> t[1] == s@[j + 1]);
                assert(t.skip(1) =~= s@.skip(j + 1));
                let rest = rd_quoted(t.skip(1)).0;
                assert(before + (seq![c] + rest) =~= before.push(c) + rest);
            }
            out.push(c);
            j = j + 1;
        }
    }
    proof {
        let t = s@.skip(j as int);
        assert(t.len() > 0 ==> t[0] == s@[j as int]);
        assert(out@ + rd_quoted(t).0 =~= out@);
    }
    (out, j)
}

/// The text between quotes.
fn text_exec(v: &[char]) -> (r: Option<String>)
    ensures
        match r {
            Some(t) => text_value(v@) == Some(t@),
            None => text_value(v@) is None,
        },
{
    let n: usize = v.len();
    if n > 0 && v[0] == '"' {
        let (t, e) = quoted_at(v, 1);
        if e < n {
            Some(string_of(t.as_slice()))
        } else {
            None
        }
    } else {
        let e: usize = place_exec(v, '"', 0);
        if e < n {
            Some(string_of(slice_of(v, 0, e).as_slice()))
        } else {
            None
        }
    }
}

/// The text of a key; empty if there is none.
fn text_field_exec(s: &[char], key: &str) -> (r: String)
    ensures
        r@ == text_field(s@, key@),
{
    match value_exec(s, key) {
        Some(v) => match text_exec(v.as_slice()) {
            Some(t) => t,
            None => String::new(),
        },
        None => String::new(),
    }
}

/// The parts of a list.
fn bracket_exec(v: &[char]) -> (r: Vec<Vec<char>>)
    ensures
        texts_of(r@) == bracket_parts(v@),
{
    let t: Vec<char> = shed_start_exec(v, '[');
    let e: usize = place_exec(t.as_slice(), ']', 0);
    split_exec(slice_of(t.as_slice(), 0, e).as_slice(), ',')
}

/// The texts of the list of a key; none if there is no list.
fn list_field_exec(s: &[char], key: &str) -> (r: Vec<String>)
    ensures
        strings_of(r@) == list_field(s@, key@),
{
    let mut out: Vec<String> = Vec::new();
    let v: Vec<char> = match value_exec(s, key) {
        Some(v) => v,
        None => {
            assert(strings_of(out@) =~= list_field(s@, key@));
            return out;
        },
    };
    let n: usize = v.len();
    let first: usize = if n > 0 && v[0] == '[' {
        1
    } else {
        0
    };
    let ghost all = rd_names(behind_bracket(v@));
    let mut i: usize = first;
    proof {
        assert(v@.skip(0) =~= v@);
        assert(strings_of(out@) + all =~= all);
    }
    while i < n && v[i] != ']'
        invariant
            first <= i <= n,
            n == v@.len(),
            all == strings_of(out@) + rd_names(v@.skip(i as int)),
        decreases n - i,
    {
        let ghost t = v@.skip(i as int);
        let ghost before = strings_of(out@);
        let c: char = v[i];
        assert(t[0] == c);
        if c == '"' {
            let (name, e) = quoted_at(v.as_slice(), i + 1);
            assert(t.skip(1) =~= v@.skip(i + 1));
            let next: usize = if e < n {
                e + 1
            } else {
                e
            };
            out.push(string_of(name.as_slice()));
            proof {
                assert(strings_of(out@) =~= before.push(name@));
                if e < n {
                    assert(t.skip(e - i - 1 + 2) =~= v@.skip(next as int));
                } else {
                    assert(rd_names(v@.skip(next as int)) =~= Seq::<Seq<char>>::empty());
                }
                let rest = rd_names(v@.skip(next as int));
                assert(before + (seq![name@] + rest) =~= before.push(name@) + rest);
            }
            i = next;
        } else if c == ',' || white(c) {
            assert(t.skip(1) =~= v@.skip(i + 1));
            i = i + 1;
        } else {
            let x: usize = place_exec(v.as_slice(), ',', i);
            let y: usize = place_exec(v.as_slice(), ']', i);
            let e: usize = if x < y {
                x
            } else {
                y
            };
            let part: Vec<char> = slice_of(v.as_slice(), i, e);
            let word: Vec<char> = trim_end_exec(part.as_slice());
            out.push(string_of(word.as_slice()));
            proof {
                lemma_place_shift(v@, ',', i as int, 0);
                lemma_place_shift(v@, ']', i as int, 0);
                assert(t =~= v@.subrange(i as int, n as int));
                assert(word_end(t) == e - i);
                assert(t.subrange(0, e - i) =~= part@);
                assert(strings_of(out@) =~= before.push(word@));
                assert(t.skip(e - i) =~= v@.skip(e as int));
                let rest = rd_names(v@.skip(e as int));
                assert(before + (seq![word@] + rest) =~= before.push(word@) + rest);
            }
            i = e;
        }
    }
    proof {
        let t = v@.skip(i as int);
        assert(t.len() > 0 ==> t[0] == v@[i as int]);
        assert(strings_of(out@) + rd_names(t) =~= strings_of(out@));
    }
    out
}

/// The number that a text of digits stands for, if it is one and can be held.
pub fn size_exec(s: &[char]) -> (r: Option<usize>)
    ensures
        r == size_value(s@),
{
    let ghost t = unsigned_digits(s@);
    let start: usize = if s.len() > 0 && s[0] == '+' {
        1
    } else {
        0
    };
    assert(t =~= s@.subrange(start as int, s@.len() as int));
    if start == s.len() {
        return None;
    }
    let mut n: usize = 0;
    let mut over: bool = false;
    let mut i: usize = start;
    while i < s.len()
        invariant
            start <= i <= s@.len(),
            t == unsigned_digits(s@),
            t == s@.subrange(start as int, s@.len() as int),
            forall|k: int| 0 <= k < i - start ==> is_digit(#[trigger] t[k]),
            !over ==> n == digits_value(t.subrange(0, i - start)),
            over ==> digits_value(t.subrange(0, i - start)) > usize::MAX,
        decreases s@.len() - i,
    {
        let c: char = s[i];
        assert(c == t[i - start]);
        if c < '0' || c > '9' {
            assert(!is_digit(t[i - start]));
            return None;
        }
        let d: usize = (c as u8 - 48) as usize;
        proof {
            let now = t.subrange(0, i + 1 - start);
            assert(now.drop_last() =~= t.subrange(0, i - start));
            assert(now.last() == c);
            assert(digits_value(now) == 10 * digits_value(t.subrange(0, i - start)) + d);
        }
        if !over {
            match n.checked_mul(10) {
                Some(m) => match m.checked_add(d) {
                    Some(k) => n = k,
                    None => over = true,
                },
                None => over = true,
            }
        }
        i = i + 1;
    }
    assert(t.subrange(0, t.len() as int) =~= t);
    if over {
        None
    } else {
        Some(n)
    }
}

/// The number of a key, if there is one.
fn size_field_exec(s: &[char], key: &str) -> (r: Option<usize>)
    ensures
        r == size_field(s@, key@),
{
    match value_exec(s, key) {
        Some(v) => {
            let a: usize = place_exec(v.as_slice(), ',', 0);
            let b: usize = place_exec(v.as_slice(), '}', 0);
            let e: usize = if a < b {
                a
            } else {
                b
            };
            let part: Vec<char> = slice_of(v.as_slice(), 0, e);
            size_exec(trim_exec(part.as_slice()).as_slice())
        },
        None => None,
    }
}

/// The numbers of a pair between brackets.
fn pair_exec<D: Decimals>(d: &D, v: &[char]) -> (r: [F32; 2])
    ensures
        pair_read(d, v@, r@),
{
    let parts: Vec<Vec<char>> = bracket_exec(v);
    let ghost all = texts_of(parts@);
    let ghost mut vals: Seq<Option<F32>> = Seq::empty();
    let mut nums: Vec<F32> = Vec::new();
    let mut i: usize = 0;
    while i < parts.len()
        invariant
            i <= parts@.len(),
            all == texts_of(parts@),
            vals.len() == i,
            forall|k: int| 0 <= k < i ==> is_parse(d, trim(all[k]), #[trigger] vals[k]),
            nums@ == numbers_among(vals),
        decreases parts@.len() - i,
    {
        let t: Vec<char> = trim_exec(parts[i].as_slice());
        assert(all[i as int] == parts@[i as int]@);
        let x: Option<F32> = parse_chars(d, t.as_slice());
        proof {
            let before = vals;
            vals = vals.push(x);
            assert(vals.drop_last() =~= before);
        }
        match x {
            Some(y) => nums.push(y),
            None => {},
        }
        i = i + 1;
    }
    let lo: F32 = if nums.len() > 0 {
        nums[0]
    } else {
        F32::zero()
    };
    let hi: F32 = if nums.len() > 1 {
        nums[1]
    } else {
        F32::one()
    };
    let r: [F32; 2] = [lo, hi];
    proof {
        assert(parts_read(d, bracket_parts(v@), vals));
        assert(r@ =~= first_two(numbers_among(vals)));
    }
    r
}

/// The pairs of a list of pairs, each with its brackets.
fn spans_exec(s: &[char]) -> (r: Vec<Vec<char>>)
    ensures
        texts_of(r@) == spans(s@),
{
    let mut out: Vec<Vec<char>> = Vec::new();
    let outer: usize = place_exec(s, '[', 0);
    let mut depth: usize = 0;
    let mut start: usize = 0;
    let mut i: usize = outer;
    assert(texts_of(out@) + spans_from(s@, i as int, 0, 0) =~= spans(s@));
    while i < s.len()
        invariant
            outer <= i <= s@.len(),
            start <= i,
            depth <= i - outer,
            i == outer ==> i == s@.len() || s@[i as int] == '[',
            i > outer ==> depth >= 1,
            texts_of(out@) + spans_from(s@, i as int, depth as int, start as int) == spans(s@),
        decreases s@.len() - i,
    {
        let c: char = s[i];
        if c == '[' {
            if depth == 1 {
                start = i;
            }
            depth = depth + 1;
        } else if c == ']' {
            let ghost before = texts_of(out@);
            let ghost rest = spans_from(s@, i + 1, depth - 1, start as int);
            if depth == 2 {
                let piece: Vec<char> = slice_of(s, start, i + 1);
                out.push(piece);
                assert(texts_of(out@) =~= before.push(piece@));
                assert(before + (seq![piece@] + rest) =~= texts_of(out@) + rest);
            } else {
                assert(before + (Seq::<Seq<char>>::empty() + rest) =~= before + rest);
            }
            if depth == 1 {
                assert(texts_of(out@) =~= spans(s@));
                return out;
            }
            depth = depth - 1;
        }
        i = i + 1;
    }
    assert(texts_of(out@) =~= spans(s@));
    out
}

/// The ranges of a key; none if there is no list.
fn ranges_exec<D: Decimals>(d: &D, s: &[char], key: &str) -> (r: Vec<[F32; 2]>)
    ensures
        ranges_read(d, s@, key@, r@),
{
    let mut out: Vec<[F32; 2]> = Vec::new();
    let v: Vec<char> = match value_exec(s, key) {
        Some(v) => v,
        None => return out,
    };
    let parts: Vec<Vec<char>> = spans_exec(v.as_slice());
    assert(parts@.len() == spans(v@).len());
    let mut i: usize = 0;
    while i < parts.len()
        invariant
            i <= parts@.len(),
            texts_of(parts@) == spans(v@),
            out@.len() == i,
            forall|k: int| 0 <= k < i ==> pair_read(d, spans(v@)[k], (#[trigger] out@[k])@),
        decreases parts@.len() - i,
    {
        assert(spans(v@)[i as int] == parts@[i as int]@);
        out.push(pair_exec(d, parts[i].as_slice()));
        i = i + 1;
    }
    out
}

/// The range of a key; zero and one if there is none.
fn range_exec<D: Decimals>(d: &D, s: &[char], key: &str) -> (r: [F32; 2])
    ensures
        range_read(d, s@, key@, r@),
{
    match value_exec(s, key) {
        Some(v) => pair_exec(d, v.as_slice()),
        None => {
            let r: [F32; 2] = [F32::zero(), F32::one()];
            assert(r@ =~= first_two(Seq::empty()));
            r
        },
    }
}

impl ModelMetadata {
    /// The metadata is what a JSON text holds.
    pub open spec fn is_read<D: Decimals>(self, d: &D, s: Seq<char>) -> bool {
        &&& self.dataset_name@ == text_field(s, "dataset_name"@)
        &&& strings_of(self.feature_names@) == list_field(s, "feature_names"@)
        &&& ranges_read(d, s, "feature_ranges"@, self.feature_ranges@)
        &&& strings_of(self.class_names@) == list_field(s, "class_names"@)
        &&& self.target_name@ == text_field(s, "target_name"@)
        &&& range_read(d, s, "target_range"@, self.target_range@)
        &&& self.input_dim == match size_field(s, "input_dim"@) {
            Some(n) => n,
            None => 0,
        }
        &&& self.output_dim == match size_field(s, "output_dim"@) {
            Some(n) => n,
            None => 1,
        }
        &&& self.tokenizer_state@ == text_field(s, "tokenizer_state"@)
    }

    /// Reads JSON as `to_json` writes it. Only the task must be there.
    pub fn from_json<D: Decimals>(d: &D, s: &str) -> (r: Result<ModelMetadata>)
        ensures
            ({
                let task = json_task(s@);
                match r {
                    Ok(m) => task == Some(m.task) && m.is_read(d, s@),
                    Err(e) => task is None && e is Format,
                }
            }),
    {
        let v: Vec<char> = chars_of(s);
        let text: &[char] = v.as_slice();
        let found_task: Option<String> = match value_exec(text, "task") {
            Some(t) => text_exec(t.as_slice()),
            None => None,
        };
        let name: String = match found_task {
            Some(t) => t,
            None => return Err(InferError::Format("missing task".to_owned())),
        };
        let task: TaskType = match TaskType::from_str(name.as_str()) {
            Some(t) => t,
            None => return Err(InferError::Format(joined("unknown task: ", name.as_str()))),
        };
        let input_dim: usize = match size_field_exec(text, "input_dim") {
            Some(n) => n,
            None => 0,
        };
        let output_dim: usize = match size_field_exec(text, "output_dim") {
            Some(n) => n,
            None => 1,
        };
        Ok(
            ModelMetadata {
                dataset_name: text_field_exec(text, "dataset_name"),
                task,
                feature_names: list_field_exec(text, "feature_names"),
                feature_ranges: ranges_exec(d, text, "feature_ranges"),
                class_names: list_field_exec(text, "class_names"),
                target_name: text_field_exec(text, "target_name"),
                target_range: range_exec(d, text, "target_range"),
                input_dim,
                output_dim,
                tokenizer_state: text_field_exec(text, "tokenizer_state"),
            },
        )
    }
}

} // verus!
