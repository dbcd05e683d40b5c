//! Cleaning raw text for training, and summing it up.
use crate::error::{InferError, Result};
use crate::text::{chars_of, dec, string_of, with_number};
use crate::text_index::texts_of;
use crate::textops::{
    control, find_exec, found, is_blank, is_control, lemma_place, lines_exec, lines_from, lines_of,
    place_exec, place_of, push_chars, slice_of, trim_end, trim_end_exec, white, without_return,
};
use vstd::prelude::*;
use vstd::utf8::{char_is_scalar, encode_utf8};

verus! {

/// What `clean_corpus` does.
#[derive(Clone, Debug, PartialEq)]
pub struct CleanOptions {
    /// Keep only what stands between the marks of a Project Gutenberg text.
    pub strip_gutenberg: bool,
    /// Write everything in lower case.
    pub lowercase: bool,
    /// Keep one blank line of several, and no blanks at the end of a line.
    pub collapse_whitespace: bool,
    /// Write curly quotes, dashes and the like in ASCII.
    pub normalize_punctuation: bool,
    /// Leave out the control characters of ASCII but the new line and the
    /// tabulator.
    pub strip_control_chars: bool,
    /// The most characters to keep.
    pub max_chars: Option<usize>,
}

impl Default for CleanOptions {
    /// What suits a plain text file.
    fn default() -> (o: Self)
        ensures
            o == (CleanOptions {
                strip_gutenberg: true,
                lowercase: false,
                collapse_whitespace: true,
                normalize_punctuation: true,
                strip_control_chars: true,
                max_chars: None,
            }),
    {
        CleanOptions {
            strip_gutenberg: true,
            lowercase: false,
            collapse_whitespace: true,
            normalize_punctuation: true,
            strip_control_chars: true,
            max_chars: None,
        }
    }
}

/// Counts of a text.
#[derive(Clone, Debug, PartialEq)]
pub struct CorpusStats {
    pub chars: usize,
    pub bytes: usize,
    pub lines: usize,
    pub words: usize,
    /// The number of different characters.
    pub unique_chars: usize,
}

/// The characters that `char::to_lowercase` makes of one.
pub uninterp spec fn lowercase_of(c: char) -> Seq<char>;

/// `char::to_lowercase`: the characters of the lower case, as the Unicode tables
/// of the standard library give them.
#[verifier::external_body]
fn lowercase(c: char) -> (r: Vec<char>)
    ensures
        r@ == lowercase_of(c),
{
    c.to_lowercase().collect()
}

// ---------------------------------------------------------------------------
// Cleaning
// ---------------------------------------------------------------------------

/// What a character is written as in ASCII, if it is one of those.
pub open spec fn folded(c: char) -> Option<Seq<char>> {
    let n = c as int;
    if n == 0x2018 || n == 0x2019 || n == 0x201a || n == 0x2032 {
        Some(seq!['\''])
    } else if n == 0x201c || n == 0x201d || n == 0x201e || n == 0x2033 {
        Some(seq!['"'])
    } else if n == 0x2013 || n == 0x2014 || n == 0x2015 {
        Some(seq!['-'])
    } else if n == 0x2026 {
        Some(seq!['.', '.', '.'])
    } else if n == 0xa0 || n == 0x2007 || n == 0x202f {
        Some(seq![' '])
    } else if n == 0x2022 {
        Some(seq!['*'])
    } else {
        None
    }
}

/// What becomes of a character.
pub open spec fn cleaned_char(c: char, o: CleanOptions) -> Seq<char> {
    if c == '\r' || o.strip_control_chars && is_control(c) && c != '\n' && c != '\t' {
        Seq::empty()
    } else if o.normalize_punctuation && folded(c) is Some {
        folded(c)->0
    } else if o.lowercase {
        lowercase_of(c)
    } else {
        seq![c]
    }
}

/// What becomes of the characters of a text.
pub open spec fn cleaned_chars(s: Seq<char>, o: CleanOptions) -> Seq<char>
    decreases s.len(),
{
    if s.len() == 0 {
        Seq::empty()
    } else {
        cleaned_chars(s.drop_last(), o) + cleaned_char(s.last(), o)
    }
}

/// The first place of one text, or of another if the first is nowhere.
pub open spec fn either_found(s: Seq<char>, a: Seq<char>, b: Seq<char>) -> Option<int> {
    match found(s, a) {
        Some(p) => Some(p),
        None => found(s, b),
    }
}

/// Where the body starts: behind the line of the first mark.
pub open spec fn body_start(s: Seq<char>) -> Option<int> {
    match either_found(s, "*** START OF"@, "***START OF"@) {
        Some(p) => {
            let e = place_of(s, '\n', p);
            if e < s.len() {
                Some(e + 1)
            } else {
                None
            }
        },
        None => None,
    }
}

/// What stands between the marks of a Project Gutenberg text; all of it if the
/// marks are not there.
pub open spec fn body_of(s: Seq<char>) -> Seq<char> {
    match (body_start(s), either_found(s, "*** END OF"@, "***END OF"@)) {
        (Some(a), Some(b)) => if a < b {
            s.subrange(a, b)
        } else {
            s
        },
        _ => s,
    }
}

/// The lines without blanks at their ends.
pub open spec fn tidy_lines(s: Seq<char>) -> Seq<Seq<char>> {
    lines_of(s).map_values(|l: Seq<char>| trim_end(l))
}

/// The lines from the first that is not empty on.
pub open spec fn from_first(lines: Seq<Seq<char>>) -> Seq<Seq<char>>
    decreases lines.len(),
{
    if lines.len() > 0 && lines[0].len() == 0 {
        from_first(lines.drop_first())
    } else {
        lines
    }
}

/// The lines up to the last that is not empty.
pub open spec fn up_to_last(lines: Seq<Seq<char>>) -> Seq<Seq<char>>
    decreases lines.len(),
{
    if lines.len() > 0 && lines.last().len() == 0 {
        up_to_last(lines.drop_last())
    } else {
        lines
    }
}

/// Whether a line stays: it is not empty, or the one before it is not.
pub open spec fn stays(lines: Seq<Seq<char>>, i: int) -> bool {
    lines[i].len() > 0 || i == 0 || lines[i - 1].len() > 0
}

/// The first `n` lines that stay, each with a new line behind it.
pub open spec fn written_lines(lines: Seq<Seq<char>>, n: nat) -> Seq<char>
    decreases n,
{
    if n == 0 {
        Seq::empty()
    } else {
        written_lines(lines, (n - 1) as nat) + if stays(lines, n - 1) {
            lines[n - 1].push('\n')
        } else {
            Seq::empty()
        }
    }
}

/// The text with one blank line at most in a row, and none at its ends.
pub open spec fn collapsed(s: Seq<char>) -> Seq<char> {
    let lines = up_to_last(from_first(tidy_lines(s)));
    written_lines(lines, lines.len())
}

/// A text, cleaned.
pub open spec fn cleaned(s: Seq<char>, o: CleanOptions) -> Seq<char> {
    let body = if o.strip_gutenberg {
        body_of(s)
    } else {
        s
    };
    let plain = cleaned_chars(body, o);
    let tidy = if o.collapse_whitespace {
        collapsed(plain)
    } else {
        plain
    };
    match o.max_chars {
        Some(n) => if tidy.len() > n {
            tidy.subrange(0, n as int)
        } else {
            tidy
        },
        None => tidy,
    }
}

/// What a character is written as in ASCII, if it is one of those.
fn fold_punctuation(ch: char) -> (r: Option<&'static str>)
    ensures
        match r {
            Some(s) => folded(ch) == Some(s@),
            None => folded(ch) is None,
        },
{
    let n: u32 = ch as u32;
    proof {
        char_is_scalar(ch);
        reveal_strlit("'");
        reveal_strlit("\"");
        reveal_strlit("-");
        reveal_strlit("...");
        reveal_strlit(" ");
        reveal_strlit("*");
        assert("'"@ =~= seq!['\'']);
        assert("\""@ =~= seq!['"']);
        assert("-"@ =~= seq!['-']);
        assert("..."@ =~= seq!['.', '.', '.']);
        assert(" "@ =~= seq![' ']);
        assert("*"@ =~= seq!['*']);
    }
    if n == 0x2018 || n == 0x2019 || n == 0x201a || n == 0x2032 {
        Some("'")
    } else if n == 0x201c || n == 0x201d || n == 0x201e || n == 0x2033 {
        Some("\"")
    } else if n == 0x2013 || n == 0x2014 || n == 0x2015 {
        Some("-")
    } else if n == 0x2026 {
        Some("...")
    } else if n == 0xa0 || n == 0x2007 || n == 0x202f {
        Some(" ")
    } else if n == 0x2022 {
        Some("*")
    } else {
        None
    }
}

/// Writes what becomes of a character.
fn push_cleaned(out: &mut Vec<char>, c: char, o: &CleanOptions)
    ensures
        final(out)@ == old(out)@ + cleaned_char(c, *o),
{
    let ghost before = out@;
    if c == '\r' || o.strip_control_chars && control(c) && c != '\n' && c != '\t' {
        assert(before + Seq::<char>::empty() =~= before);
        return;
    }
    let mapped: Option<&'static str> = if o.normalize_punctuation {
        fold_punctuation(c)
    } else {
        None
    };
    match mapped {
        Some(s) => push_chars(out, chars_of(s).as_slice()),
        None => {
            if o.lowercase {
                push_chars(out, lowercase(c).as_slice());
            } else {
                out.push(c);
                assert(out@ =~= before + seq![c]);
            }
        },
    }
}

/// The first place of one text, or of another if the first is nowhere.
fn either_exec(s: &[char], a: &str, b: &str) -> (r: Option<usize>)
    ensures
        match r {
            Some(p) => either_found(s@, a@, b@) == Some(p as int) && p <= s@.len(),
            None => either_found(s@, a@, b@) is None,
        },
{
    match find_exec(s, chars_of(a).as_slice()) {
        Some(p) => Some(p),
        None => find_exec(s, chars_of(b).as_slice()),
    }
}

/// What stands between the marks of a Project Gutenberg text.
fn strip_gutenberg_boilerplate(s: &[char]) -> (r: Vec<char>)
    ensures
        r@ == body_of(s@),
{
    let n: usize = s.len();
    let start: Option<usize> = match either_exec(s, "*** START OF", "***START OF") {
        Some(p) => {
            let e: usize = place_exec(s, '\n', p);
            if e < n {
                Some(e + 1)
            } else {
                None
            }
        },
        None => None,
    };
    let end: Option<usize> = either_exec(s, "*** END OF", "***END OF");
    match (start, end) {
        (Some(a), Some(b)) => {
            if a < b {
                slice_of(s, a, b)
            } else {
                let r: Vec<char> = slice_of(s, 0, n);
                assert(r@ =~= s@);
                r
            }
        },
        _ => {
            let r: Vec<char> = slice_of(s, 0, n);
            assert(r@ =~= s@);
            r
        },
    }
}

proof fn lemma_from_first(lines: Seq<Seq<char>>, a: int)
    requires
        0 <= a <= lines.len(),
        forall|k: int| 0 <= k < a ==> (#[trigger] lines[k]).len() == 0,
        a < lines.len() ==> lines[a].len() > 0,
    ensures
        from_first(lines) == lines.skip(a),
    decreases a,
{
    if a > 0 {
        assert(lines[0].len() == 0);
        let rest = lines.drop_first();
        assert forall|k: int| 0 <= k < a - 1 implies (#[trigger] rest[k]).len() == 0 by {
            assert(rest[k] == lines[k + 1]);
        }
        lemma_from_first(rest, a - 1);
        assert(rest.skip(a - 1) =~= lines.skip(a));
    } else {
        assert(lines.skip(0) =~= lines);
    }
}

proof fn lemma_up_to_last(lines: Seq<Seq<char>>, b: int)
    requires
        0 <= b <= lines.len(),
        forall|k: int| b <= k < lines.len() ==> (#[trigger] lines[k]).len() == 0,
        b > 0 ==> lines[b - 1].len() > 0,
    ensures
        up_to_last(lines) == lines.take(b),
    decreases lines.len() - b,
{
    if b < lines.len() {
        assert(lines.last() == lines[lines.len() - 1]);
        let rest = lines.drop_last();
        lemma_up_to_last(rest, b);
        assert(rest.take(b) =~= lines.take(b));
    } else {
        assert(lines.take(b) =~= lines);
    }
}

/// The text with one blank line at most in a row, and none at its ends.
fn collapse_whitespace(s: &[char]) -> (r: Vec<char>)
    ensures
        r@ == collapsed(s@),
{
    let raw: Vec<Vec<char>> = lines_exec(s);
    let ghost all = tidy_lines(s@);
    let mut lines: Vec<Vec<char>> = Vec::new();
    let mut i: usize = 0;
    while i < raw.len()
        invariant
            i <= raw@.len(),
            texts_of(raw@) == lines_of(s@),
            all == tidy_lines(s@),
            lines@.len() == i,
            forall|k: int| 0 <= k < i ==> (#[trigger] lines@[k])@ == all[k],
        decreases raw@.len() - i,
    {
        assert(lines_of(s@)[i as int] == raw@[i as int]@);
        lines.push(trim_end_exec(raw[i].as_slice()));
        i = i + 1;
    }
    assert(raw@.len() == lines_of(s@).len());
    assert(texts_of(lines@) =~= all);
    let n: usize = lines.len();
    let mut a: usize = 0;
    while a < n && lines[a].len() == 0
        invariant
            a <= n,
            n == lines@.len(),
            texts_of(lines@) == all,
            forall|k: int| 0 <= k < a ==> (#[trigger] all[k]).len() == 0,
        ensures
            a < n ==> all[a as int].len() > 0,
        decreases n - a,
    {
        assert(all[a as int] == lines@[a as int]@);
        a = a + 1;
    }
    let ghost rest = all.skip(a as int);
    proof {
        assert(a < n ==> all[a as int] == lines@[a as int]@);
        lemma_from_first(all, a as int);
    }
    let mut b: usize = n;
    while b > a && lines[b - 1].len() == 0
        invariant
            a <= b <= n,
            n == lines@.len(),
            texts_of(lines@) == all,
            forall|k: int| b <= k < n ==> (#[trigger] all[k]).len() == 0,
        decreases b,
    {
        assert(all[b - 1] == lines@[b - 1]@);
        b = b - 1;
    }
    let ghost kept = all.subrange(a as int, b as int);
    proof {
        assert forall|k: int| b - a <= k < rest.len() implies (#[trigger] rest[k]).len() == 0 by {
            assert(rest[k] == all[a + k]);
        }
        assert(b > a ==> all[b - 1] == lines@[b - 1]@);
        lemma_up_to_last(rest, b - a);
        assert(rest.take(b - a) =~= kept);
    }
    let mut out: Vec<char> = Vec::new();
    let mut blank: bool = false;
    let mut j: usize = a;
    assert(out@ =~= written_lines(kept, 0));
    while j < b
        invariant
            a <= j <= b <= n,
            n == lines@.len(),
            texts_of(lines@) == all,
            kept == all.subrange(a as int, b as int),
            blank == (j > a && kept[j - a - 1].len() == 0),
            out@ == written_lines(kept, (j - a) as nat),
        decreases b - j,
    {
        let ghost before = out@;
        let ghost k = j - a;
        proof {
            assert(kept[k] == all[j as int]);
            assert(all[j as int] == lines@[j as int]@);
            assert((k + 1 - 1) as nat == k as nat);
        }
        let empty: bool = lines[j].len() == 0;
        if !(empty && blank) {
            push_chars(&mut out, lines[j].as_slice());
            out.push('\n');
            assert(stays(kept, k));
            assert(out@ =~= before + kept[k].push('\n'));
        } else {
            assert(!stays(kept, k));
            assert(before + Seq::<char>::empty() =~= before);
        }
        blank = empty;
        j = j + 1;
    }
    out
}

/// Cleans a text. The steps are taken in a fixed order; carriage returns are
/// always left out.
pub fn clean_corpus(raw: &str, opts: &CleanOptions) -> (r: String)
    ensures
        r@ == cleaned(raw@, *opts),
{
    let chars: Vec<char> = chars_of(raw);
    let body: Vec<char> = if opts.strip_gutenberg {
        strip_gutenberg_boilerplate(chars.as_slice())
    } else {
        chars
    };
    let mut plain: Vec<char> = Vec::new();
    let mut i: usize = 0;
    assert(body@.subrange(0, 0).len() == 0);
    while i < body.len()
        invariant
            i <= body@.len(),
            plain@ == cleaned_chars(body@.subrange(0, i as int), *opts),
        decreases body@.len() - i,
    {
        proof {
            let now = body@.subrange(0, i + 1);
            assert(now.drop_last() =~= body@.subrange(0, i as int));
            assert(now.last() == body@[i as int]);
        }
        push_cleaned(&mut plain, body[i], opts);
        i = i + 1;
    }
    assert(body@.subrange(0, body@.len() as int) =~= body@);
    let tidy: Vec<char> = if opts.collapse_whitespace {
        collapse_whitespace(plain.as_slice())
    } else {
        plain
    };
    match opts.max_chars {
        Some(max) => {
            if tidy.len() > max {
                string_of(slice_of(tidy.as_slice(), 0, max).as_slice())
            } else {
                string_of(tidy.as_slice())
            }
        },
        None => string_of(tidy.as_slice()),
    }
}

// ---------------------------------------------------------------------------
// Summing up
// ---------------------------------------------------------------------------

/// The number of words: runs of characters that are not blank.
pub open spec fn word_count(s: Seq<char>) -> nat
    decreases s.len(),
{
    if s.len() == 0 {
        0
    } else {
        let first = !is_blank(s.last()) && (s.len() == 1 || is_blank(s[s.len() - 2]));
        word_count(s.drop_last()) + if first {
            1nat
        } else {
            0nat
        }
    }
}

/// The number of different characters.
pub open spec fn distinct_count(s: Seq<char>) -> nat
    decreases s.len(),
{
    if s.len() == 0 {
        0
    } else {
        distinct_count(s.drop_last()) + if s.drop_last().contains(s.last()) {
            0nat
        } else {
            1nat
        }
    }
}

/// The number of characters but carriage returns.
pub open spec fn length_without_returns(s: Seq<char>) -> nat
    decreases s.len(),
{
    if s.len() == 0 {
        0
    } else {
        length_without_returns(s.drop_last()) + if s.last() == '\r' {
            0nat
        } else {
            1nat
        }
    }
}

fn words_exec(s: &Vec<char>) -> (n: usize)
    ensures
        n == word_count(s@),
{
    let mut n: usize = 0;
    let mut blank: bool = true;
    let mut i: usize = 0;
    assert(s@.subrange(0, 0).len() == 0);
    while i < s.len()
        invariant
            i <= s@.len(),
            n <= i,
            n == word_count(s@.subrange(0, i as int)),
            blank == (i == 0 || is_blank(s@[i - 1])),
        decreases s@.len() - i,
    {
        proof {
            let now = s@.subrange(0, i + 1);
            assert(now.drop_last() =~= s@.subrange(0, i as int));
            assert(now.last() == s@[i as int]);
            if i > 0 {
                assert(now[now.len() - 2] == s@[i - 1]);
            }
        }
        let here: bool = white(s[i]);
        if !here && blank {
            n = n + 1;
        }
        blank = here;
        i = i + 1;
    }
    assert(s@.subrange(0, s@.len() as int) =~= s@);
    n
}

/// A table with a place for each character.
fn no_characters() -> (v: Vec<bool>)
    ensures
        v@.len() == 0x11_0000,
        forall|k: int| 0 <= k < 0x11_0000 ==> !#[trigger] v@[k],
{
    let mut v: Vec<bool> = Vec::new();
    let mut i: usize = 0;
    while i < 0x11_0000
        invariant
            i <= 0x11_0000,
            v@.len() == i,
            forall|k: int| 0 <= k < i ==> !#[trigger] v@[k],
        decreases 0x11_0000 - i,
    {
        v.push(false);
        i = i + 1;
    }
    v
}

/// The number of a character.
spec fn code_of(c: char) -> int {
    (c as u32) as int
}

proof fn lemma_code_of(a: char, b: char)
    ensures
        0 <= code_of(a) < 0x11_0000,
        code_of(a) == code_of(b) ==> a == b,
{
    char_is_scalar(a);
    char_is_scalar(b);
}

fn distinct_exec(s: &Vec<char>) -> (n: usize)
    ensures
        n == distinct_count(s@),
{
    let mut seen: Vec<bool> = no_characters();
    let mut n: usize = 0;
    let mut i: usize = 0;
    assert(s@.subrange(0, 0).len() == 0);
    assert forall|c: char| seen@[#[trigger] code_of(c)] == s@.subrange(0, 0).contains(c) by {
        lemma_code_of(c, c);
    }
    while i < s.len()
        invariant
            i <= s@.len(),
            n <= i,
            n == distinct_count(s@.subrange(0, i as int)),
            seen@.len() == 0x11_0000,
            forall|c: char|
                seen@[#[trigger] code_of(c)] == s@.subrange(0, i as int).contains(c),
        decreases s@.len() - i,
    {
        let c: char = s[i];
        let code: usize = (c as u32) as usize;
        let ghost before = s@.subrange(0, i as int);
        let ghost now = s@.subrange(0, i + 1);
        proof {
            lemma_code_of(c, c);
            assert(now.drop_last() =~= before);
            assert(now.last() == c);
            assert(seen@[code_of(c)] == before.contains(c));
        }
        let ghost old_seen = seen@;
        if !seen[code] {
            n = n + 1;
            seen.set(code, true);
        }
        proof {
            assert forall|e: char| seen@[#[trigger] code_of(e)] == now.contains(e) by {
                lemma_code_of(e, c);
                assert(old_seen[code_of(e)] == before.contains(e));
                if before.contains(e) {
                    let k = choose|k: int| 0 <= k < before.len() && before[k] == e;
                    assert(now[k] == e);
                }
                if now.contains(e) && e != c {
                    let k = choose|k: int| 0 <= k < now.len() && now[k] == e;
                    assert(before[k] == e);
                }
                if e == c {
                    assert(now[i as int] == e);
                }
            }
        }
        i = i + 1;
    }
    assert(s@.subrange(0, s@.len() as int) =~= s@);
    n
}

/// Counts characters, bytes, lines, words and different characters.
pub fn corpus_stats(text: &str) -> (r: CorpusStats)
    ensures
        r.chars == text@.len(),
        r.bytes == encode_utf8(text@).len(),
        r.lines == lines_of(text@).len(),
        r.words == word_count(text@),
        r.unique_chars == distinct_count(text@),
{
    let chars: Vec<char> = chars_of(text);
    let lines: Vec<Vec<char>> = lines_exec(chars.as_slice());
    assert(lines@.len() == lines_of(text@).len());
    CorpusStats {
        chars: chars.len(),
        bytes: text.as_bytes().len(),
        lines: lines.len(),
        words: words_exec(&chars),
        unique_chars: distinct_exec(&chars),
    }
}

/// Whether a text is long enough for one example: a context and the character
/// behind it.
pub fn validate_for_training(text: &str, context_len: usize) -> (r: Result<()>)
    requires
        context_len < usize::MAX,
    ensures
        ({
            let n = length_without_returns(text@);
            match r {
                Ok(_) => context_len > 0 && n > context_len,
                Err(e) => e is DimMismatch && e->DimMismatch_0@ == if context_len == 0 {
                    "context_len must be > 0"@
                } else if n == 0 {
                    "corpus is empty after cleaning"@
                } else {
                    "corpus has "@ + dec(n) + " characters but needs at least "@ + dec(
                        (context_len + 1) as nat,
                    ) + " (context_len + 1)"@
                } && (context_len == 0 || n <= context_len),
            }
        }),
{
    if context_len == 0 {
        return Err(InferError::DimMismatch("context_len must be > 0".to_owned()));
    }
    let s: Vec<char> = chars_of(text);
    let mut n: usize = 0;
    let mut i: usize = 0;
    assert(s@.subrange(0, 0).len() == 0);
    while i < s.len()
        invariant
            i <= s@.len(),
            n <= i,
            n == length_without_returns(s@.subrange(0, i as int)),
        decreases s@.len() - i,
    {
        proof {
            let now = s@.subrange(0, i + 1);
            assert(now.drop_last() =~= s@.subrange(0, i as int));
            assert(now.last() == s@[i as int]);
        }
        if s[i] != '\r' {
            n = n + 1;
        }
        i = i + 1;
    }
    assert(s@.subrange(0, s@.len() as int) =~= s@);
    if n == 0 {
        return Err(InferError::DimMismatch("corpus is empty after cleaning".to_owned()));
    }
    if n <= context_len {
        return Err(
            InferError::DimMismatch(
                with_number(
                    with_number("corpus has ", n, " characters but needs at least ").as_str(),
                    context_len + 1,
                    " (context_len + 1)",
                ),
            ),
        );
    }
    Ok(())
}

// ---------------------------------------------------------------------------
// Laws
// ---------------------------------------------------------------------------

/// A text without its carriage returns.
pub open spec fn without_returns(s: Seq<char>) -> Seq<char> {
    s.filter(|c: char| c != '\r')
}

/// With everything switched off, cleaning leaves out the carriage returns and
/// nothing else.
pub proof fn only_returns_are_left_out(s: Seq<char>, o: CleanOptions)
    requires
        !o.strip_gutenberg,
        !o.lowercase,
        !o.collapse_whitespace,
        !o.normalize_punctuation,
        !o.strip_control_chars,
        o.max_chars is None,
    ensures
        cleaned(s, o) == without_returns(s),
    decreases s.len(),
{
    reveal(Seq::filter);
    if s.len() > 0 {
        only_returns_are_left_out(s.drop_last(), o);
        let kept = without_returns(s.drop_last());
        if s.last() == '\r' {
            assert(kept + Seq::<char>::empty() =~= kept);
        } else {
            assert(kept + seq![s.last()] =~= kept.push(s.last()));
        }
    }
}

pub(crate) proof fn lemma_no_returns(s: Seq<char>, o: CleanOptions)
    requires
        !o.lowercase,
    ensures
        !cleaned_chars(s, o).contains('\r'),
    decreases s.len(),
{
    if s.len() > 0 {
        lemma_no_returns(s.drop_last(), o);
        let before = cleaned_chars(s.drop_last(), o);
        let here = cleaned_char(s.last(), o);
        assert(!here.contains('\r'));
        let all = before + here;
        assert forall|k: int| 0 <= k < all.len() implies all[k] != '\r' by {
            if k < before.len() {
                assert(before.contains(before[k]));
            } else {
                assert(here.contains(here[k - before.len()]));
            }
        }
    }
}

proof fn lemma_part_lacks(s: Seq<char>, c: char, a: int, b: int)
    requires
        !s.contains(c),
        0 <= a <= b <= s.len(),
    ensures
        !s.subrange(a, b).contains(c),
{
    let t = s.subrange(a, b);
    assert forall|k: int| 0 <= k < t.len() implies t[k] != c by {
        assert(s.contains(s[a + k]));
    }
}

pub(crate) proof fn lemma_lines_lack(s: Seq<char>, c: char, i: int)
    requires
        !s.contains(c),
        0 <= i <= s.len(),
    ensures
        forall|k: int|
            0 <= k < lines_from(s, i).len() ==> !(#[trigger] lines_from(s, i)[k]).contains(c),
    decreases s.len() - i,
{
    if i < s.len() {
        let e = place_of(s, '\n', i);
        lemma_place(s, '\n', i);
        if e < s.len() {
            let head = s.subrange(i, e);
            lemma_part_lacks(s, c, i, e);
            let line = without_return(head);
            if line.len() < head.len() {
                lemma_part_lacks(head, c, 0, head.len() - 1);
                assert(line =~= head.subrange(0, head.len() - 1));
            }
            lemma_lines_lack(s, c, e + 1);
            let rest = lines_from(s, e + 1);
            let all = lines_from(s, i);
            assert forall|k: int| 0 <= k < all.len() implies !(#[trigger] all[k]).contains(c) by {
                if k > 0 {
                    assert(all[k] == rest[k - 1]);
                }
            }
        } else {
            lemma_part_lacks(s, c, i, s.len() as int);
        }
    }
}

pub(crate) proof fn lemma_trim_lacks(s: Seq<char>, c: char)
    requires
        !s.contains(c),
    ensures
        !trim_end(s).contains(c),
    decreases s.len(),
{
    if s.len() > 0 && is_blank(s.last()) {
        lemma_part_lacks(s, c, 0, s.len() - 1);
        assert(s.drop_last() =~= s.subrange(0, s.len() - 1));
        lemma_trim_lacks(s.drop_last(), c);
    }
}

/// No line holds a character.
pub open spec fn all_lack(lines: Seq<Seq<char>>, c: char) -> bool {
    forall|k: int| 0 <= k < lines.len() ==> !(#[trigger] lines[k]).contains(c)
}

proof fn lemma_ends_lack(lines: Seq<Seq<char>>, c: char)
    requires
        all_lack(lines, c),
    ensures
        all_lack(from_first(lines), c),
        all_lack(up_to_last(lines), c),
    decreases lines.len(),
{
    if lines.len() > 0 && lines[0].len() == 0 {
        let rest = lines.drop_first();
        assert forall|k: int| 0 <= k < rest.len() implies !(#[trigger] rest[k]).contains(c) by {
            assert(rest[k] == lines[k + 1]);
        }
        lemma_ends_lack(rest, c);
    }
    if lines.len() > 0 && lines.last().len() == 0 {
        lemma_ends_lack(lines.drop_last(), c);
    }
}

proof fn lemma_written_lacks(lines: Seq<Seq<char>>, c: char, n: nat)
    requires
        all_lack(lines, c),
        c != '\n',
        n <= lines.len(),
    ensures
        !written_lines(lines, n).contains(c),
    decreases n,
{
    if n > 0 {
        lemma_written_lacks(lines, c, (n - 1) as nat);
        let before = written_lines(lines, (n - 1) as nat);
        let line = lines[n - 1];
        let all = written_lines(lines, n);
        assert forall|k: int| 0 <= k < all.len() implies all[k] != c by {
            if k < before.len() {
                assert(before.contains(before[k]));
            } else if k - before.len() < line.len() {
                assert(line.contains(line[k - before.len()]));
            }
        }
    }
}

pub(crate) proof fn lemma_collapsed_lacks(s: Seq<char>, c: char)
    requires
        !s.contains(c),
        c != '\n',
    ensures
        !collapsed(s).contains(c),
{
    lemma_lines_lack(s, c, 0);
    let raw = lines_of(s);
    let tidy = tidy_lines(s);
    assert forall|k: int| 0 <= k < tidy.len() implies !(#[trigger] tidy[k]).contains(c) by {
        assert(!raw[k].contains(c));
        lemma_trim_lacks(raw[k], c);
    }
    lemma_ends_lack(tidy, c);
    lemma_ends_lack(from_first(tidy), c);
    let lines = up_to_last(from_first(tidy));
    lemma_written_lacks(lines, c, lines.len());
}

/// A text that is cleaned in its own case holds no carriage return, and any text
/// no more characters than are asked for.
pub proof fn cleaned_text_is_in_bounds(s: Seq<char>, o: CleanOptions)
    ensures
        o.max_chars matches Some(n) ==> cleaned(s, o).len() <= n,
        !o.lowercase ==> !cleaned(s, o).contains('\r'),
{
    if !o.lowercase {
        let body = if o.strip_gutenberg {
            body_of(s)
        } else {
            s
        };
        lemma_no_returns(body, o);
        let plain = cleaned_chars(body, o);
        lemma_collapsed_lacks(plain, '\r');
        let tidy = if o.collapse_whitespace {
            collapsed(plain)
        } else {
            plain
        };
        let r = cleaned(s, o);
        assert forall|k: int| 0 <= k < r.len() implies r[k] != '\r' by {
            assert(tidy.contains(tidy[k]));
        }
    }
}

} // verus!
