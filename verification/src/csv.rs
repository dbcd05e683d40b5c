//! Tables of numbers in comma-separated text.
use crate::decimal::{is_parse, parse_chars, Decimals};
use crate::error::{InferError, Result};
use crate::float::{of_int, F32};
use crate::float_errors::{positive, unit};
use crate::gguf_tokenizer::strings_of;
use crate::ops::append_row;
use crate::rng::{is_permutation, shuffled, state_after, Rng};
use crate::split_laws::{is_division, is_nearest_part, the_rows_held_back_are_the_fraction};
use crate::tensor::{copy_f32, Tensor};
use crate::text::{chars_of, dec, joined, same_text, string_of, with_number};
use crate::text_index::{first_at, texts_of, TextIndex};
use crate::textops::{
    lines_exec, lines_of, shed, shed_exec, slice_of, split_exec, split_on, trim, trim_exec,
};
use vstd::prelude::*;

pub use crate::metadata::ModelMetadata;
pub use crate::normalizer::{fit_normalizer_with_target, Normalizer};

verus! {

/// What a network predicts.
#[derive(Clone, Copy, Debug, PartialEq, Eq, Structural)]
pub enum TaskType {
    /// A class.
    Classification,
    /// A number.
    Regression,
    /// The next token.
    TransformerSLM,
}

/// The name of a task.
pub open spec fn task_name(t: TaskType) -> Seq<char> {
    match t {
        TaskType::Classification => "classification"@,
        TaskType::Regression => "regression"@,
        TaskType::TransformerSLM => "transformer_slm"@,
    }
}

/// The task of a name.
pub open spec fn task_named(s: Seq<char>) -> Option<TaskType> {
    if s == task_name(TaskType::Classification) {
        Some(TaskType::Classification)
    } else if s == task_name(TaskType::Regression) {
        Some(TaskType::Regression)
    } else if s == task_name(TaskType::TransformerSLM) {
        Some(TaskType::TransformerSLM)
    } else {
        None
    }
}

impl TaskType {
    /// The name.
    pub fn as_str(&self) -> (s: &'static str)
        ensures
            s@ == task_name(*self),
    {
        match self {
            TaskType::Classification => "classification",
            TaskType::Regression => "regression",
            TaskType::TransformerSLM => "transformer_slm",
        }
    }

    /// The task of a name.
    pub fn from_str(s: &str) -> (r: Option<Self>)
        ensures
            r == task_named(s@),
    {
        if same_text(s, "classification") {
            Some(TaskType::Classification)
        } else if same_text(s, "regression") {
            Some(TaskType::Regression)
        } else if same_text(s, "transformer_slm") {
            Some(TaskType::TransformerSLM)
        } else {
            None
        }
    }
}

/// Each task is found again by its name.
pub proof fn task_names_round_trip(t: TaskType)
    ensures
        task_named(task_name(t)) == Some(t),
{
    reveal_strlit("classification");
    reveal_strlit("regression");
    reveal_strlit("transformer_slm");
    assert("classification"@.len() != "regression"@.len());
    assert("transformer_slm"@.len() != "regression"@.len());
    assert("transformer_slm"@.len() != "classification"@.len());
}

/// One row: its features, its class, its target.
#[derive(Clone, Debug, PartialEq)]
pub struct CsvRow {
    pub features: Vec<F32>,
    /// The class, or zero where a number is predicted.
    pub label: usize,
    /// The number to predict, or the class as a number.
    pub target: F32,
}

/// A table with its classes and ranges.
pub struct CsvDataset {
    pub rows: Vec<CsvRow>,
    pub num_features: usize,
    pub num_classes: usize,
    pub class_names: Vec<String>,
    pub feature_names: Vec<String>,
    pub task: TaskType,
    /// Smallest and largest number of each feature.
    pub feature_ranges: Vec<[F32; 2]>,
    pub target_range: [F32; 2],
}

// ---------------------------------------------------------------------------
// The table of texts
// ---------------------------------------------------------------------------

/// The cells of a line.
pub open spec fn cells(line: Seq<char>) -> Seq<Seq<char>> {
    split_on(line, ',').map_values(|c: Seq<char>| trim(c))
}

/// The lines behind the blank ones at the beginning.
pub open spec fn data_lines(lines: Seq<Seq<char>>) -> Seq<Seq<char>>
    decreases lines.len(),
{
    if lines.len() > 0 && trim(lines[0]).len() == 0 {
        data_lines(lines.drop_first())
    } else {
        lines
    }
}

/// The cells of a line that is a row: it is not blank and has two cells or more.
pub open spec fn row_cells(line: Seq<char>) -> Option<Seq<Seq<char>>> {
    if trim(line).len() == 0 || cells(trim(line)).len() < 2 {
        None
    } else {
        Some(cells(trim(line)))
    }
}

/// The rows among lines.
pub open spec fn rows_among(lines: Seq<Seq<char>>) -> Seq<Seq<Seq<char>>>
    decreases lines.len(),
{
    if lines.len() == 0 {
        Seq::empty()
    } else {
        match row_cells(lines.last()) {
            Some(c) => rows_among(lines.drop_last()).push(c),
            None => rows_among(lines.drop_last()),
        }
    }
}

/// The rows of a table, whose first line is a header or is not.
pub open spec fn table_rows(lines: Seq<Seq<char>>, header: bool) -> Seq<Seq<Seq<char>>> {
    rows_among(
        if header {
            lines.drop_first()
        } else {
            lines
        },
    )
}

/// The places of the rows among lines.
pub open spec fn places_among(lines: Seq<Seq<char>>) -> Seq<int>
    decreases lines.len(),
{
    if lines.len() == 0 {
        Seq::empty()
    } else {
        match row_cells(lines.last()) {
            Some(_) => places_among(lines.drop_last()).push(lines.len() - 1),
            None => places_among(lines.drop_last()),
        }
    }
}

/// The places of the rows of a table among its lines, the header not counted.
pub open spec fn table_places(lines: Seq<Seq<char>>, header: bool) -> Seq<int> {
    places_among(
        if header {
            lines.drop_first()
        } else {
            lines
        },
    )
}

/// The names of features without one: `feature_0`, `feature_1` and so on.
pub open spec fn plain_names(n: nat) -> Seq<Seq<char>> {
    Seq::new(n, |i: int| "feature_"@ + dec(i as nat))
}

/// The names of the features: those of the header but its last, without quotes.
pub open spec fn header_names(line: Seq<char>) -> Seq<Seq<char>> {
    cells(line).drop_last().map_values(|c: Seq<char>| shed(c, '"'))
}

/// The names of the features of a table of `n` features.
pub open spec fn table_names(lines: Seq<Seq<char>>, header: bool, n: nat) -> Seq<Seq<char>> {
    if header && header_names(lines[0]).len() > 0 {
        header_names(lines[0])
    } else {
        plain_names(n)
    }
}

/// What is predicted in each row, without quotes.
pub open spec fn labels_of(rows: Seq<Seq<Seq<char>>>) -> Seq<Seq<char>> {
    rows.map_values(|c: Seq<Seq<char>>| shed(c.last(), '"'))
}

fn cells_exec(line: &[char]) -> (r: Vec<Vec<char>>)
    ensures
        texts_of(r@) == cells(line@),
        r@.len() >= 1,
{
    let parts: Vec<Vec<char>> = split_exec(line, ',');
    let ghost all = split_on(line@, ',');
    let mut r: Vec<Vec<char>> = Vec::new();
    let mut i: usize = 0;
    while i < parts.len()
        invariant
            i <= parts@.len(),
            all == texts_of(parts@),
            r@.len() == i,
            forall|k: int| 0 <= k < i ==> (#[trigger] r@[k])@ == trim(all[k]),
        decreases parts@.len() - i,
    {
        r.push(trim_exec(parts[i].as_slice()));
        i = i + 1;
    }
    assert(texts_of(r@) =~= cells(line@));
    r
}

fn data_lines_exec(text: &str) -> (r: Vec<Vec<char>>)
    ensures
        texts_of(r@) == data_lines(lines_of(text@)),
{
    let s: Vec<char> = chars_of(text);
    let all: Vec<Vec<char>> = lines_exec(s.as_slice());
    let ghost ls = texts_of(all@);
    let n: usize = all.len();
    let mut b: usize = 0;
    assert(ls.skip(0) =~= ls);
    while b < n && trim_exec(all[b].as_slice()).len() == 0
        invariant
            b <= n,
            n == all@.len(),
            ls == texts_of(all@),
            data_lines(ls) == data_lines(ls.skip(b as int)),
        decreases n - b,
    {
        proof {
            assert(ls.skip(b as int).drop_first() =~= ls.skip(b + 1));
            assert(ls.skip(b as int)[0] == all@[b as int]@);
        }
        b = b + 1;
    }
    proof {
        if b < n {
            assert(ls.skip(b as int)[0] == all@[b as int]@);
        }
    }
    let mut r: Vec<Vec<char>> = Vec::new();
    let mut i: usize = b;
    while i < n
        invariant
            b <= i <= n,
            n == all@.len(),
            ls == texts_of(all@),
            r@.len() == i - b,
            forall|k: int| 0 <= k < i - b ==> (#[trigger] r@[k])@ == ls[b + k],
        decreases n - i,
    {
        let line: Vec<char> = slice_of(all[i].as_slice(), 0, all[i].len());
        assert(line@ =~= ls[i as int]);
        r.push(line);
        i = i + 1;
    }
    assert(texts_of(r@) =~= ls.skip(b as int));
    r
}

/// The texts of the rows of a table.
pub open spec fn grid_of(v: Seq<Vec<Vec<char>>>) -> Seq<Seq<Seq<char>>> {
    Seq::new(v.len(), |i: int| texts_of(v[i]@))
}

/// Places as integers.
pub open spec fn places_of(v: Seq<usize>) -> Seq<int> {
    Seq::new(v.len(), |i: int| v[i] as int)
}

/// The rows of a table, whose first line is a header or is not, and their places
/// among its lines.
fn table_rows_exec(lines: &Vec<Vec<char>>, header: bool) -> (r: (Vec<Vec<Vec<char>>>, Vec<usize>))
    requires
        header ==> lines@.len() > 0,
    ensures
        grid_of(r.0@) == table_rows(texts_of(lines@), header),
        places_of(r.1@) == table_places(texts_of(lines@), header),
        r.1@.len() == r.0@.len(),
        forall|i: int| 0 <= i < r.0@.len() ==> (#[trigger] r.0@[i])@.len() >= 2,
{
    let start: usize = if header {
        1
    } else {
        0
    };
    let n: usize = lines.len();
    let ghost all = texts_of(lines@).skip(start as int);
    proof {
        if header {
            assert(all =~= texts_of(lines@).drop_first());
        } else {
            assert(all =~= texts_of(lines@));
        }
    }
    let mut r: Vec<Vec<Vec<char>>> = Vec::new();
    let mut places: Vec<usize> = Vec::new();
    let mut i: usize = start;
    assert(grid_of(r@) =~= rows_among(all.subrange(0, 0)));
    assert(places_of(places@) =~= places_among(all.subrange(0, 0)));
    while i < n
        invariant
            start <= i <= n,
            n == lines@.len(),
            all == texts_of(lines@).skip(start as int),
            grid_of(r@) == rows_among(all.subrange(0, i - start)),
            places_of(places@) == places_among(all.subrange(0, i - start)),
            places@.len() == r@.len(),
            forall|k: int| 0 <= k < r@.len() ==> (#[trigger] r@[k])@.len() >= 2,
        decreases n - i,
    {
        let line: Vec<char> = trim_exec(lines[i].as_slice());
        proof {
            let next = all.subrange(0, i + 1 - start);
            assert(next.drop_last() =~= all.subrange(0, i - start));
            assert(next.last() == lines@[i as int]@);
        }
        if line.len() > 0 {
            let row: Vec<Vec<char>> = cells_exec(line.as_slice());
            assert(row@.len() == texts_of(row@).len());
            if row.len() >= 2 {
                let ghost before = grid_of(r@);
                let ghost passed = places_of(places@);
                r.push(row);
                places.push(i - start);
                assert(grid_of(r@) =~= before.push(texts_of(row@)));
                assert(places_of(places@) =~= passed.push(i - start));
            }
        }
        i = i + 1;
    }
    assert(all.subrange(0, n - start) =~= all);
    (r, places)
}

fn strings_from(v: &Vec<Vec<char>>) -> (r: Vec<String>)
    ensures
        strings_of(r@) == texts_of(v@),
{
    let mut r: Vec<String> = Vec::new();
    let mut i: usize = 0;
    while i < v.len()
        invariant
            i <= v@.len(),
            r@.len() == i,
            forall|k: int| 0 <= k < i ==> (#[trigger] r@[k])@ == v@[k]@,
        decreases v@.len() - i,
    {
        r.push(string_of(v[i].as_slice()));
        i = i + 1;
    }
    assert(strings_of(r@) =~= texts_of(v@));
    r
}

/// The names of the features of a table of `n` features.
pub fn table_names_exec(lines: &Vec<Vec<char>>, header: bool, n: usize) -> (r: Vec<String>)
    requires
        header ==> lines@.len() > 0,
    ensures
        strings_of(r@) == table_names(texts_of(lines@), header, n as nat),
{
    if header {
        let row: Vec<Vec<char>> = cells_exec(lines[0].as_slice());
        let ghost hs = header_names(lines@[0]@);
        let mut r: Vec<String> = Vec::new();
        let mut i: usize = 0;
        assert(row@.len() == texts_of(row@).len());
        while i < row.len() - 1
            invariant
                row@.len() >= 1,
                i <= row@.len() - 1,
                texts_of(row@) == cells(lines@[0]@),
                hs == header_names(lines@[0]@),
                r@.len() == i,
                forall|k: int| 0 <= k < i ==> (#[trigger] r@[k])@ == hs[k],
            decreases row@.len() - i,
        {
            let name: Vec<char> = shed_exec(row[i].as_slice(), '"');
            assert(cells(lines@[0]@)[i as int] == row@[i as int]@);
            r.push(string_of(name.as_slice()));
            i = i + 1;
        }
        assert(strings_of(r@) =~= hs);
        assert(texts_of(lines@)[0] == lines@[0]@);
        if r.len() > 0 {
            return r;
        }
    }
    let mut r: Vec<String> = Vec::new();
    let mut i: usize = 0;
    while i < n
        invariant
            i <= n,
            r@.len() == i,
            forall|k: int| 0 <= k < i ==> (#[trigger] r@[k])@ == "feature_"@ + dec(k as nat),
        decreases n - i,
    {
        let name: String = with_number("feature_", i, "");
        proof {
            reveal_strlit("");
            assert(name@ =~= "feature_"@ + dec(i as nat));
        }
        r.push(name);
        i = i + 1;
    }
    assert(strings_of(r@) =~= plain_names(n as nat));
    r
}

// ---------------------------------------------------------------------------
// The dataset
// ---------------------------------------------------------------------------

/// The different texts, in the order in which they come first.
pub open spec fn classes_of(labels: Seq<Seq<char>>) -> Seq<Seq<char>>
    decreases labels.len(),
{
    if labels.len() == 0 {
        Seq::empty()
    } else if first_at(classes_of(labels.drop_last()), labels.last()) is Some {
        classes_of(labels.drop_last())
    } else {
        classes_of(labels.drop_last()).push(labels.last())
    }
}

/// Every value is a number.
pub open spec fn all_numbers(vals: Seq<Option<F32>>) -> bool {
    forall|i: int| 0 <= i < vals.len() ==> (#[trigger] vals[i]) is Some
}

/// More different numbers than this are no classes.
pub open spec fn class_limit(n: int) -> int {
    if n > 50 {
        15
    } else {
        n / 3
    }
}

/// The task: the one asked for; else a number is predicted if all targets are
/// numbers and many of them differ.
pub open spec fn task_of(
    labels: Seq<Seq<char>>,
    vals: Seq<Option<F32>>,
    force: Option<TaskType>,
) -> TaskType {
    match force {
        Some(t) => t,
        None => if all_numbers(vals) && classes_of(labels).len() > class_limit(
            labels.len() as int,
        ) {
            TaskType::Regression
        } else {
            TaskType::Classification
        },
    }
}

/// The smallest of the first `n` numbers, not above the largest finite one.
pub open spec fn least(f: spec_fn(int) -> F32, n: nat) -> F32
    decreases n,
{
    if n == 0 {
        F32 { bits: 0x7f7f_ffff }
    } else {
        let m = least(f, (n - 1) as nat);
        if f(n - 1).lt_spec(m) {
            f(n - 1)
        } else {
            m
        }
    }
}

/// The largest of the first `n` numbers, not below the smallest finite one.
pub open spec fn greatest(f: spec_fn(int) -> F32, n: nat) -> F32
    decreases n,
{
    if n == 0 {
        F32 { bits: 0xff7f_ffff }
    } else {
        let m = greatest(f, (n - 1) as nat);
        if m.lt_spec(f(n - 1)) {
            f(n - 1)
        } else {
            m
        }
    }
}

/// Numbers row by row.
pub open spec fn numbers_of(v: Seq<Vec<F32>>) -> Seq<Seq<F32>> {
    Seq::new(v.len(), |i: int| v[i]@)
}

/// The numbers of feature `j`.
pub open spec fn column(feats: Seq<Seq<F32>>, j: int) -> spec_fn(int) -> F32 {
    |i: int| feats[i][j]
}

/// The targets as numbers.
pub open spec fn target_column(vals: Seq<Option<F32>>) -> spec_fn(int) -> F32 {
    |i: int| vals[i]->0
}

/// Row `i` holds its features, and its class or its target.
pub open spec fn row_holds(
    row: CsvRow,
    features: Seq<F32>,
    classes: Seq<Seq<char>>,
    label: Seq<char>,
    val: Option<F32>,
    task: TaskType,
) -> bool {
    &&& row.features@ == features
    &&& if task is Regression {
        row.label == 0 && Some(row.target) == val
    } else {
        first_at(classes, label) == Some(row.label as int) && row.target == of_int(
            row.label as int,
        )
    }
}

impl CsvDataset {
    /// The dataset of rows of numbers, what is predicted in each, and that as a
    /// number where it is one.
    pub open spec fn holds(
        self,
        names: Seq<Seq<char>>,
        feats: Seq<Seq<F32>>,
        labels: Seq<Seq<char>>,
        vals: Seq<Option<F32>>,
        force: Option<TaskType>,
    ) -> bool {
        let task = task_of(labels, vals, force);
        let classes = classes_of(labels);
        let n = feats.len();
        &&& self.task == task
        &&& strings_of(self.feature_names@) == names
        &&& self.num_features == feats[0].len()
        &&& self.rows@.len() == n
        &&& forall|i: int|
            0 <= i < n ==> row_holds(
                #[trigger] self.rows@[i],
                feats[i],
                classes,
                labels[i],
                vals[i],
                task,
            )
        &&& self.feature_ranges@.len() == feats[0].len()
        &&& forall|j: int|
            0 <= j < feats[0].len() ==> (#[trigger] self.feature_ranges@[j])@ == seq![
                least(column(feats, j), n),
                greatest(column(feats, j), n),
            ]
        &&& if task is Regression {
            &&& self.num_classes == 1
            &&& self.class_names@.len() == 0
            &&& self.target_range@ == seq![
                least(target_column(vals), n),
                greatest(target_column(vals), n),
            ]
        } else {
            &&& self.num_classes == classes.len()
            &&& strings_of(self.class_names@) == classes
            &&& self.target_range@ == seq![F32 { bits: 0 }, of_int(classes.len() - 1)]
        }
    }

    /// Puts a dataset together from rows of numbers, what is predicted in each,
    /// and that as a number where it is one.
    pub fn assemble(
        names: Vec<String>,
        feats: Vec<Vec<F32>>,
        labels: Vec<Vec<char>>,
        vals: Vec<Option<F32>>,
        force: Option<TaskType>,
    ) -> (r: Result<CsvDataset>)
        requires
            feats@.len() > 0,
            labels@.len() == feats@.len(),
            vals@.len() == feats@.len(),
            forall|i: int|
                0 <= i < feats@.len() ==> (#[trigger] feats@[i])@.len() == feats@[0]@.len(),
        ensures
            match r {
                Ok(ds) => ds.holds(
                    strings_of(names@),
                    numbers_of(feats@),
                    texts_of(labels@),
                    vals@,
                    force,
                ),
                Err(e) => e is ParseError && task_of(texts_of(labels@), vals@, force) is Regression
                    && !all_numbers(vals@) && target_text(
                    texts_of(labels@),
                    vals@,
                    e->ParseError_0@,
                ),
            },
            task_of(texts_of(labels@), vals@, force) is Regression && !all_numbers(vals@) ==> r
                is Err,
    {
        let n: usize = feats.len();
        let width: usize = feats[0].len();
        let ghost fs = numbers_of(feats@);
        let ghost ls = texts_of(labels@);
        let numeric: bool = all_numbers_exec(&vals);
        let (classes, index) = classes_exec(&labels);
        let limit: usize = if n > 50 {
            15
        } else {
            n / 3
        };
        let task: TaskType = match force {
            Some(t) => t,
            None => if numeric && classes.keys.len() > limit {
                TaskType::Regression
            } else {
                TaskType::Classification
            },
        };
        assert(classes.keys@.len() == classes@.len());
        assert(task == task_of(ls, vals@, force));
        let regression: bool = match task {
            TaskType::Regression => true,
            _ => false,
        };
        if regression && !numeric {
            let mut i: usize = 0;
            while i < n && vals[i].is_some()
                invariant
                    i <= n,
                    n == vals@.len(),
                    forall|k: int| 0 <= k < i ==> (#[trigger] vals@[k]) is Some,
                decreases n - i,
            {
                i = i + 1;
            }
            if i < n {
                let shown: String = string_of(labels[i].as_slice());
                let t: String = joined("regression target: ", shown.as_str());
                assert(vals@[i as int] is None && ls[i as int] == shown@);
                return Err(InferError::ParseError(t));
            }
        }
        let feature_ranges: Vec<[F32; 2]> = ranges_exec(&feats, width);
        let rows: Vec<CsvRow> = rows_exec(&feats, &labels, &vals, &classes, &index, task);
        let (num_classes, class_names, target_range) = if regression {
            let lo: F32 = least_exec(&vals);
            let hi: F32 = greatest_exec(&vals);
            (1usize, Vec::new(), [lo, hi])
        } else {
            let count: usize = classes.keys.len();
            proof {
                lemma_classes_nonempty(ls);
            }
            (
                count,
                strings_from(&classes.keys),
                [F32::zero(), F32::from_u64(count as u64 - 1)],
            )
        };
        proof {
            assert(target_range@ =~= seq![target_range@[0], target_range@[1]]);
        }
        Ok(
            CsvDataset {
                rows,
                num_features: width,
                num_classes,
                class_names,
                feature_names: names,
                task,
                feature_ranges,
                target_range,
            },
        )
    }
}

proof fn lemma_classes_nonempty(labels: Seq<Seq<char>>)
    requires
        labels.len() > 0,
    ensures
        classes_of(labels).len() > 0,
    decreases labels.len(),
{
    if labels.len() > 1 {
        lemma_classes_nonempty(labels.drop_last());
    } else {
        assert(labels.drop_last() =~= Seq::<Seq<char>>::empty());
    }
}

fn all_numbers_exec(vals: &Vec<Option<F32>>) -> (b: bool)
    ensures
        b == all_numbers(vals@),
{
    let mut i: usize = 0;
    while i < vals.len()
        invariant
            i <= vals@.len(),
            forall|k: int| 0 <= k < i ==> (#[trigger] vals@[k]) is Some,
        decreases vals@.len() - i,
    {
        if vals[i].is_none() {
            return false;
        }
        i = i + 1;
    }
    true
}

/// The classes, and the class of each text.
fn classes_exec(labels: &Vec<Vec<char>>) -> (r: (TextIndex, Vec<usize>))
    ensures
        r.0.wf(),
        r.0@ == classes_of(texts_of(labels@)),
        r.1@.len() == labels@.len(),
        forall|i: int|
            0 <= i < labels@.len() ==> first_at(r.0@, labels@[i]@) == Some(
                #[trigger] r.1@[i] as int,
            ),
{
    let n: usize = labels.len();
    let ghost ls = texts_of(labels@);
    let mut x: TextIndex = TextIndex::new(n);
    let mut v: Vec<usize> = Vec::new();
    let mut i: usize = 0;
    assert(x@ =~= classes_of(ls.subrange(0, 0)));
    while i < n
        invariant
            i <= n,
            n == labels@.len(),
            ls == texts_of(labels@),
            x.wf(),
            x@ == classes_of(ls.subrange(0, i as int)),
            v@.len() == i,
            forall|k: int|
                0 <= k < i ==> first_at(x@, labels@[k]@) == Some(#[trigger] v@[k] as int),
        decreases n - i,
    {
        let ghost before = x@;
        let ghost placed = v@;
        proof {
            let next = ls.subrange(0, i + 1);
            assert(next.drop_last() =~= ls.subrange(0, i as int));
            assert(next.last() == labels@[i as int]@);
        }
        match x.find(labels[i].as_slice()) {
            Some(at) => {
                v.push(at);
            },
            None => {
                let fresh: usize = x.keys.len();
                assert(x@.len() == fresh);
                let copy: Vec<char> = slice_of(labels[i].as_slice(), 0, labels[i].len());
                assert(copy@ =~= labels@[i as int]@);
                x.push(copy);
                v.push(fresh);
                proof {
                    assert(x@.drop_last() =~= before);
                    assert forall|k: int| 0 <= k < i + 1 implies first_at(x@, labels@[k]@) == Some(
                        #[trigger] v@[k] as int,
                    ) by {
                        if k < i {
                            assert(placed[k] == v@[k]);
                            assert(first_at(before, labels@[k]@) is Some);
                        }
                    }
                }
            },
        }
        i = i + 1;
    }
    assert(ls.subrange(0, n as int) =~= ls);
    (x, v)
}

fn ranges_exec(feats: &Vec<Vec<F32>>, width: usize) -> (r: Vec<[F32; 2]>)
    requires
        feats@.len() > 0,
        width == feats@[0]@.len(),
        forall|i: int| 0 <= i < feats@.len() ==> (#[trigger] feats@[i])@.len() == feats@[0]@.len(),
    ensures
        r@.len() == width,
        forall|j: int|
            0 <= j < width ==> (#[trigger] r@[j])@ == seq![
                least(column(numbers_of(feats@), j), feats@.len()),
                greatest(column(numbers_of(feats@), j), feats@.len()),
            ],
{
    let n: usize = feats.len();
    let ghost fs = numbers_of(feats@);
    let mut r: Vec<[F32; 2]> = Vec::new();
    let mut j: usize = 0;
    while j < width
        invariant
            j <= width,
            n == feats@.len(),
            n > 0,
            fs == numbers_of(feats@),
            width == feats@[0]@.len(),
            forall|i: int|
                0 <= i < feats@.len() ==> (#[trigger] feats@[i])@.len() == feats@[0]@.len(),
            r@.len() == j,
            forall|k: int|
                0 <= k < j ==> (#[trigger] r@[k])@ == seq![
                    least(column(fs, k), n as nat),
                    greatest(column(fs, k), n as nat),
                ],
        decreases width - j,
    {
        let mut lo: F32 = F32 { bits: 0x7f7f_ffff };
        let mut hi: F32 = F32 { bits: 0xff7f_ffff };
        let mut i: usize = 0;
        while i < n
            invariant
                i <= n,
                j < width,
                n == feats@.len(),
                fs == numbers_of(feats@),
                width == feats@[0]@.len(),
                forall|i: int|
                    0 <= i < feats@.len() ==> (#[trigger] feats@[i])@.len() == feats@[0]@.len(),
                lo == least(column(fs, j as int), i as nat),
                hi == greatest(column(fs, j as int), i as nat),
            decreases n - i,
        {
            assert(feats@[i as int]@.len() == width);
            let v: F32 = feats[i][j];
            assert(column(fs, j as int)(i as int) == v);
            if v.lt(lo) {
                lo = v;
            }
            if hi.lt(v) {
                hi = v;
            }
            i = i + 1;
        }
        let pair: [F32; 2] = [lo, hi];
        assert(pair@ =~= seq![lo, hi]);
        r.push(pair);
        j = j + 1;
    }
    r
}

fn least_exec(vals: &Vec<Option<F32>>) -> (m: F32)
    requires
        all_numbers(vals@),
    ensures
        m == least(target_column(vals@), vals@.len()),
{
    let mut m: F32 = F32 { bits: 0x7f7f_ffff };
    let mut i: usize = 0;
    while i < vals.len()
        invariant
            i <= vals@.len(),
            all_numbers(vals@),
            m == least(target_column(vals@), i as nat),
        decreases vals@.len() - i,
    {
        assert(vals@[i as int] is Some);
        match vals[i] {
            Some(v) => {
                assert(target_column(vals@)(i as int) == v);
                if v.lt(m) {
                    m = v;
                }
            },
            None => {},
        }
        i = i + 1;
    }
    m
}

fn greatest_exec(vals: &Vec<Option<F32>>) -> (m: F32)
    requires
        all_numbers(vals@),
    ensures
        m == greatest(target_column(vals@), vals@.len()),
{
    let mut m: F32 = F32 { bits: 0xff7f_ffff };
    let mut i: usize = 0;
    while i < vals.len()
        invariant
            i <= vals@.len(),
            all_numbers(vals@),
            m == greatest(target_column(vals@), i as nat),
        decreases vals@.len() - i,
    {
        assert(vals@[i as int] is Some);
        match vals[i] {
            Some(v) => {
                assert(target_column(vals@)(i as int) == v);
                if m.lt(v) {
                    m = v;
                }
            },
            None => {},
        }
        i = i + 1;
    }
    m
}

fn rows_exec(
    feats: &Vec<Vec<F32>>,
    labels: &Vec<Vec<char>>,
    vals: &Vec<Option<F32>>,
    classes: &TextIndex,
    index: &Vec<usize>,
    task: TaskType,
) -> (rows: Vec<CsvRow>)
    requires
        labels@.len() == feats@.len(),
        vals@.len() == feats@.len(),
        index@.len() == feats@.len(),
        task is Regression ==> all_numbers(vals@),
        forall|i: int|
            0 <= i < labels@.len() ==> first_at(classes@, labels@[i]@) == Some(
                #[trigger] index@[i] as int,
            ),
    ensures
        rows@.len() == feats@.len(),
        forall|i: int|
            0 <= i < feats@.len() ==> row_holds(
                #[trigger] rows@[i],
                numbers_of(feats@)[i],
                classes@,
                texts_of(labels@)[i],
                vals@[i],
                task,
            ),
{
    let mut rows: Vec<CsvRow> = Vec::new();
    let mut i: usize = 0;
    while i < feats.len()
        invariant
            i <= feats@.len(),
            labels@.len() == feats@.len(),
            vals@.len() == feats@.len(),
            index@.len() == feats@.len(),
            task is Regression ==> all_numbers(vals@),
            forall|k: int|
                0 <= k < labels@.len() ==> first_at(classes@, labels@[k]@) == Some(
                    #[trigger] index@[k] as int,
                ),
            rows@.len() == i,
            forall|k: int|
                0 <= k < i ==> row_holds(
                    #[trigger] rows@[k],
                    numbers_of(feats@)[k],
                    classes@,
                    texts_of(labels@)[k],
                    vals@[k],
                    task,
                ),
        decreases feats@.len() - i,
    {
        let features: Vec<F32> = copy_f32(feats[i].as_slice());
        let class: usize = index[i];
        assert(first_at(classes@, labels@[i as int]@) == Some(index@[i as int] as int));
        let row: CsvRow = match task {
            TaskType::Regression => {
                assert(vals@[i as int] is Some);
                let v: F32 = match vals[i] {
                    Some(v) => v,
                    None => F32::zero(),
                };
                CsvRow { features, label: 0, target: v }
            },
            _ => CsvRow { features, label: class, target: F32::from_u64(class as u64) },
        };
        rows.push(row);
        i = i + 1;
    }
    rows
}

// ---------------------------------------------------------------------------
// Reading
// ---------------------------------------------------------------------------

/// `h` is what the last cell of the first line reads as.
pub open spec fn header_read<D: Decimals>(d: &D, lines: Seq<Seq<char>>, h: Option<F32>) -> bool {
    is_parse(d, cells(lines[0]).last(), h)
}

/// `f` is what the cells of a row but the last read as.
pub open spec fn row_read<D: Decimals>(d: &D, c: Seq<Seq<char>>, f: Seq<F32>) -> bool {
    &&& f.len() == c.len() - 1
    &&& forall|j: int| 0 <= j < f.len() ==> is_parse(d, c[j], Some(#[trigger] f[j]))
}

/// A cell of a row but the last does not read as a number.
pub open spec fn row_stops<D: Decimals>(d: &D, c: Seq<Seq<char>>) -> bool {
    exists|j: int| 0 <= j < c.len() - 1 && is_parse(d, #[trigger] c[j], None)
}

/// The first `k` rows are as long as the first, and `feats` is what they read as.
pub open spec fn rows_read<D: Decimals>(
    d: &D,
    rows: Seq<Seq<Seq<char>>>,
    k: int,
    feats: Seq<Seq<F32>>,
) -> bool {
    &&& feats.len() == k
    &&& forall|i: int|
        0 <= i < k ==> (#[trigger] rows[i]).len() == rows[0].len() && row_read(d, rows[i], feats[i])
}

/// `vals` is what texts read as.
pub open spec fn texts_read<D: Decimals>(
    d: &D,
    labels: Seq<Seq<char>>,
    vals: Seq<Option<F32>>,
) -> bool {
    &&& vals.len() == labels.len()
    &&& forall|i: int| 0 <= i < labels.len() ==> is_parse(d, labels[i], #[trigger] vals[i])
}

/// A dataset is what the lines read as.
pub open spec fn dataset_read<D: Decimals>(
    d: &D,
    lines: Seq<Seq<char>>,
    force: Option<TaskType>,
    h: Option<F32>,
    feats: Seq<Seq<F32>>,
    vals: Seq<Option<F32>>,
    ds: CsvDataset,
) -> bool {
    let rows = table_rows(lines, h is None);
    &&& lines.len() > 0
    &&& header_read(d, lines, h)
    &&& rows.len() > 0
    &&& rows_read(d, rows, rows.len() as int, feats)
    &&& texts_read(d, labels_of(rows), vals)
    &&& ds.holds(
        table_names(lines, h is None, (rows[0].len() - 1) as nat),
        feats,
        labels_of(rows),
        vals,
        force,
    )
}

/// Row `k` is the first of another length.
pub open spec fn uneven_at<D: Decimals>(
    d: &D,
    rows: Seq<Seq<Seq<char>>>,
    k: int,
    feats: Seq<Seq<F32>>,
) -> bool {
    0 <= k < rows.len() && rows_read(d, rows, k, feats) && rows[k].len() != rows[0].len()
}

/// Row `k` is the first with a feature that is no number.
pub open spec fn unread_at<D: Decimals>(
    d: &D,
    rows: Seq<Seq<Seq<char>>>,
    k: int,
    feats: Seq<Seq<F32>>,
) -> bool {
    &&& 0 <= k < rows.len()
    &&& rows_read(d, rows, k, feats)
    &&& rows[k].len() == rows[0].len()
    &&& row_stops(d, rows[k])
}

/// A target is no number where one is to be predicted.
pub open spec fn target_unread<D: Decimals>(
    d: &D,
    labels: Seq<Seq<char>>,
    force: Option<TaskType>,
    vals: Seq<Option<F32>>,
) -> bool {
    &&& texts_read(d, labels, vals)
    &&& task_of(labels, vals, force) is Regression
    &&& !all_numbers(vals)
}

/// What is said of a target that is no number: the first of them is named.
pub open spec fn target_text(labels: Seq<Seq<char>>, vals: Seq<Option<F32>>, t: Seq<char>) -> bool {
    exists|k: int|
        {
            &&& 0 <= k < vals.len()
            &&& (#[trigger] vals[k]) is None
            &&& forall|i: int| 0 <= i < k ==> (#[trigger] vals[i]) is Some
            &&& t == "regression target: "@ + labels[k]
        }
}

/// What is said of a row of `n` features where others have `expected`.
pub open spec fn uneven_text(line: int, n: int, expected: int) -> Seq<char> {
    "line "@ + dec(line as nat) + ": "@ + dec(n as nat) + " features, expected "@ + dec(
        expected as nat,
    )
}

/// What is said of a cell that is no number.
pub open spec fn cell_text(line: int, col: int, cell: Seq<char>) -> Seq<char> {
    "line "@ + dec(line as nat) + ", col "@ + dec(col as nat) + ": "@ + debug_text(cell)
}

/// A text reads as a number.
pub open spec fn reads_as_number<D: Decimals>(d: &D, cell: Seq<char>) -> bool {
    exists|v: F32| #[trigger] is_parse(d, cell, Some(v))
}

/// Cell `j` of a row is the first feature that is no number.
pub open spec fn is_bad_cell<D: Decimals>(d: &D, row: Seq<Seq<char>>, j: int) -> bool {
    &&& 0 <= j < row.len() - 1
    &&& is_parse(d, row[j], None)
    &&& forall|i: int| 0 <= i < j ==> reads_as_number(d, #[trigger] row[i])
}

/// The lines hold no table, and `t` says so: there are no rows, or rows of
/// different lengths.
pub open spec fn no_table<D: Decimals>(
    d: &D,
    lines: Seq<Seq<char>>,
    h: Option<F32>,
    t: Seq<char>,
) -> bool {
    let rows = table_rows(lines, h is None);
    let places = table_places(lines, h is None);
    &&& header_read(d, lines, h)
    &&& {
        ||| rows.len() == 0 && t == "no data rows"@
        ||| exists|k: int, feats: Seq<Seq<F32>>| #[trigger]
            uneven_at(d, rows, k, feats) && t == uneven_text(
                places[k],
                rows[k].len() - 1,
                rows[0].len() - 1,
            )
    }
}

/// A number is missing in the table, and `t` says which: a feature is none, or a
/// target.
pub open spec fn no_numbers<D: Decimals>(
    d: &D,
    lines: Seq<Seq<char>>,
    force: Option<TaskType>,
    h: Option<F32>,
    t: Seq<char>,
) -> bool {
    let rows = table_rows(lines, h is None);
    let places = table_places(lines, h is None);
    &&& header_read(d, lines, h)
    &&& rows.len() > 0
    &&& {
        ||| exists|k: int, feats: Seq<Seq<F32>>, j: int| #[trigger]
            unread_at(d, rows, k, feats) && #[trigger] is_bad_cell(d, rows[k], j) && t == cell_text(
                places[k],
                j,
                rows[k][j],
            )
        ||| exists|vals: Seq<Option<F32>>| #[trigger]
            target_unread(d, labels_of(rows), force, vals) && target_text(
                labels_of(rows),
                vals,
                t,
            )
    }
}

/// The text that `{:?}` makes of a text.
pub uninterp spec fn debug_text(s: Seq<char>) -> Seq<char>;

/// The `Debug` format of `str`: the text between quotes, with escapes where the
/// characters need them, which is left to the name.
#[verifier::external_body]
fn debug_of(s: &str) -> (t: String)
    ensures
        t@ == debug_text(s@),
{
    format!("{s:?}")
}

/// The numbers of a row, or the place of a cell that is none.
fn read_row<D: Decimals>(d: &D, c: &Vec<Vec<char>>) -> (r: std::result::Result<Vec<F32>, usize>)
    requires
        c@.len() >= 1,
    ensures
        match r {
            Ok(f) => row_read(d, texts_of(c@), f@),
            Err(j) => is_bad_cell(d, texts_of(c@), j as int),
        },
{
    let ghost cs = texts_of(c@);
    let mut f: Vec<F32> = Vec::new();
    let mut j: usize = 0;
    while j < c.len() - 1
        invariant
            c@.len() >= 1,
            j <= c@.len() - 1,
            cs == texts_of(c@),
            f@.len() == j,
            forall|k: int| 0 <= k < j ==> is_parse(d, cs[k], Some(#[trigger] f@[k])),
        decreases c@.len() - j,
    {
        match parse_chars(d, c[j].as_slice()) {
            Some(v) => f.push(v),
            None => {
                proof {
                    assert forall|i: int| 0 <= i < j implies reads_as_number(
                        d,
                        #[trigger] cs[i],
                    ) by {
                        assert(is_parse(d, cs[i], Some(f@[i])));
                    }
                }
                return Err(j);
            },
        }
        j = j + 1;
    }
    Ok(f)
}

/// The numbers of all rows.
fn read_rows<D: Decimals>(d: &D, rows: &Vec<Vec<Vec<char>>>, places: &Vec<usize>) -> (r: Result<
    Vec<Vec<F32>>,
>)
    requires
        rows@.len() > 0,
        places@.len() == rows@.len(),
        forall|i: int| 0 <= i < rows@.len() ==> (#[trigger] rows@[i])@.len() >= 2,
    ensures
        match r {
            Ok(feats) => rows_read(d, grid_of(rows@), rows@.len() as int, numbers_of(feats@)),
            Err(e) => {
                ||| e is Format && exists|k: int, feats: Seq<Seq<F32>>| #[trigger]
                    uneven_at(d, grid_of(rows@), k, feats) && e->Format_0@ == uneven_text(
                        places_of(places@)[k],
                        grid_of(rows@)[k].len() - 1,
                        grid_of(rows@)[0].len() - 1,
                    )
                ||| e is ParseError && exists|k: int, feats: Seq<Seq<F32>>, j: int| #[trigger]
                    unread_at(d, grid_of(rows@), k, feats) && #[trigger] is_bad_cell(
                        d,
                        grid_of(rows@)[k],
                        j,
                    ) && e->ParseError_0@ == cell_text(
                        places_of(places@)[k],
                        j,
                        grid_of(rows@)[k][j],
                    )
            },
        },
{
    let ghost rs = grid_of(rows@);
    let expected: usize = rows[0].len();
    let mut feats: Vec<Vec<F32>> = Vec::new();
    let mut i: usize = 0;
    while i < rows.len()
        invariant
            i <= rows@.len(),
            rows@.len() > 0,
            places@.len() == rows@.len(),
            rs == grid_of(rows@),
            expected == rows@[0]@.len(),
            forall|i: int| 0 <= i < rows@.len() ==> (#[trigger] rows@[i])@.len() >= 2,
            rows_read(d, rs, i as int, numbers_of(feats@)),
        decreases rows@.len() - i,
    {
        assert(rs[i as int].len() == rows@[i as int]@.len());
        assert(rs[0].len() == rows@[0]@.len());
        let len: usize = rows[i].len();
        if len != expected {
            assert(uneven_at(d, rs, i as int, numbers_of(feats@)));
            let t: String = with_number(
                with_number("line ", places[i], ": ").as_str(),
                len - 1,
                with_number(" features, expected ", expected - 1, "").as_str(),
            );
            proof {
                reveal_strlit("");
                assert(t@ =~= uneven_text(places@[i as int] as int, len - 1, expected - 1));
            }
            return Err(InferError::Format(t));
        }
        match read_row(d, &rows[i]) {
            Ok(f) => {
                let ghost before = numbers_of(feats@);
                feats.push(f);
                proof {
                    let after = numbers_of(feats@);
                    assert(after =~= before.push(f@));
                    assert forall|k: int| 0 <= k < i + 1 implies (#[trigger] rs[k]).len()
                        == rs[0].len() && row_read(d, rs[k], after[k]) by {
                        if k < i {
                            assert(rs[k].len() == rs[0].len() && row_read(d, rs[k], before[k]));
                        }
                    }
                }
            },
            Err(j) => {
                proof {
                    assert(is_parse(d, rs[i as int][j as int], None));
                    assert(unread_at(d, rs, i as int, numbers_of(feats@)));
                    assert(is_bad_cell(d, rs[i as int], j as int));
                }
                let cell: String = string_of(rows[i][j].as_slice());
                let t: String = with_number(
                    with_number("line ", places[i], ", col ").as_str(),
                    j,
                    joined(": ", debug_of(cell.as_str()).as_str()).as_str(),
                );
                assert(t@ =~= cell_text(places@[i as int] as int, j as int, cell@));
                return Err(InferError::ParseError(t));
            },
        }
        i = i + 1;
    }
    Ok(feats)
}

/// What is predicted in each row, and that as a number where it is one.
fn read_labels<D: Decimals>(d: &D, rows: &Vec<Vec<Vec<char>>>) -> (r: (
    Vec<Vec<char>>,
    Vec<Option<F32>>,
))
    requires
        forall|i: int| 0 <= i < rows@.len() ==> (#[trigger] rows@[i])@.len() >= 2,
    ensures
        texts_of(r.0@) == labels_of(grid_of(rows@)),
        texts_read(d, labels_of(grid_of(rows@)), r.1@),
{
    let ghost rs = grid_of(rows@);
    let ghost ls = labels_of(rs);
    let mut labels: Vec<Vec<char>> = Vec::new();
    let mut vals: Vec<Option<F32>> = Vec::new();
    let mut i: usize = 0;
    while i < rows.len()
        invariant
            i <= rows@.len(),
            rs == grid_of(rows@),
            ls == labels_of(rs),
            forall|i: int| 0 <= i < rows@.len() ==> (#[trigger] rows@[i])@.len() >= 2,
            labels@.len() == i,
            vals@.len() == i,
            forall|k: int| 0 <= k < i ==> (#[trigger] labels@[k])@ == ls[k],
            forall|k: int| 0 <= k < i ==> is_parse(d, ls[k], #[trigger] vals@[k]),
        decreases rows@.len() - i,
    {
        assert(rows@[i as int]@.len() >= 2);
        let last: usize = rows[i].len() - 1;
        let label: Vec<char> = shed_exec(rows[i][last].as_slice(), '"');
        proof {
            assert(rs[i as int].last() == rows@[i as int]@[last as int]@);
            assert(label@ == ls[i as int]);
        }
        vals.push(parse_chars(d, label.as_slice()));
        labels.push(label);
        i = i + 1;
    }
    assert(texts_of(labels@) =~= ls);
    (labels, vals)
}

impl CsvDataset {
    /// Reads a table; the task is found in it.
    pub fn from_str<D: Decimals>(d: &D, text: &str) -> (r: Result<CsvDataset>)
        ensures
            ({
                let lines = data_lines(lines_of(text@));
                match r {
                    Ok(ds) => exists|h: Option<F32>, feats: Seq<Seq<F32>>, vals: Seq<Option<F32>>|
                        #[trigger] dataset_read(d, lines, None, h, feats, vals, ds),
                    Err(e) => {
                        ||| e is Format && lines.len() == 0 && e->Format_0@ == "empty CSV"@
                        ||| e is Format && lines.len() > 0 && exists|h: Option<F32>| #[trigger]
                            no_table(d, lines, h, e->Format_0@)
                        ||| e is ParseError && lines.len() > 0 && exists|h: Option<F32>| #[trigger]
                            no_numbers(d, lines, None, h, e->ParseError_0@)
                    },
                }
            }),
    {
        CsvDataset::from_str_with_task(d, text, None)
    }

    /// Reads a table: lines of cells, of which all but the last are numbers. The
    /// first line is a header if its last cell is no number. The task is the one
    /// asked for, or is found in the table.
    pub fn from_str_with_task<D: Decimals>(d: &D, text: &str, force_task: Option<TaskType>) -> (r:
        Result<CsvDataset>)
        ensures
            ({
                let lines = data_lines(lines_of(text@));
                match r {
                    Ok(ds) => exists|h: Option<F32>, feats: Seq<Seq<F32>>, vals: Seq<Option<F32>>|
                        #[trigger] dataset_read(d, lines, force_task, h, feats, vals, ds),
                    Err(e) => {
                        ||| e is Format && lines.len() == 0 && e->Format_0@ == "empty CSV"@
                        ||| e is Format && lines.len() > 0 && exists|h: Option<F32>| #[trigger]
                            no_table(d, lines, h, e->Format_0@)
                        ||| e is ParseError && lines.len() > 0 && exists|h: Option<F32>| #[trigger]
                            no_numbers(d, lines, force_task, h, e->ParseError_0@)
                    },
                }
            }),
    {
        let lines: Vec<Vec<char>> = data_lines_exec(text);
        let ghost ls = texts_of(lines@);
        if lines.len() == 0 {
            return Err(InferError::Format("empty CSV".to_owned()));
        }
        let first: Vec<Vec<char>> = cells_exec(lines[0].as_slice());
        let last: usize = first.len() - 1;
        proof {
            assert(ls[0] == lines@[0]@);
            assert(cells(ls[0]).last() == first@[last as int]@);
        }
        let h: Option<F32> = parse_chars(d, first[last].as_slice());
        let header: bool = h.is_none();
        assert(header_read(d, ls, h));
        let (rows, places) = table_rows_exec(&lines, header);
        let ghost rs = table_rows(ls, h is None);
        assert(rows@.len() == rs.len());
        if rows.len() == 0 {
            let e: InferError = InferError::Format("no data rows".to_owned());
            assert(no_table(d, ls, h, e->Format_0@));
            return Err(e);
        }
        let feats: Vec<Vec<F32>> = match read_rows(d, &rows, &places) {
            Ok(f) => f,
            Err(e) => {
                proof {
                    if e is Format {
                        assert(no_table(d, ls, h, e->Format_0@));
                    } else {
                        assert(no_numbers(d, ls, force_task, h, e->ParseError_0@));
                    }
                }
                return Err(e);
            },
        };
        let (labels, vals) = read_labels(d, &rows);
        assert(rows@[0]@.len() >= 2);
        let names: Vec<String> = table_names_exec(&lines, header, rows[0].len() - 1);
        let ghost fs = numbers_of(feats@);
        let ghost vs = vals@;
        let ghost lab = texts_of(labels@);
        proof {
            assert(labels@.len() == lab.len());
            assert(rs[0].len() == rows@[0]@.len());
            assert forall|i: int| 0 <= i < feats@.len() implies (#[trigger] feats@[i])@.len()
                == feats@[0]@.len() by {
                assert(rs[i].len() == rs[0].len() && row_read(d, rs[i], fs[i]));
                assert(row_read(d, rs[0], fs[0]));
                assert(fs[i] == feats@[i]@ && fs[0] == feats@[0]@);
            }
        }
        match CsvDataset::assemble(names, feats, labels, vals, force_task) {
            Ok(ds) => {
                assert(dataset_read(d, ls, force_task, h, fs, vs, ds));
                Ok(ds)
            },
            Err(e) => {
                proof {
                    assert(target_unread(d, labels_of(rs), force_task, vs));
                    assert(no_numbers(d, ls, force_task, h, e->ParseError_0@));
                }
                Err(e)
            },
        }
    }

    /// The number of rows.
    pub fn len(&self) -> (n: usize)
        ensures
            n == self.rows@.len(),
    {
        self.rows.len()
    }

    /// Whether there are no rows.
    pub fn is_empty(&self) -> (b: bool)
        ensures
            b == (self.rows@.len() == 0),
    {
        self.rows.len() == 0
    }

    /// The features as a matrix, the classes and the targets.
    pub fn to_tensors(&self) -> (r: Result<(Tensor, Vec<usize>, Vec<F32>)>)
        ensures
            ({
                let all = joined_features(self.rows@, self.rows@.len());
                match r {
                    Ok(t) => {
                        &&& t.0.wf()
                        &&& t.0.is_sized(self.rows@.len() as int, self.num_features as int)
                        &&& t.0.data@ == all
                        &&& t.1@ == self.rows@.map_values(|row: CsvRow| row.label)
                        &&& t.2@ == self.rows@.map_values(|row: CsvRow| row.target)
                    },
                    Err(e) => e is ShapeMismatch && all.len() != self.rows@.len()
                        * self.num_features,
                }
            }),
    {
        let n: usize = self.rows.len();
        let mut data: Vec<F32> = Vec::new();
        let mut labels: Vec<usize> = Vec::new();
        let mut targets: Vec<F32> = Vec::new();
        let mut i: usize = 0;
        while i < n
            invariant
                i <= n,
                n == self.rows@.len(),
                data@ == joined_features(self.rows@, i as nat),
                labels@.len() == i,
                targets@.len() == i,
                forall|k: int| 0 <= k < i ==> #[trigger] labels@[k] == self.rows@[k].label,
                forall|k: int| 0 <= k < i ==> #[trigger] targets@[k] == self.rows@[k].target,
            decreases n - i,
        {
            append_row(&mut data, self.rows[i].features.as_slice());
            labels.push(self.rows[i].label);
            targets.push(self.rows[i].target);
            i = i + 1;
        }
        assert(labels@ =~= self.rows@.map_values(|row: CsvRow| row.label));
        assert(targets@ =~= self.rows@.map_values(|row: CsvRow| row.target));
        match Tensor::matrix(n, self.num_features, data) {
            Ok(x) => Ok((x, labels, targets)),
            Err(e) => Err(e),
        }
    }
}

/// The features of the first `n` rows, one behind the other.
pub open spec fn joined_features(rows: Seq<CsvRow>, n: nat) -> Seq<F32>
    decreases n,
{
    if n == 0 {
        Seq::empty()
    } else {
        joined_features(rows, (n - 1) as nat) + rows[n - 1].features@
    }
}

// ---------------------------------------------------------------------------
// Splitting
// ---------------------------------------------------------------------------

/// The number of rows that are held back of `n`: the nearest to the fraction,
/// one at least.
pub open spec fn held_back(n: int, fraction: F32) -> int {
    let k = of_int(n).mul_spec(fraction).round_spec().int_spec(0, usize::MAX as int);
    if k < 1 {
        1
    } else {
        k
    }
}

impl CsvRow {
    /// The same row.
    fn duplicate(&self) -> (r: CsvRow)
        ensures
            r.same(*self),
    {
        CsvRow {
            features: copy_f32(self.features.as_slice()),
            label: self.label,
            target: self.target,
        }
    }

    /// The rows hold the same numbers.
    pub open spec fn same(self, o: CsvRow) -> bool {
        self.features@ == o.features@ && self.label == o.label && self.target == o.target
    }
}

/// The same texts.
fn copy_strings(v: &Vec<String>) -> (r: Vec<String>)
    ensures
        strings_of(r@) == strings_of(v@),
{
    let mut r: Vec<String> = Vec::new();
    let mut i: usize = 0;
    while i < v.len()
        invariant
            i <= v@.len(),
            r@.len() == i,
            forall|k: int| 0 <= k < i ==> (#[trigger] r@[k])@ == v@[k]@,
        decreases v@.len() - i,
    {
        r.push(v[i].as_str().to_owned());
        i = i + 1;
    }
    assert(strings_of(r@) =~= strings_of(v@));
    r
}

impl CsvDataset {
    /// The dataset is the given rows of another.
    pub open spec fn is_part(self, ds: CsvDataset, places: Seq<usize>) -> bool {
        &&& self.rows@.len() == places.len()
        &&& forall|i: int|
            0 <= i < places.len() ==> (#[trigger] self.rows@[i]).same(ds.rows@[places[i] as int])
        &&& self.num_features == ds.num_features
        &&& self.num_classes == ds.num_classes
        &&& strings_of(self.class_names@) == strings_of(ds.class_names@)
        &&& strings_of(self.feature_names@) == strings_of(ds.feature_names@)
        &&& self.task == ds.task
        &&& self.feature_ranges@ == ds.feature_ranges@
        &&& self.target_range == ds.target_range
    }

    /// The rows at places `from` to `to` of an order.
    fn part(&self, order: &Vec<usize>, from: usize, to: usize) -> (r: CsvDataset)
        requires
            from <= to <= order@.len(),
            forall|i: int| 0 <= i < order@.len() ==> #[trigger] order@[i] < self.rows@.len(),
        ensures
            r.is_part(*self, order@.subrange(from as int, to as int)),
    {
        let mut rows: Vec<CsvRow> = Vec::new();
        let mut i: usize = from;
        while i < to
            invariant
                from <= i <= to <= order@.len(),
                forall|i: int| 0 <= i < order@.len() ==> #[trigger] order@[i] < self.rows@.len(),
                rows@.len() == i - from,
                forall|k: int|
                    0 <= k < i - from ==> (#[trigger] rows@[k]).same(
                        self.rows@[order@[from + k] as int],
                    ),
            decreases to - i,
        {
            rows.push(self.rows[order[i]].duplicate());
            i = i + 1;
        }
        let mut ranges: Vec<[F32; 2]> = Vec::new();
        let mut j: usize = 0;
        while j < self.feature_ranges.len()
            invariant
                j <= self.feature_ranges@.len(),
                ranges@ == self.feature_ranges@.subrange(0, j as int),
            decreases self.feature_ranges@.len() - j,
        {
            ranges.push(self.feature_ranges[j]);
            proof {
                assert(ranges@ =~= self.feature_ranges@.subrange(0, j + 1));
            }
            j = j + 1;
        }
        assert(ranges@ =~= self.feature_ranges@);
        CsvDataset {
            rows,
            num_features: self.num_features,
            num_classes: self.num_classes,
            class_names: copy_strings(&self.class_names),
            feature_names: copy_strings(&self.feature_names),
            task: self.task,
            feature_ranges: ranges,
            target_range: self.target_range,
        }
    }
}

/// Splits the rows at random into those to learn from and those held back.
pub fn train_val_split(ds: &CsvDataset, val_fraction: F32, rng: &mut Rng) -> (r: (
    CsvDataset,
    CsvDataset,
))
    requires
        held_back(ds.rows@.len() as int, val_fraction) <= ds.rows@.len(),
    ensures
        ({
            let n = ds.rows@.len();
            let k = held_back(n as int, val_fraction);
            let order = shuffled(old(rng)@, n);
            &&& r.1.is_part(*ds, order.subrange(0, k))
            &&& r.0.is_part(*ds, order.subrange(k, n as int))
            &&& is_permutation(order, n as int)
            &&& is_division(*ds, r.0, r.1, order)
            &&& 0 < n <= 0x10_0000 && positive(val_fraction) && !val_fraction.neg_spec()
                && val_fraction.units() <= unit() ==> is_nearest_part(
                r.1.rows@.len() as int,
                n as int,
                val_fraction,
            )
        }),
        final(rng)@ == state_after(old(rng)@, (ds.rows@.len() - 1) as nat),
{
    let n: usize = ds.rows.len();
    let order: Vec<usize> = rng.shuffled_indices(n);
    let wanted: usize = F32::from_u64(n as u64).mul(val_fraction).round().to_usize();
    let k: usize = if wanted < 1 {
        1
    } else {
        wanted
    };
    let val: CsvDataset = ds.part(&order, 0, k);
    let train: CsvDataset = ds.part(&order, k, n);
    proof {
        if 0 < n <= 0x10_0000 && positive(val_fraction) && !val_fraction.neg_spec()
            && val_fraction.units() <= unit() {
            the_rows_held_back_are_the_fraction(n as int, val_fraction);
        }
        assert(is_division(*ds, train, val, order@)) by {
            assert forall|i: int| 0 <= i < train.rows@.len() implies (
            #[trigger] train.rows@[i]).same(ds.rows@[order@[k + i] as int]) by {
                assert(order@.subrange(k as int, n as int)[i] == order@[k + i]);
            }
            assert forall|i: int| 0 <= i < k implies (#[trigger] val.rows@[i]).same(
                ds.rows@[order@[i] as int],
            ) by {
                assert(order@.subrange(0, k as int)[i] == order@[i]);
            }
        }
    }
    (train, val)
}

} // verus!
