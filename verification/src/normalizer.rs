//! Column-wise scaling to mean zero and deviation one.
use crate::decimal::{fixed_text, is_fixed, is_parse, parse_chars, Decimals};
use crate::error::{InferError, Result};
use crate::float::{of_int, F32};
use crate::index::{cell, lemma_cell, lemma_row};
use crate::ops::{column_sum, not_matrix, sum, sum_axis0, sum_of};
use crate::tensor::{copy_f32, zeros, Tensor};
use crate::text::{chars_of, joined, string_of, with_number};
use crate::text_index::texts_of;
use crate::textops::{join_exec, joined_by, joined_pieces_are_split, split_exec, split_on};
use vstd::prelude::*;

verus! {

/// Mean and deviation of each column. One column more than the features may
/// stand at the end: the number to predict.
#[derive(Clone, Debug)]
pub struct Normalizer {
    pub means: Vec<F32>,
    pub stds: Vec<F32>,
}

/// The squared distance to a mean.
pub open spec fn squared_distance(x: F32, mean: F32) -> F32 {
    x.sub_spec(mean).mul_spec(x.sub_spec(mean))
}

/// The sum of squared distances of column `j` over the first `n` rows.
pub open spec fn spread(data: Seq<F32>, c: int, j: int, mean: F32, n: nat) -> F32
    decreases n,
{
    if n == 0 {
        F32 { bits: 0 }
    } else {
        spread(data, c, j, mean, (n - 1) as nat).add_spec(
            squared_distance(data[cell(n - 1, j, c)], mean),
        )
    }
}

/// The deviation of a column from the sum of its squared distances; one for a
/// column that hardly varies.
pub open spec fn deviation(sum: F32, n: F32) -> F32 {
    let s = sum.div_spec(n).sqrt_spec();
    if s.lt_spec(F32 { bits: 0x322b_cc77 }) {
        F32 { bits: 0x3f80_0000 }
    } else {
        s
    }
}

/// A number relative to a mean and a deviation.
pub open spec fn standard(x: F32, mean: F32, std: F32) -> F32 {
    x.sub_spec(mean).div_spec(std)
}

/// The squared distances of numbers to a mean.
pub open spec fn squared_distances(v: Seq<F32>, mean: F32) -> Seq<F32> {
    v.map_values(|x: F32| squared_distance(x, mean))
}

/// The mean of numbers.
pub open spec fn mean_of(v: Seq<F32>) -> F32 {
    sum_of(v).div_spec(of_int(v.len() as int))
}

/// The deviation of numbers, no less than a smallest one.
pub open spec fn deviation_of(v: Seq<F32>) -> F32 {
    sum_of(squared_distances(v, mean_of(v))).div_spec(
        of_int(v.len() as int),
    ).sqrt_spec().max_spec(F32 { bits: 0x322b_cc77 })
}

/// The texts of means and deviations, with a comma in each pair.
pub open spec fn pair_texts(a: Seq<Seq<char>>, b: Seq<Seq<char>>) -> Seq<Seq<char>> {
    Seq::new(a.len(), |i: int| joined_by(seq![a[i], b[i]], ','))
}

/// Texts of numbers.
pub open spec fn texts_written<D: Decimals>(
    d: &D,
    v: Seq<F32>,
    digits: usize,
    t: Seq<Seq<char>>,
) -> bool {
    &&& t.len() == v.len()
    &&& forall|i: int| 0 <= i < v.len() ==> is_fixed(d, v[i], digits, #[trigger] t[i])
}

/// The text is the pairs, written and joined.
pub open spec fn encoding<D: Decimals>(
    d: &D,
    n: Normalizer,
    a: Seq<Seq<char>>,
    b: Seq<Seq<char>>,
    s: Seq<char>,
) -> bool {
    &&& texts_written(d, n.means@, 8, a)
    &&& texts_written(d, n.stds@, 8, b)
    &&& s == joined_by(pair_texts(a, b), ';')
}

/// The first `k` pairs of a text, read.
pub open spec fn pairs_read<D: Decimals>(
    d: &D,
    tokens: Seq<Seq<char>>,
    k: int,
    means: Seq<F32>,
    stds: Seq<F32>,
) -> bool {
    &&& means.len() == k
    &&& stds.len() == k
    &&& forall|i: int|
        #![trigger tokens[i]]
        0 <= i < k ==> {
            let p = split_on(tokens[i], ',');
            &&& p.len() == 2
            &&& is_parse(d, p[0], Some(means[i]))
            &&& is_parse(d, p[1], Some(stds[i]))
        }
}

/// Pair `k` of a text is the first that is none.
pub open spec fn no_pair_at<D: Decimals>(
    d: &D,
    tokens: Seq<Seq<char>>,
    k: int,
    means: Seq<F32>,
    stds: Seq<F32>,
) -> bool {
    &&& 0 <= k < tokens.len()
    &&& pairs_read(d, tokens, k, means, stds)
    &&& split_on(tokens[k], ',').len() != 2
}

/// Pair `k` of a text is the first with a part that is no number.
pub open spec fn no_number_at<D: Decimals>(
    d: &D,
    tokens: Seq<Seq<char>>,
    k: int,
    means: Seq<F32>,
    stds: Seq<F32>,
) -> bool {
    let p = split_on(tokens[k], ',');
    &&& 0 <= k < tokens.len()
    &&& pairs_read(d, tokens, k, means, stds)
    &&& p.len() == 2
    &&& is_parse(d, p[0], None) || is_parse(d, p[1], None)
}

impl Normalizer {
    /// There is a deviation to each mean.
    pub open spec fn wf(self) -> bool {
        self.means@.len() == self.stds@.len()
    }

    /// The mean and deviation of each column of a matrix.
    pub open spec fn fits(self, x: Tensor) -> bool {
        let rows = x.shape@[0];
        let cols = x.shape@[1];
        let n = of_int(rows as int);
        &&& self.means@.len() == cols
        &&& self.stds@.len() == cols
        &&& forall|j: int|
            0 <= j < cols ==> #[trigger] self.means@[j] == column_sum(
                x.data@,
                cols as int,
                j,
                rows as nat,
            ).div_spec(n)
        &&& forall|j: int|
            0 <= j < cols ==> #[trigger] self.stds@[j] == deviation(
                spread(x.data@, cols as int, j, self.means@[j], rows as nat),
                n,
            )
    }

    /// Mean and deviation of each column.
    pub fn fit(x: &Tensor) -> (r: Result<Normalizer>)
        requires
            x.wf(),
        ensures
            match r {
                Ok(n) => x.is_matrix() && x.shape@[0] > 0 && n.fits(*x),
                Err(e) => not_matrix(*x, e) || x.is_matrix() && x.shape@[0] == 0 && e is Format,
            },
    {
        let (rows, cols) = match x.matrix_dims() {
            Ok(d) => d,
            Err(e) => return Err(e),
        };
        if rows == 0 {
            return Err(InferError::Format("cannot fit on 0 rows".to_owned()));
        }
        let n: F32 = F32::from_u64(rows as u64);
        let sums: Tensor = match sum_axis0(x) {
            Ok(t) => t,
            Err(e) => return Err(e),
        };
        proof {
            crate::tensor::lemma_product_1(sums.shape@);
        }
        let mut means: Vec<F32> = Vec::new();
        let mut c: usize = 0;
        while c < cols
            invariant
                c <= cols,
                sums.data@.len() == cols,
                means@.len() == c,
                forall|j: int|
                    0 <= j < c ==> #[trigger] means@[j] == sums.data@[j].div_spec(n),
            decreases cols - c,
        {
            means.push(sums.data[c].div(n));
            c = c + 1;
        }
        let mut stds: Vec<F32> = Normalizer::spreads(x, rows, cols, &means);
        let mut c: usize = 0;
        while c < cols
            invariant
                c <= cols,
                stds@.len() == cols,
                forall|j: int|
                    0 <= j < c ==> #[trigger] stds@[j] == deviation(
                        spread(x.data@, cols as int, j, means@[j], rows as nat),
                        n,
                    ),
                forall|j: int|
                    c <= j < cols ==> #[trigger] stds@[j] == spread(
                        x.data@,
                        cols as int,
                        j,
                        means@[j],
                        rows as nat,
                    ),
            decreases cols - c,
        {
            let mut s: F32 = stds[c].div(n).sqrt();
            if s.lt(F32 { bits: 0x322b_cc77 }) {
                s = F32::one();
            }
            stds.set(c, s);
            c = c + 1;
        }
        Ok(Normalizer { means, stds })
    }

    /// The sums of squared distances of the columns.
    fn spreads(x: &Tensor, rows: usize, cols: usize, means: &Vec<F32>) -> (out: Vec<F32>)
        requires
            x.data@.len() == rows * cols,
            means@.len() == cols,
        ensures
            out@.len() == cols,
            forall|j: int|
                0 <= j < cols ==> #[trigger] out@[j] == spread(
                    x.data@,
                    cols as int,
                    j,
                    means@[j],
                    rows as nat,
                ),
    {
        let total: usize = x.data.len();
        let mut out: Vec<F32> = zeros(cols);
        let mut i: usize = 0;
        while i < rows
            invariant
                i <= rows,
                total == x.data@.len(),
                x.data@.len() == rows * cols,
                means@.len() == cols,
                out@.len() == cols,
                forall|j: int|
                    0 <= j < cols ==> #[trigger] out@[j] == spread(
                        x.data@,
                        cols as int,
                        j,
                        means@[j],
                        i as nat,
                    ),
            decreases rows - i,
        {
            proof {
                lemma_row(i as int, rows as int, cols as int);
            }
            let base: usize = i * cols;
            let mut j: usize = 0;
            while j < cols
                invariant
                    i < rows,
                    j <= cols,
                    base == i * cols,
                    base + cols <= total == x.data@.len(),
                    means@.len() == cols,
                    out@.len() == cols,
                    forall|c: int|
                        0 <= c < j ==> #[trigger] out@[c] == spread(
                            x.data@,
                            cols as int,
                            c,
                            means@[c],
                            (i + 1) as nat,
                        ),
                    forall|c: int|
                        j <= c < cols ==> #[trigger] out@[c] == spread(
                            x.data@,
                            cols as int,
                            c,
                            means@[c],
                            i as nat,
                        ),
                decreases cols - j,
            {
                let d: F32 = x.data[base + j].sub(means[j]);
                let v: F32 = out[j].add(d.mul(d));
                out.set(j, v);
                proof {
                    assert(cell(i + 1 - 1, j as int, cols as int) == base + j);
                }
                j = j + 1;
            }
            i = i + 1;
        }
        out
    }

    /// Each element relative to the mean and deviation of its column. The last
    /// pair is left out where the matrix has one column less.
    pub fn transform(&self, x: &Tensor) -> (r: Result<Tensor>)
        requires
            self.wf(),
            x.wf(),
        ensures
            match r {
                Ok(t) => {
                    let cols = x.shape@[1] as int;
                    &&& x.is_matrix()
                    &&& cols == self.means@.len() || cols == self.means@.len() - 1
                    &&& t.wf() && t.shape@ == x.shape@
                    &&& forall|i: int, j: int|
                        0 <= i < x.shape@[0] && 0 <= j < cols ==> #[trigger] t.at_spec(i, j)
                            == standard(x.at_spec(i, j), self.means@[j], self.stds@[j])
                },
                Err(e) => {
                    ||| not_matrix(*x, e)
                    ||| x.is_matrix() && x.shape@[1] != self.means@.len() && x.shape@[1]
                        != self.means@.len() - 1 && e is DimMismatch
                },
            },
    {
        let (rows, cols) = match x.matrix_dims() {
            Ok(d) => d,
            Err(e) => return Err(e),
        };
        let n: usize = self.means.len();
        if cols != n && (n == 0 || cols != n - 1) {
            return Err(
                InferError::DimMismatch(
                    with_number(
                        with_number("normalizer has ", n, " cols").as_str(),
                        cols,
                        " in the input",
                    ),
                ),
            );
        }
        let total: usize = x.data.len();
        let mut out: Vec<F32> = Vec::with_capacity(total);
        let mut i: usize = 0;
        assert(0 * cols == 0) by (nonlinear_arith);
        while i < rows
            invariant
                self.wf(),
                i <= rows,
                n == self.means@.len(),
                cols <= n,
                total == x.data@.len(),
                x.data@.len() == rows * cols,
                out@.len() == i * cols,
                forall|a: int, b: int|
                    0 <= a < i && 0 <= b < cols ==> out@[#[trigger] cell(a, b, cols as int)]
                        == standard(
                        x.data@[cell(a, b, cols as int)],
                        self.means@[b],
                        self.stds@[b],
                    ),
            decreases rows - i,
        {
            proof {
                lemma_row(i as int, rows as int, cols as int);
            }
            let base: usize = i * cols;
            let mut j: usize = 0;
            while j < cols
                invariant
                    self.wf(),
                    i < rows,
                    j <= cols,
                    n == self.means@.len(),
                    cols <= n,
                    base == i * cols,
                    base + cols <= total == x.data@.len(),
                    out@.len() == base + j,
                    forall|a: int, b: int|
                        0 <= a < i && 0 <= b < cols ==> out@[#[trigger] cell(a, b, cols as int)]
                            == standard(
                            x.data@[cell(a, b, cols as int)],
                            self.means@[b],
                            self.stds@[b],
                        ),
                    forall|b: int|
                        0 <= b < j ==> out@[#[trigger] cell(i as int, b, cols as int)] == standard(
                            x.data@[cell(i as int, b, cols as int)],
                            self.means@[b],
                            self.stds@[b],
                        ),
                decreases cols - j,
            {
                let ghost before = out@;
                out.push(x.data[base + j].sub(self.means[j]).div(self.stds[j]));
                proof {
                    assert forall|a: int, b: int|
                        0 <= a < i && 0 <= b < cols implies out@[#[trigger] cell(
                        a,
                        b,
                        cols as int,
                    )] == before[cell(a, b, cols as int)] by {
                        lemma_cell(a, b, i as int, cols as int);
                    }
                    assert(cell(i as int, j as int, cols as int) == base + j);
                }
                j = j + 1;
            }
            assert((i + 1) * cols == i * cols + cols) by (nonlinear_arith);
            i = i + 1;
        }
        match Tensor::matrix(rows, cols, out) {
            Ok(t) => {
                assert(t.shape@ =~= x.shape@);
                Ok(t)
            },
            Err(e) => Err(e),
        }
    }

    /// One row of features relative to the means and deviations.
    pub fn transform_row(&self, features: &[F32]) -> (r: Result<Tensor>)
        requires
            self.wf(),
        ensures
            ({
                let n = features@.len() as int;
                let fits = n == self.means@.len() || n == self.means@.len() - 1;
                match r {
                    Ok(t) => {
                        &&& fits
                        &&& t.wf() && t.is_sized(1, n)
                        &&& forall|j: int|
                            0 <= j < n ==> #[trigger] t.data@[j] == standard(
                                features@[j],
                                self.means@[j],
                                self.stds@[j],
                            )
                    },
                    Err(e) => !fits && e is DimMismatch,
                }
            }),
    {
        let x: Tensor = match Tensor::row(copy_f32(features)) {
            Ok(x) => x,
            Err(e) => return Err(e),
        };
        match self.transform(&x) {
            Ok(t) => {
                proof {
                    crate::tensor::lemma_product_2(t.shape@);
                    assert forall|j: int| 0 <= j < features@.len() implies #[trigger] t.data@[j]
                        == standard(features@[j], self.means@[j], self.stds@[j]) by {
                        assert(cell(0, j, features@.len() as int) == j) by (nonlinear_arith);
                        assert(t.at_spec(0, j) == standard(
                            x.at_spec(0, j),
                            self.means@[j],
                            self.stds@[j],
                        ));
                    }
                }
                Ok(t)
            },
            Err(e) => Err(e),
        }
    }

    /// The number to predict relative to its mean and deviation.
    pub fn normalise_target(&self, v: F32) -> (r: F32)
        requires
            self.wf(),
            self.means@.len() > 0,
        ensures
            r == standard(v, self.means@.last(), self.stds@.last()),
    {
        let c: usize = self.means.len() - 1;
        v.sub(self.means[c]).div(self.stds[c])
    }

    /// A predicted number on its own scale.
    pub fn denormalise_target(&self, v: F32) -> (r: F32)
        requires
            self.wf(),
            self.means@.len() > 0,
        ensures
            r == v.mul_spec(self.stds@.last()).add_spec(self.means@.last()),
    {
        let c: usize = self.means.len() - 1;
        v.mul(self.stds[c]).add(self.means[c])
    }

    /// The pairs as text: mean and deviation with eight digits, a comma between
    /// them, and a semicolon between pairs.
    pub fn encode<D: Decimals>(&self, d: &D) -> (s: String)
        requires
            self.wf(),
        ensures
            exists|a: Seq<Seq<char>>, b: Seq<Seq<char>>| #[trigger] encoding(d, *self, a, b, s@),
    {
        let ghost mut a: Seq<Seq<char>> = Seq::empty();
        let ghost mut b: Seq<Seq<char>> = Seq::empty();
        let mut parts: Vec<Vec<char>> = Vec::new();
        let mut i: usize = 0;
        while i < self.means.len()
            invariant
                self.wf(),
                i <= self.means@.len(),
                a.len() == i,
                b.len() == i,
                forall|k: int| 0 <= k < i ==> is_fixed(d, self.means@[k], 8, #[trigger] a[k]),
                forall|k: int| 0 <= k < i ==> is_fixed(d, self.stds@[k], 8, #[trigger] b[k]),
                texts_of(parts@) == pair_texts(a, b),
            decreases self.means@.len() - i,
        {
            let m: String = fixed_text(d, self.means[i], 8);
            let t: String = fixed_text(d, self.stds[i], 8);
            let mut pair: Vec<Vec<char>> = Vec::new();
            pair.push(chars_of(m.as_str()));
            pair.push(chars_of(t.as_str()));
            let ghost before = texts_of(parts@);
            assert(texts_of(pair@) =~= seq![m@, t@]);
            let part: Vec<char> = join_exec(&pair, ',');
            parts.push(part);
            proof {
                let a2 = a.push(m@);
                let b2 = b.push(t@);
                assert(texts_of(parts@) =~= before.push(part@));
                assert forall|k: int| 0 <= k <= i implies #[trigger] texts_of(parts@)[k]
                    == pair_texts(a2, b2)[k] by {
                    if k < i {
                        assert(before[k] == pair_texts(a, b)[k]);
                    }
                }
                assert(texts_of(parts@) =~= pair_texts(a2, b2));
                a = a2;
                b = b2;
            }
            i = i + 1;
        }
        let all: Vec<char> = join_exec(&parts, ';');
        let s: String = string_of(all.as_slice());
        assert(encoding(d, *self, a, b, s@));
        s
    }

    /// Reads the pairs of a text.
    pub fn decode<D: Decimals>(d: &D, s: &str) -> (r: Result<Normalizer>)
        ensures
            ({
                let tokens = split_on(s@, ';');
                match r {
                    Ok(n) => n.wf() && pairs_read(
                        d,
                        tokens,
                        tokens.len() as int,
                        n.means@,
                        n.stds@,
                    ),
                    Err(e) => {
                        ||| e is Format && exists|k: int, means: Seq<F32>, stds: Seq<F32>|
                            #[trigger] no_pair_at(d, tokens, k, means, stds)
                        ||| e is ParseError && exists|k: int, means: Seq<F32>, stds: Seq<F32>|
                            #[trigger] no_number_at(d, tokens, k, means, stds)
                    },
                }
            }),
    {
        let v: Vec<char> = chars_of(s);
        let tokens: Vec<Vec<char>> = split_exec(v.as_slice(), ';');
        let ghost ts = split_on(s@, ';');
        assert(tokens@.len() == ts.len());
        let mut means: Vec<F32> = Vec::new();
        let mut stds: Vec<F32> = Vec::new();
        let mut i: usize = 0;
        while i < tokens.len()
            invariant
                i <= tokens@.len(),
                tokens@.len() == ts.len(),
                ts == texts_of(tokens@),
                ts == split_on(s@, ';'),
                pairs_read(d, ts, i as int, means@, stds@),
            decreases tokens@.len() - i,
        {
            let p: Vec<Vec<char>> = split_exec(tokens[i].as_slice(), ',');
            let ghost ps = split_on(ts[i as int], ',');
            assert(ts[i as int] == tokens@[i as int]@);
            assert(p@.len() == ps.len());
            if p.len() != 2 {
                assert(no_pair_at(d, ts, i as int, means@, stds@));
                return Err(
                    InferError::Format(
                        joined("bad token: ", string_of(tokens[i].as_slice()).as_str()),
                    ),
                );
            }
            assert(ps[0] == p@[0]@ && ps[1] == p@[1]@);
            let m: F32 = match parse_chars(d, p[0].as_slice()) {
                Some(m) => m,
                None => {
                    assert(no_number_at(d, ts, i as int, means@, stds@));
                    return Err(InferError::ParseError("invalid float literal".to_owned()));
                },
            };
            let t: F32 = match parse_chars(d, p[1].as_slice()) {
                Some(t) => t,
                None => {
                    assert(no_number_at(d, ts, i as int, means@, stds@));
                    return Err(InferError::ParseError("invalid float literal".to_owned()));
                },
            };
            let ghost m0 = means@;
            let ghost s0 = stds@;
            means.push(m);
            stds.push(t);
            proof {
                assert forall|k: int|
                    #![trigger ts[k]]
                    0 <= k < i + 1 implies {
                    let q = split_on(ts[k], ',');
                    &&& q.len() == 2
                    &&& is_parse(d, q[0], Some(means@[k]))
                    &&& is_parse(d, q[1], Some(stds@[k]))
                } by {
                    if k < i {
                        assert(means@[k] == m0[k] && stds@[k] == s0[k]);
                    }
                }
            }
            i = i + 1;
        }
        Ok(Normalizer { means, stds })
    }
}

/// Mean and deviation of each column, and behind them those of the numbers to
/// predict.
pub fn fit_normalizer_with_target(x: &Tensor, targets: &[F32]) -> (r: Result<Normalizer>)
    requires
        x.wf(),
    ensures
        match r {
            Ok(n) => {
                &&& x.is_matrix() && x.shape@[0] > 0
                &&& n.wf() && n.means@.len() == x.shape@[1] + 1
                &&& n.means@.last() == mean_of(targets@)
                &&& n.stds@.last() == deviation_of(targets@)
                &&& exists|f: Normalizer| #[trigger]
                    f.fits(*x) && n.means@.drop_last() == f.means@ && n.stds@.drop_last() == f.stds@
            },
            Err(e) => not_matrix(*x, e) || x.is_matrix() && x.shape@[0] == 0 && e is Format,
        },
{
    let f: Normalizer = match Normalizer::fit(x) {
        Ok(f) => f,
        Err(e) => return Err(e),
    };
    let n: F32 = F32::from_u64(targets.len() as u64);
    let mean: F32 = sum(targets).div(n);
    let mut sq: Vec<F32> = Vec::new();
    let mut i: usize = 0;
    while i < targets.len()
        invariant
            i <= targets@.len(),
            sq@.len() == i,
            forall|k: int|
                0 <= k < i ==> #[trigger] sq@[k] == squared_distance(targets@[k], mean),
        decreases targets@.len() - i,
    {
        let d: F32 = targets[i].sub(mean);
        sq.push(d.mul(d));
        i = i + 1;
    }
    assert(sq@ =~= squared_distances(targets@, mean));
    let std: F32 = sum(sq.as_slice()).div(n).sqrt().max(F32 { bits: 0x322b_cc77 });
    let Normalizer { means, stds } = f;
    let mut means: Vec<F32> = means;
    let mut stds: Vec<F32> = stds;
    means.push(mean);
    stds.push(std);
    assert(means@.drop_last() =~= f.means@ && stds@.drop_last() =~= f.stds@);
    Ok(Normalizer { means, stds })
}

/// A text of pairs holds, between its separators, the texts that were written,
/// if no text of a number holds a separator itself.
pub proof fn encoded_pairs_are_found_again<D: Decimals>(
    d: &D,
    n: Normalizer,
    a: Seq<Seq<char>>,
    b: Seq<Seq<char>>,
    s: Seq<char>,
)
    requires
        n.wf(),
        n.means@.len() > 0,
        encoding(d, n, a, b, s),
        forall|i: int|
            0 <= i < a.len() ==> !(#[trigger] a[i]).contains(',') && !a[i].contains(';'),
        forall|i: int|
            0 <= i < b.len() ==> !(#[trigger] b[i]).contains(',') && !b[i].contains(';'),
    ensures
        split_on(s, ';').len() == n.means@.len(),
        forall|i: int|
            0 <= i < n.means@.len() ==> split_on(#[trigger] split_on(s, ';')[i], ',') == seq![
                a[i],
                b[i],
            ],
{
    let parts = pair_texts(a, b);
    assert forall|i: int| 0 <= i < parts.len() implies !(#[trigger] parts[i]).contains(';')
        && split_on(parts[i], ',') == seq![a[i], b[i]] by {
        let two = seq![a[i], b[i]];
        assert(!two[0].contains(',') && !two[1].contains(','));
        joined_pieces_are_split(two, ',');
        assert(two.drop_first() =~= seq![b[i]]);
        assert(joined_by(seq![b[i]], ',') == b[i]);
        assert(parts[i] == a[i] + seq![','] + b[i]);
        if parts[i].contains(';') {
            let k = choose|k: int| 0 <= k < parts[i].len() && parts[i][k] == ';';
            if k < a[i].len() {
                assert(a[i][k] == ';');
            } else if k > a[i].len() {
                assert(b[i][k - a[i].len() - 1] == ';');
            }
        }
    }
    joined_pieces_are_split(parts, ';');
}

} // verus!
