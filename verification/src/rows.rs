//! Rows of real numbers: normalisation, softmax, and the head of attention
//! that is made of them.

use vstd::arithmetic::logarithm::{lemma_log0, lemma_log_s, log};
use vstd::arithmetic::power2::{
    lemma2_to64, lemma2_to64_rest, lemma_pow2_pos, lemma_pow2_strictly_increases,
    lemma_pow2_unfold, pow2,
};
use vstd::prelude::*;

use crate::kernels::{
    attention_score, context_terms, head_context, head_scores, lemma_cell_fits, lemma_sum_step,
    row_of, sum_from, Number,
};
use crate::layout::{
    copy_of, filled, is_matrix, lemma_fill_step, lemma_filled_is_matrix, lemma_one_matrix, matrix,
    split_head,
};
use crate::parallel::{join_rows, map_rows};
use crate::windows::cell;

verus! {

/// The arithmetic that a normalisation needs of a number.
///
/// As with [`Number`], a type names the operations as functions of their
/// operands; nothing is said of rounding.
pub trait Real: Number {
    spec fn minus_of(self, rhs: Self) -> Self;

    spec fn over_of(self, rhs: Self) -> Self;

    spec fn recip_of(self) -> Self;

    spec fn root_of(self) -> Self;

    spec fn exp_of(self) -> Self;

    spec fn ln_of(self) -> Self;

    /// The greater of two numbers.
    spec fn greater_of(self, rhs: Self) -> Self;

    /// The number below all others.
    spec fn least_of() -> Self;

    /// A count as a number.
    spec fn count_of(n: usize) -> Self;

    fn minus(self, rhs: Self) -> (r: Self)
        ensures
            r == self.minus_of(rhs),
    ;

    fn over(self, rhs: Self) -> (r: Self)
        ensures
            r == self.over_of(rhs),
    ;

    fn recip(self) -> (r: Self)
        ensures
            r == self.recip_of(),
    ;

    fn root(self) -> (r: Self)
        ensures
            r == self.root_of(),
    ;

    fn exponential(self) -> (r: Self)
        ensures
            r == self.exp_of(),
    ;

    fn logarithm(self) -> (r: Self)
        ensures
            r == self.ln_of(),
    ;

    fn greater(self, rhs: Self) -> (r: Self)
        ensures
            r == self.greater_of(rhs),
    ;

    fn least() -> (r: Self)
        ensures
            r == Self::least_of(),
    ;

    fn count(n: usize) -> (r: Self)
        ensures
            r == Self::count_of(n),
    ;
}

/// The greatest number whose square does not exceed `n`.
pub open spec fn floor_root(n: int) -> int {
    choose|r: int| is_floor_root(r, n)
}

pub open spec fn is_floor_root(r: int, n: int) -> bool {
    0 <= r && r * r <= n < (r + 1) * (r + 1)
}

proof fn lemma_one_floor_root(a: int, b: int, n: int)
    requires
        is_floor_root(a, n),
        is_floor_root(b, n),
    ensures
        a == b,
{
    assert(a == b) by (nonlinear_arith)
        requires
            0 <= a,
            0 <= b,
            a * a <= n < (a + 1) * (a + 1),
            b * b <= n < (b + 1) * (b + 1),
    ;
}

/// Integers: quotients and roots are rounded down, exponentials and logarithms
/// are to the base two, and all are zero where they are not defined; a divisor
/// must be positive.
impl Real for i64 {
    open spec fn minus_of(self, rhs: Self) -> Self {
        self.wrapping_sub(rhs)
    }

    open spec fn over_of(self, rhs: Self) -> Self {
        if rhs <= 0 {
            0
        } else {
            (self as int / rhs as int) as i64
        }
    }

    open spec fn recip_of(self) -> Self {
        if self == 1 {
            1
        } else {
            0
        }
    }

    open spec fn root_of(self) -> Self {
        if self <= 0 {
            0
        } else {
            floor_root(self as int) as i64
        }
    }

    open spec fn exp_of(self) -> Self {
        if self < 0 {
            0
        } else if self < 63 {
            pow2(self as nat) as i64
        } else {
            i64::MAX
        }
    }

    open spec fn ln_of(self) -> Self {
        if self <= 0 {
            0
        } else {
            log(2, self as int) as i64
        }
    }

    open spec fn greater_of(self, rhs: Self) -> Self {
        if self < rhs {
            rhs
        } else {
            self
        }
    }

    open spec fn least_of() -> Self {
        i64::MIN
    }

    open spec fn count_of(n: usize) -> Self {
        if n <= i64::MAX {
            n as i64
        } else {
            i64::MAX
        }
    }

    fn minus(self, rhs: Self) -> (r: Self) {
        self.wrapping_sub(rhs)
    }

    fn over(self, rhs: Self) -> (r: Self) {
        if rhs <= 0 {
            0
        } else if self >= 0 {
            self / rhs
        } else {
            let up = -(self + 1);
            let q = up / rhs;
            proof {
                let d = rhs as int;
                vstd::arithmetic::div_mod::lemma_fundamental_div_mod(up as int, d);
                let m = up as int % d;
                assert(self == d * (-q - 1) + (d - 1 - m)) by (nonlinear_arith)
                    requires
                        self == -up - 1,
                        up == d * q + m,
                ;
                vstd::arithmetic::div_mod::lemma_fundamental_div_mod_converse(
                    self as int,
                    d,
                    -q - 1,
                    d - 1 - m,
                );
                assert(0 <= q <= up) by (nonlinear_arith)
                    requires
                        up == d * q + m,
                        0 <= m < d,
                        up >= 0,
                ;
            }
            -q - 1
        }
    }

    fn recip(self) -> (r: Self) {
        if self == 1 {
            1
        } else {
            0
        }
    }

    fn root(self) -> (r: Self) {
        if self <= 0 {
            return 0;
        }
        let mut r: i64 = 0;
        while r + 1 <= self / (r + 1)
            invariant
                0 <= r < i64::MAX,
                r * r <= self,
                0 < self,
            decreases self - r,
        {
            let next = r + 1;
            let ghost q = self as int / next as int;
            proof {
                vstd::arithmetic::div_mod::lemma_fundamental_div_mod(self as int, next as int);
                assert(next * next <= self) by (nonlinear_arith)
                    requires
                        self == next * q + self as int % next as int,
                        0 <= self as int % next as int,
                        next <= q,
                        next >= 1,
                ;
                assert(next <= next * next) by (nonlinear_arith)
                    requires
                        next >= 1,
                ;
                assert(next < i64::MAX) by (nonlinear_arith)
                    requires
                        next * next <= self,
                        self <= i64::MAX,
                        next >= 1,
                ;
            }
            r = next;
        }
        proof {
            let next = r + 1;
            let q = self as int / next;
            vstd::arithmetic::div_mod::lemma_fundamental_div_mod(self as int, next);
            assert(self < next * next) by (nonlinear_arith)
                requires
                    self == next * q + self as int % next,
                    self as int % next < next,
                    q < next,
                    next >= 1,
            ;
            assert(is_floor_root(r as int, self as int));
            lemma_one_floor_root(r as int, floor_root(self as int), self as int);
        }
        r
    }

    fn exponential(self) -> (r: Self) {
        if self < 0 {
            return 0;
        }
        if self >= 63 {
            return i64::MAX;
        }
        let mut r: i64 = 1;
        let mut i: i64 = 0;
        proof {
            lemma2_to64();
        }
        while i < self
            invariant
                0 <= i <= self < 63,
                r == pow2(i as nat),
            decreases self - i,
        {
            proof {
                lemma_pow2_unfold((i + 1) as nat);
                lemma2_to64_rest();
                if i + 1 < 62 {
                    lemma_pow2_strictly_increases((i + 1) as nat, 62);
                }
                lemma_pow2_pos(i as nat);
            }
            r = r * 2;
            i += 1;
        }
        r
    }

    fn logarithm(self) -> (r: Self) {
        if self <= 0 {
            return 0;
        }
        let mut n: i64 = self;
        let mut r: i64 = 0;
        while n >= 2
            invariant
                0 < n <= self,
                0 <= r <= self - n,
                log(2, self as int) == r + log(2, n as int),
            decreases n,
        {
            proof {
                lemma_log_s(2, n as int);
            }
            n = n / 2;
            r += 1;
        }
        proof {
            lemma_log0(2, n as int);
        }
        r
    }

    fn greater(self, rhs: Self) -> (r: Self) {
        if self < rhs {
            rhs
        } else {
            self
        }
    }

    fn least() -> (r: Self) {
        i64::MIN
    }

    fn count(n: usize) -> (r: Self) {
        if n as u64 <= i64::MAX as u64 {
            n as i64
        } else {
            i64::MAX
        }
    }
}

/// The mean of a row.
pub open spec fn mean_of<R: Real>(row: Seq<R>) -> R {
    sum_from(R::zero_of(), row).over_of(R::count_of(row.len() as usize))
}

/// The squares of the distances of a row from `mean`.
pub open spec fn squared_distances<R: Real>(row: Seq<R>, mean: R) -> Seq<R> {
    row.map_values(|v: R| v.minus_of(mean).times_of(v.minus_of(mean)))
}

/// By what the distances from the mean are multiplied: one over the standard
/// deviation.
pub open spec fn norm_scale<R: Real>(row: Seq<R>, mean: R, eps: R) -> R {
    mean_of(squared_distances(row, mean)).plus_of(eps).root_of().recip_of()
}

/// Entry `j` of a normalised row.
pub open spec fn normalized<R: Real>(row: Seq<R>, w: Seq<R>, b: Seq<R>, eps: R, j: int) -> R {
    let mean = mean_of(row);
    row[j].minus_of(mean).times_of(norm_scale(row, mean, eps)).times_of(w[j]).plus_of(b[j])
}

/// The mean of a row, added up from the first entry.
pub fn mean_row<R: Real>(row: &[R]) -> (r: R)
    ensures
        r == mean_of(row@),
{
    let mut sum = R::zero();
    let mut j: usize = 0;
    assert(row@.take(0) =~= Seq::<R>::empty());
    while j < row.len()
        invariant
            j <= row@.len(),
            sum == sum_from(R::zero_of(), row@.take(j as int)),
        decreases row@.len() - j,
    {
        proof {
            lemma_sum_step(R::zero_of(), row@, j as int);
        }
        sum = sum.plus(row[j]);
        j += 1;
    }
    assert(row@.take(j as int) =~= row@);
    sum.over(R::count(row.len()))
}

/// The scale of a row.
fn scale_row<R: Real>(row: &[R], mean: R, eps: R) -> (r: R)
    ensures
        r == norm_scale(row@, mean, eps),
{
    let mut squares: Vec<R> = Vec::new();
    let mut j: usize = 0;
    while j < row.len()
        invariant
            j <= row@.len(),
            squares@.len() == j,
            forall|k: int|
                0 <= k < j ==> #[trigger] squares@[k] == squared_distances(row@, mean)[k],
        decreases row@.len() - j,
    {
        let d = row[j].minus(mean);
        squares.push(d.times(d));
        j += 1;
    }
    assert(squares@ =~= squared_distances(row@, mean));
    mean_row(squares.as_slice()).plus(eps).root().recip()
}

/// Normalises each row of a matrix, then scales and shifts its columns.
pub fn normalize_rows<R: Real>(x: &[R], rows: usize, w: &[R], b: &[R], eps: R) -> (r: Vec<R>)
    requires
        x@.len() == rows * w@.len(),
        b@.len() >= w@.len(),
    ensures
        is_matrix(
            r@,
            rows as int,
            w@.len() as int,
            |i: int, j: int| normalized(row_of(x@, i, w@.len() as int), w@, b@, eps, j),
        ),
{
    let dim = w.len();
    let ghost f = |i: int, j: int| normalized(row_of(x@, i, dim as int), w@, b@, eps, j);
    assert(f == (|i: int, j: int| normalized(row_of(x@, i, w@.len() as int), w@, b@, eps, j)));
    let mut r: Vec<R> = Vec::new();
    let mut i: usize = 0;
    assert(x@.len() == x.len());
    while i < rows
        invariant
            i <= rows,
            dim == w@.len(),
            x@.len() == rows * dim,
            x@.len() <= usize::MAX,
            b@.len() >= dim,
            f == (|i: int, j: int| normalized(row_of(x@, i, dim as int), w@, b@, eps, j)),
            r@.len() == i * dim,
            filled(r@, dim as int, f),
        decreases rows - i,
    {
        assert((i + 1) * dim == i * dim + dim) by (nonlinear_arith);
        assert((i + 1) * dim <= rows * dim) by (nonlinear_arith)
            requires
                i < rows,
                0 <= dim,
        ;
        assert(0 <= i * dim) by (nonlinear_arith)
            requires
                0 <= i,
                0 <= dim,
        ;
        let row = vstd::slice::slice_subrange(x, i * dim, i * dim + dim);
        let mean = mean_row(row);
        let scale = scale_row(row, mean, eps);
        let mut j: usize = 0;
        while j < dim
            invariant
                j <= dim,
                dim == w@.len(),
                b@.len() >= dim,
                row@ == row_of(x@, i as int, dim as int),
                row@.len() == dim,
                mean == mean_of(row@),
                scale == norm_scale(row@, mean, eps),
                f == (|i: int, j: int| normalized(row_of(x@, i, dim as int), w@, b@, eps, j)),
                r@.len() == i * dim + j,
                filled(r@, dim as int, f),
            decreases dim - j,
        {
            proof {
                lemma_fill_step(r@, dim as int, f, i as int, j as int);
            }
            r.push(row[j].minus(mean).times(scale).times(w[j]).plus(b[j]));
            j += 1;
        }
        i += 1;
    }
    proof {
        lemma_filled_is_matrix(r@, rows as int, dim as int, f);
    }
    r
}

/// The greatest entry of a row; that of an empty row is below all numbers.
pub open spec fn peak<R: Real>(row: Seq<R>) -> R
    decreases row.len(),
{
    if row.len() == 0 {
        R::least_of()
    } else {
        peak(row.drop_last()).greater_of(row.last())
    }
}

/// The exponentials of a row's distances from its peak.
pub open spec fn exponentials<R: Real>(row: Seq<R>) -> Seq<R> {
    row.map_values(|v: R| v.minus_of(peak(row)).exp_of())
}

/// The sum of the exponentials.
pub open spec fn exp_sum<R: Real>(row: Seq<R>) -> R {
    sum_from(R::zero_of(), exponentials(row))
}

/// Entry `j` of the softmax of a row.
pub open spec fn softmax_of<R: Real>(row: Seq<R>, j: int) -> R {
    exponentials(row)[j].times_of(exp_sum(row).recip_of())
}

/// Entry `j` of the log-softmax of a row: less the logarithm of the sum of all
/// exponentials.
pub open spec fn log_softmax_of<R: Real>(row: Seq<R>, j: int) -> R {
    row[j].minus_of(peak(row).plus_of(exp_sum(row).ln_of()))
}

/// Finds the greatest entry of a row.
fn peak_row<R: Real>(row: &[R]) -> (r: R)
    ensures
        r == peak(row@),
{
    let mut max = R::least();
    let mut j: usize = 0;
    assert(row@.take(0) =~= Seq::<R>::empty());
    while j < row.len()
        invariant
            j <= row@.len(),
            max == peak(row@.take(j as int)),
        decreases row@.len() - j,
    {
        assert(row@.take(j + 1).drop_last() =~= row@.take(j as int));
        max = max.greater(row[j]);
        j += 1;
    }
    assert(row@.take(j as int) =~= row@);
    max
}

/// The exponentials of a row, and their sum.
fn exp_row<R: Real>(row: &[R], max: R) -> (r: (Vec<R>, R))
    requires
        max == peak(row@),
    ensures
        r.0@ == exponentials(row@),
        r.1 == exp_sum(row@),
{
    let ghost all = exponentials(row@);
    let mut exps: Vec<R> = Vec::new();
    let mut sum = R::zero();
    let mut j: usize = 0;
    assert(all.take(0) =~= Seq::<R>::empty());
    while j < row.len()
        invariant
            j <= row@.len(),
            max == peak(row@),
            all == exponentials(row@),
            exps@ == all.take(j as int),
            sum == sum_from(R::zero_of(), all.take(j as int)),
        decreases row@.len() - j,
    {
        let e = row[j].minus(max).exponential();
        proof {
            lemma_sum_step(R::zero_of(), all, j as int);
        }
        sum = sum.plus(e);
        exps.push(e);
        j += 1;
        assert(exps@ =~= all.take(j as int));
    }
    assert(all.take(j as int) =~= all);
    (exps, sum)
}

/// The softmax of a row.
pub fn softmax_row<R: Real>(row: &[R]) -> (r: Vec<R>)
    ensures
        r@ == Seq::new(row@.len(), |j: int| softmax_of(row@, j)),
{
    let max = peak_row(row);
    let (exps, sum) = exp_row(row, max);
    let inv = sum.recip();
    let mut r: Vec<R> = Vec::new();
    let mut j: usize = 0;
    while j < exps.len()
        invariant
            j <= exps@.len(),
            exps@ == exponentials(row@),
            inv == exp_sum(row@).recip_of(),
            r@.len() == j,
            forall|k: int| 0 <= k < j ==> #[trigger] r@[k] == softmax_of(row@, k),
        decreases exps@.len() - j,
    {
        r.push(exps[j].times(inv));
        j += 1;
    }
    assert(r@ =~= Seq::new(row@.len(), |j: int| softmax_of(row@, j)));
    r
}

/// The log-softmax of a row.
pub fn log_softmax_row<R: Real>(row: &[R]) -> (r: Vec<R>)
    ensures
        r@ == Seq::new(row@.len(), |j: int| log_softmax_of(row@, j)),
{
    let max = peak_row(row);
    let (_, sum) = exp_row(row, max);
    let log_z = max.plus(sum.logarithm());
    let mut r: Vec<R> = Vec::new();
    let mut j: usize = 0;
    while j < row.len()
        invariant
            j <= row@.len(),
            log_z == peak(row@).plus_of(exp_sum(row@).ln_of()),
            r@.len() == j,
            forall|k: int| 0 <= k < j ==> #[trigger] r@[k] == log_softmax_of(row@, k),
        decreases row@.len() - j,
    {
        r.push(row[j].minus(log_z));
        j += 1;
    }
    assert(r@ =~= Seq::new(row@.len(), |j: int| log_softmax_of(row@, j)));
    r
}

/// The log-softmax of each row of a matrix.
pub open spec fn log_softmax_matrix<R: Real>(m: Seq<R>, t: int, c: int) -> Seq<R> {
    matrix(t, c, |i: int, j: int| log_softmax_of(row_of(m, i, c), j))
}

/// Writes the log-softmax of each row of a `(t, c)` matrix.
pub fn log_softmax_rows_into<R: Real>(src: &[R], t: usize, c: usize, dst: &mut [R])
    requires
        src@.len() == t * c,
        old(dst)@.len() == t * c,
    ensures
        final(dst)@ == log_softmax_matrix(src@, t as int, c as int),
{
    let ghost f = |i: int, j: int| log_softmax_of(row_of(src@, i, c as int), j);
    let mut i: usize = 0;
    let mut base: usize = 0;
    assert(src@.len() == src.len());
    while i < t
        invariant
            i <= t,
            base == i * c,
            src@.len() == t * c,
            src@.len() <= usize::MAX,
            dst@.len() == t * c,
            f == (|i: int, j: int| log_softmax_of(row_of(src@, i, c as int), j)),
            filled(dst@.take(base as int), c as int, f),
        decreases t - i,
    {
        assert((i + 1) * c == i * c + c) by (nonlinear_arith);
        assert((i + 1) * c <= t * c) by (nonlinear_arith)
            requires
                i < t,
                0 <= c,
        ;
        assert(0 <= i * c) by (nonlinear_arith)
            requires
                0 <= i,
                0 <= c,
        ;
        let row = log_softmax_row(vstd::slice::slice_subrange(src, base, base + c));
        let mut j: usize = 0;
        while j < c
            invariant
                j <= c,
                base == i * c,
                base + c <= dst@.len(),
                dst@.len() <= usize::MAX,
                dst@.len() == t * c,
                row@.len() == c,
                forall|k: int| 0 <= k < c ==> #[trigger] row@[k] == f(i as int, k),
                filled(dst@.take(base + j), c as int, f),
            decreases c - j,
        {
            proof {
                lemma_fill_step(dst@.take(base + j), c as int, f, i as int, j as int);
            }
            let ghost before = dst@;
            dst[base + j] = row[j];
            assert(dst@.take(base + j + 1) =~= before.take(base + j).push(row@[j as int]));
            j += 1;
        }
        i += 1;
        base += c;
    }
    proof {
        assert(dst@.take(base as int) =~= dst@);
        lemma_filled_is_matrix(dst@, t as int, c as int, f);
        lemma_one_matrix(dst@, t as int, c as int, f);
    }
}

/// The log-softmax of row `i` of a `(t, c)` matrix.
fn log_softmax_at<R: Real>(m: &[R], t: usize, c: usize, i: usize) -> (r: Vec<R>)
    requires
        m@.len() == t * c,
        i < t,
    ensures
        r@.len() == c,
        forall|j: int| 0 <= j < c ==> #[trigger] r@[j] == log_softmax_of(
            row_of(m@, i as int, c as int),
            j,
        ),
{
    assert(m@.len() == m.len());
    assert(i * c + c == (i + 1) * c && (i + 1) * c <= t * c) by (nonlinear_arith)
        requires
            i < t,
            0 <= c,
    ;
    assert(0 <= i * c) by (nonlinear_arith)
        requires
            0 <= i,
            0 <= c,
    ;
    log_softmax_row(vstd::slice::slice_subrange(m, i * c, i * c + c))
}

/// Replaces each row of a `(t, c)` matrix by its log-softmax, the rows in
/// parallel.
pub fn log_softmax_rows_inplace<R: Real + Send + Sync>(logits: &mut [R], t: usize, c: usize)
    requires
        old(logits)@.len() == t * c,
    ensures
        final(logits)@ == log_softmax_matrix(old(logits)@, t as int, c as int),
{
    let src = copy_of(logits);
    let xs = src.as_slice();
    let one = |i: usize| -> (row: Vec<R>)
        requires
            i < t,
        ensures
            row@.len() == c,
            forall|j: int|
                0 <= j < c ==> #[trigger] row@[j] == log_softmax_of(
                    row_of(xs@, i as int, c as int),
                    j,
                ),
        { log_softmax_at(xs, t, c, i) };
    let rows = map_rows(t, one);
    proof {
        assert forall|i: int| 0 <= i < t implies (#[trigger] rows@[i])@.len() == c && forall|j: int|
            0 <= j < c ==> #[trigger] rows@[i]@[j] == log_softmax_of(row_of(xs@, i, c as int), j) by {
            let n = i as usize;
            assert(call_ensures(one, (n,), rows@[n as int]));
        }
    }
    let joined = join_rows(rows.as_slice(), c);
    proof {
        let f = |i: int, j: int| log_softmax_of(row_of(xs@, i, c as int), j);
        assert(is_matrix(joined@, t as int, c as int, f)) by {
            assert forall|i: int, j: int| 0 <= i < t && 0 <= j < c implies joined@[#[trigger] cell(
                i,
                c as int,
                j,
            )] == f(i, j) by {
                assert(joined@[cell(i, c as int, j)] == rows@[i]@[j]);
            }
        }
        lemma_one_matrix(joined@, t as int, c as int, f);
    }
    let ghost all = joined@;
    let mut k: usize = 0;
    while k < joined.len()
        invariant
            k <= joined@.len(),
            all == joined@,
            logits@.len() == all.len(),
            logits@.take(k as int) == all.take(k as int),
        decreases joined@.len() - k,
    {
        let ghost before = logits@;
        logits[k] = joined[k];
        assert(logits@.take(k + 1) =~= before.take(k as int).push(all[k as int]));
        assert(all.take(k + 1) =~= all.take(k as int).push(all[k as int]));
        k += 1;
    }
    assert(logits@.take(k as int) =~= logits@);
    assert(all.take(k as int) =~= all);
}

/// The columns of one head.
pub open spec fn head_of<R>(m: Seq<R>, t: int, h: int, head: int, head_dim: int) -> Seq<R> {
    matrix(t, head_dim, |i: int, d: int| m[cell(i, h, head * head_dim + d)])
}

/// How much each frame attends to each, before and after the softmax.
pub open spec fn scores_of<R: Real>(q: Seq<R>, k: Seq<R>, t: int, head_dim: int, scale: R) -> Seq<
    R,
> {
    matrix(t, t, |i: int, j: int| attention_score(q, k, head_dim, scale, i, j))
}

pub open spec fn softmax_matrix<R: Real>(m: Seq<R>, t: int, c: int) -> Seq<R> {
    matrix(t, c, |i: int, j: int| softmax_of(row_of(m, i, c), j))
}

/// The output of one head of attention: for each frame, the values of all
/// frames, weighted by the softmax of the frame's scores.
pub open spec fn attended<R: Real>(
    q: Seq<R>,
    k: Seq<R>,
    v: Seq<R>,
    t: int,
    h: int,
    head: int,
    head_dim: int,
    scale: R,
) -> Seq<R> {
    let scores = scores_of(
        head_of(q, t, h, head, head_dim),
        head_of(k, t, h, head, head_dim),
        t,
        head_dim,
        scale,
    );
    let weights = softmax_matrix(scores, t, t);
    let values = head_of(v, t, h, head, head_dim);
    matrix(
        t,
        head_dim,
        |i: int, d: int|
            sum_from(R::zero_of(), context_terms(weights, values, t, head_dim, i, d)),
    )
}

/// The softmax of each row of a matrix.
fn softmax_rows<R: Real>(m: &[R], t: usize, c: usize) -> (r: Vec<R>)
    requires
        m@.len() == t * c,
    ensures
        r@ == softmax_matrix(m@, t as int, c as int),
{
    let ghost f = |i: int, j: int| softmax_of(row_of(m@, i, c as int), j);
    let mut r: Vec<R> = Vec::new();
    let mut i: usize = 0;
    let mut base: usize = 0;
    assert(m@.len() == m.len());
    while i < t
        invariant
            i <= t,
            base == i * c,
            m@.len() == t * c,
            m@.len() <= usize::MAX,
            f == (|i: int, j: int| softmax_of(row_of(m@, i, c as int), j)),
            r@.len() == base,
            filled(r@, c as int, f),
        decreases t - i,
    {
        assert((i + 1) * c == i * c + c) by (nonlinear_arith);
        assert((i + 1) * c <= t * c) by (nonlinear_arith)
            requires
                i < t,
                0 <= c,
        ;
        assert(0 <= i * c) by (nonlinear_arith)
            requires
                0 <= i,
                0 <= c,
        ;
        let row = softmax_row(vstd::slice::slice_subrange(m, base, base + c));
        let mut j: usize = 0;
        while j < c
            invariant
                j <= c,
                row@.len() == c,
                base == i * c,
                forall|k: int| 0 <= k < c ==> #[trigger] row@[k] == f(i as int, k),
                r@.len() == base + j,
                filled(r@, c as int, f),
            decreases c - j,
        {
            proof {
                lemma_fill_step(r@, c as int, f, i as int, j as int);
            }
            r.push(row[j]);
            j += 1;
        }
        i += 1;
        base += c;
    }
    proof {
        lemma_filled_is_matrix(r@, t as int, c as int, f);
        lemma_one_matrix(r@, t as int, c as int, f);
    }
    r
}

/// One head of attention over `t` frames of `h` features.
pub fn attend_head<R: Real>(
    q: &[R],
    k: &[R],
    v: &[R],
    t: usize,
    h: usize,
    head: usize,
    head_dim: usize,
    scale: R,
) -> (r: Vec<R>)
    requires
        q@.len() == t * h,
        k@.len() == t * h,
        v@.len() == t * h,
        head * head_dim + head_dim <= h,
    ensures
        r@ == attended(
            q@,
            k@,
            v@,
            t as int,
            h as int,
            head as int,
            head_dim as int,
            scale,
        ),
{
    let ghost (t_, h_, n_, d_) = (t as int, h as int, head as int, head_dim as int);
    let qh = split_head(q, t, h, head, head_dim);
    let kh = split_head(k, t, h, head, head_dim);
    let vh = split_head(v, t, h, head, head_dim);
    proof {
        lemma_one_matrix(qh@, t_, d_, |i: int, d: int| q@[cell(i, h_, head * head_dim + d)]);
        lemma_one_matrix(kh@, t_, d_, |i: int, d: int| k@[cell(i, h_, head * head_dim + d)]);
        lemma_one_matrix(vh@, t_, d_, |i: int, d: int| v@[cell(i, h_, head * head_dim + d)]);
        assert(qh@ =~= head_of(q@, t_, h_, n_, d_));
        assert(kh@ =~= head_of(k@, t_, h_, n_, d_));
        assert(vh@ =~= head_of(v@, t_, h_, n_, d_));
    }
    let scores = head_scores(qh.as_slice(), kh.as_slice(), t, head_dim, scale);
    proof {
        lemma_one_matrix(
            scores@,
            t_,
            t_,
            |i: int, j: int| attention_score(qh@, kh@, d_, scale, i, j),
        );
    }
    let weights = softmax_rows(scores.as_slice(), t, t);
    let r = head_context(weights.as_slice(), vh.as_slice(), t, head_dim);
    proof {
        lemma_one_matrix(
            r@,
            t_,
            d_,
            |i: int, d: int|
                sum_from(R::zero_of(), context_terms(weights@, vh@, t_, d_, i, d)),
        );
    }
    r
}

/// The squares of the directions of one tap.
pub open spec fn tap_squares<R: Real>(directions: Seq<R>, rows: int, k: int, tap: int) -> Seq<R> {
    Seq::new(
        rows as nat,
        |o: int| directions[cell(o, k, tap)].times_of(directions[cell(o, k, tap)]),
    )
}

/// The gain of a tap: its own, or the one gain that serves all.
pub open spec fn gain_of<R>(gains: Seq<R>, tap: int) -> R {
    gains[if gains.len() == 1 {
        0
    } else {
        tap
    }]
}

/// The weight of a tap: its direction times its gain, over the norm of the
/// directions of the tap.
pub open spec fn tap_weight<R: Real>(
    directions: Seq<R>,
    gains: Seq<R>,
    rows: int,
    k: int,
    o: int,
    tap: int,
) -> R {
    directions[cell(o, k, tap)].times_of(gain_of(gains, tap)).times_of(
        sum_from(R::zero_of(), tap_squares(directions, rows, k, tap)).root_of().recip_of(),
    )
}

/// One over the norm of the directions of a tap.
fn tap_scale<R: Real>(directions: &[R], rows: usize, k: usize, tap: usize) -> (r: R)
    requires
        directions@.len() == rows * k,
        tap < k,
    ensures
        r == sum_from(
            R::zero_of(),
            tap_squares(directions@, rows as int, k as int, tap as int),
        ).root_of().recip_of(),
{
    let ghost squares = tap_squares(directions@, rows as int, k as int, tap as int);
    let mut sum = R::zero();
    let mut o: usize = 0;
    assert(directions@.len() == directions.len());
    assert(squares.take(0) =~= Seq::<R>::empty());
    while o < rows
        invariant
            o <= rows,
            tap < k,
            directions@.len() == rows * k,
            directions@.len() <= usize::MAX,
            squares == tap_squares(directions@, rows as int, k as int, tap as int),
            sum == sum_from(R::zero_of(), squares.take(o as int)),
        decreases rows - o,
    {
        proof {
            lemma_cell_fits(o as int, rows as int, k as int, tap as int);
            lemma_sum_step(R::zero_of(), squares, o as int);
        }
        let d = directions[o * k + tap];
        sum = sum.plus(d.times(d));
        o += 1;
    }
    assert(squares.take(o as int) =~= squares);
    sum.root().recip()
}

/// The weights of a convolution of `k` taps that is given by gains and
/// directions, `rows` directions to a tap.
pub fn weight_norm<R: Real>(directions: &[R], gains: &[R], rows: usize, k: usize) -> (r: Vec<R>)
    requires
        directions@.len() == rows * k,
        gains@.len() == 1 || gains@.len() >= k,
    ensures
        is_matrix(
            r@,
            rows as int,
            k as int,
            |o: int, tap: int|
                tap_weight(directions@, gains@, rows as int, k as int, o, tap),
        ),
{
    let ghost f = |o: int, tap: int|
        tap_weight(directions@, gains@, rows as int, k as int, o, tap);
    let mut scales: Vec<R> = Vec::new();
    let mut tap: usize = 0;
    while tap < k
        invariant
            tap <= k,
            directions@.len() == rows * k,
            scales@.len() == tap,
            forall|p: int|
                0 <= p < tap ==> #[trigger] scales@[p] == sum_from(
                    R::zero_of(),
                    tap_squares(directions@, rows as int, k as int, p),
                ).root_of().recip_of(),
        decreases k - tap,
    {
        scales.push(tap_scale(directions, rows, k, tap));
        tap += 1;
    }
    let mut r: Vec<R> = Vec::new();
    let mut o: usize = 0;
    assert(directions@.len() == directions.len());
    while o < rows
        invariant
            o <= rows,
            directions@.len() == rows * k,
            directions@.len() <= usize::MAX,
            gains@.len() == 1 || gains@.len() >= k,
            scales@.len() == k,
            forall|p: int|
                0 <= p < k ==> #[trigger] scales@[p] == sum_from(
                    R::zero_of(),
                    tap_squares(directions@, rows as int, k as int, p),
                ).root_of().recip_of(),
            f == (|o: int, tap: int|
                tap_weight(directions@, gains@, rows as int, k as int, o, tap)),
            r@.len() == o * k,
            filled(r@, k as int, f),
        decreases rows - o,
    {
        let mut tap: usize = 0;
        while tap < k
            invariant
                tap <= k,
                o < rows,
                directions@.len() == rows * k,
                directions@.len() <= usize::MAX,
                gains@.len() == 1 || gains@.len() >= k,
                scales@.len() == k,
                forall|p: int|
                    0 <= p < k ==> #[trigger] scales@[p] == sum_from(
                        R::zero_of(),
                        tap_squares(directions@, rows as int, k as int, p),
                    ).root_of().recip_of(),
                f == (|o: int, tap: int|
                    tap_weight(directions@, gains@, rows as int, k as int, o, tap)),
                r@.len() == o * k + tap,
                filled(r@, k as int, f),
            decreases k - tap,
        {
            proof {
                lemma_cell_fits(o as int, rows as int, k as int, tap as int);
                lemma_fill_step(r@, k as int, f, o as int, tap as int);
            }
            let gain = if gains.len() == 1 {
                gains[0]
            } else {
                gains[tap]
            };
            r.push(directions[o * k + tap].times(gain).times(scales[tap]));
            tap += 1;
        }
        assert((o + 1) * k == o * k + k) by (nonlinear_arith);
        o += 1;
    }
    proof {
        lemma_filled_is_matrix(r@, rows as int, k as int, f);
    }
    r
}

/// Every number from zero on has a root, rounded down.
proof fn lemma_floor_root_exists(n: int) -> (r: int)
    requires
        n >= 0,
    ensures
        is_floor_root(r, n),
    decreases n,
{
    if n == 0 {
        0
    } else {
        let r = lemma_floor_root_exists(n - 1);
        if (r + 1) * (r + 1) <= n {
            assert((r + 2) * (r + 2) > (r + 1) * (r + 1)) by (nonlinear_arith)
                requires
                    r >= 0,
            ;
            r + 1
        } else {
            r
        }
    }
}

/// A logarithm to the base two, rounded down.
proof fn lemma_log_bounds(x: int)
    requires
        x >= 1,
    ensures
        log(2, x) >= 0,
        pow2(log(2, x) as nat) <= x < pow2((log(2, x) + 1) as nat),
    decreases x,
{
    lemma2_to64();
    if x < 2 {
        lemma_log0(2, x);
    } else {
        lemma_log_s(2, x);
        lemma_log_bounds(x / 2);
        lemma_pow2_unfold(log(2, x) as nat);
        lemma_pow2_unfold((log(2, x) + 1) as nat);
    }
}

/// The quotient of integers is rounded down; so is the root of an integer; an
/// exponential doubles with each step from one on, as long as it fits; and a
/// logarithm says how often.
pub proof fn law_integers_round_down(x: i64, d: i64)
    ensures
        d > 0 ==> x.over_of(d) * d <= x < x.over_of(d) * d + d,
        x >= 0 ==> is_floor_root(x.root_of() as int, x as int),
        0i64.exp_of() == 1,
        0 <= x < 62 ==> ((x + 1) as i64).exp_of() == 2 * x.exp_of(),
        x < 0 ==> x.exp_of() == 0,
        x > 0 ==> x.ln_of() >= 0 && pow2(x.ln_of() as nat) <= x < pow2((x.ln_of() + 1) as nat),
        x >= 1 ==> x.recip_of() * x <= 1 < x.recip_of() * x + x,
        x.greater_of(d) >= x,
        x.greater_of(d) >= d,
        x.greater_of(d) == x || x.greater_of(d) == d,
{
    lemma2_to64();
    if d > 0 {
        let q = x as int / d as int;
        vstd::arithmetic::div_mod::lemma_fundamental_div_mod(x as int, d as int);
        assert(d * q == q * d) by (nonlinear_arith);
        assert(i64::MIN <= q <= i64::MAX) by (nonlinear_arith)
            requires
                q * d <= x < q * d + d,
                d >= 1,
                i64::MIN <= x <= i64::MAX,
        ;
    }
    if x >= 0 {
        let r = lemma_floor_root_exists(x as int);
        lemma_one_floor_root(r, floor_root(x as int), x as int);
        assert(r <= x) by (nonlinear_arith)
            requires
                r * r <= x,
                r >= 0,
        ;
        if x == 0 {
            assert(is_floor_root(0, 0));
        }
    }
    if 0 <= x < 62 {
        lemma_pow2_unfold((x + 1) as nat);
        lemma2_to64_rest();
        if x + 1 < 62 {
            lemma_pow2_strictly_increases((x + 1) as nat, 62);
        }
        lemma_pow2_pos(x as nat);
    }
    if x > 0 {
        assert(x.recip_of() * x == (if x == 1 {
            1int
        } else {
            0
        })) by (nonlinear_arith)
            requires
                x.recip_of() == (if x == 1 {
                    1int
                } else {
                    0
                }),
        ;
        lemma_log_bounds(x as int);
        lemma2_to64_rest();
        let l = log(2, x as int);
        if l >= 63 {
            if l > 63 {
                lemma_pow2_strictly_increases(63, l as nat);
            }
            assert(false);
        }
    }
}

} // verus!
