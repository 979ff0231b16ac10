//! Moving the entries of matrices: transposing, padding, and the split of a
//! row into attention heads.

use vstd::arithmetic::div_mod::lemma_fundamental_div_mod_converse;
use vstd::prelude::*;

use crate::kernels::lemma_cell_fits;
use crate::windows::cell;

verus! {

/// Whether `m` is the `rows` by `cols` matrix, row by row, whose entries `f`
/// gives.
pub open spec fn is_matrix<T>(m: Seq<T>, rows: int, cols: int, f: spec_fn(int, int) -> T) -> bool {
    &&& m.len() == rows * cols
    &&& forall|i: int, j: int|
        0 <= i < rows && 0 <= j < cols ==> m[#[trigger] cell(i, cols, j)] == f(i, j)
}

/// The `rows` by `cols` matrix, row by row, whose entries `f` gives.
pub open spec fn matrix<T>(rows: int, cols: int, f: spec_fn(int, int) -> T) -> Seq<T> {
    Seq::new((rows * cols) as nat, |p: int| f(p / cols, p % cols))
}

/// There is one matrix of given entries.
pub proof fn lemma_one_matrix<T>(m: Seq<T>, rows: int, cols: int, f: spec_fn(int, int) -> T)
    requires
        rows >= 0,
        cols >= 0,
        is_matrix(m, rows, cols, f),
    ensures
        m == matrix(rows, cols, f),
{
    assert forall|p: int| 0 <= p < m.len() implies m[p] == f(p / cols, p % cols) by {
        lemma_position(p, rows, cols);
        assert(m[cell(p / cols, cols, p % cols)] == f(p / cols, p % cols));
    }
    assert(m =~= matrix(rows, cols, f));
}

/// An entry of a matrix.
pub(crate) proof fn lemma_matrix_entry<T>(rows: int, cols: int, f: spec_fn(int, int) -> T, i: int, j: int)
    requires
        0 <= i < rows,
        0 <= j < cols,
    ensures
        0 <= cell(i, cols, j) < matrix(rows, cols, f).len(),
        matrix(rows, cols, f)[cell(i, cols, j)] == f(i, j),
{
    lemma_cell_fits(i, rows, cols, j);
    lemma_fundamental_div_mod_converse(cell(i, cols, j), cols, i, j);
}

/// Whether the entries written so far are those that `f` gives.
pub(crate) open spec fn filled<T>(m: Seq<T>, cols: int, f: spec_fn(int, int) -> T) -> bool {
    forall|p: int| 0 <= p < m.len() ==> #[trigger] m[p] == f(p / cols, p % cols)
}

/// One entry more.
pub(crate) proof fn lemma_fill_step<T>(
    m: Seq<T>,
    cols: int,
    f: spec_fn(int, int) -> T,
    i: int,
    j: int,
)
    requires
        filled(m, cols, f),
        m.len() == cell(i, cols, j),
        0 <= i,
        0 <= j < cols,
    ensures
        filled(m.push(f(i, j)), cols, f),
{
    lemma_fundamental_div_mod_converse(cell(i, cols, j), cols, i, j);
}

/// All entries are written.
pub(crate) proof fn lemma_filled_is_matrix<T>(
    m: Seq<T>,
    rows: int,
    cols: int,
    f: spec_fn(int, int) -> T,
)
    requires
        filled(m, cols, f),
        m.len() == rows * cols,
    ensures
        is_matrix(m, rows, cols, f),
{
    assert forall|i: int, j: int| 0 <= i < rows && 0 <= j < cols implies m[#[trigger] cell(
        i,
        cols,
        j,
    )] == f(i, j) by {
        lemma_cell_fits(i, rows, cols, j);
        lemma_fundamental_div_mod_converse(cell(i, cols, j), cols, i, j);
    }
}

/// Copies a list.
pub fn copy_of<T: Copy>(m: &[T]) -> (r: Vec<T>)
    ensures
        r@ == m@,
{
    let mut r: Vec<T> = Vec::new();
    let mut i: usize = 0;
    while i < m.len()
        invariant
            i <= m@.len(),
            r@ == m@.take(i as int),
        decreases m@.len() - i,
    {
        r.push(m[i]);
        i += 1;
        assert(r@ =~= m@.take(i as int));
    }
    assert(r@ =~= m@);
    r
}

/// The transpose of a `rows` by `cols` matrix.
pub fn transpose<T: Copy>(m: &[T], rows: usize, cols: usize) -> (r: Vec<T>)
    requires
        m@.len() == rows * cols,
    ensures
        is_matrix(r@, cols as int, rows as int, |j: int, i: int| m@[cell(i, cols as int, j)]),
{
    let ghost f = |j: int, i: int| m@[cell(i, cols as int, j)];
    let mut r: Vec<T> = Vec::new();
    assert(m@.len() == m.len());
    let mut j: usize = 0;
    while j < cols
        invariant
            j <= cols,
            m@.len() == rows * cols,
            m@.len() <= usize::MAX,
            f == (|j: int, i: int| m@[cell(i, cols as int, j)]),
            r@.len() == j * rows,
            filled(r@, rows as int, f),
        decreases cols - j,
    {
        let mut i: usize = 0;
        while i < rows
            invariant
                i <= rows,
                j < cols,
                m@.len() == rows * cols,
                m@.len() <= usize::MAX,
                f == (|j: int, i: int| m@[cell(i, cols as int, j)]),
                r@.len() == j * rows + i,
                filled(r@, rows as int, f),
            decreases rows - i,
        {
            proof {
                lemma_cell_fits(i as int, rows as int, cols as int, j as int);
                lemma_fill_step(r@, rows as int, f, j as int, i as int);
            }
            r.push(m[i * cols + j]);
            i += 1;
        }
        assert((j + 1) * rows == j * rows + rows) by (nonlinear_arith);
        j += 1;
    }
    proof {
        lemma_filled_is_matrix(r@, cols as int, rows as int, f);
    }
    r
}

/// Transposing twice gives the matrix back.
pub proof fn law_transpose_twice<T>(m: Seq<T>, once: Seq<T>, twice: Seq<T>, rows: int, cols: int)
    requires
        rows >= 0,
        cols >= 0,
        m.len() == rows * cols,
        is_matrix(once, cols, rows, |j: int, i: int| m[cell(i, cols, j)]),
        is_matrix(twice, rows, cols, |i: int, j: int| once[cell(j, rows, i)]),
    ensures
        twice == m,
{
    assert forall|p: int| 0 <= p < m.len() implies twice[p] == m[p] by {
        lemma_position(p, rows, cols);
        let i = p / cols;
        let j = p % cols;
        assert(twice[cell(i, cols, j)] == once[cell(j, rows, i)]);
        assert(once[cell(j, rows, i)] == m[cell(i, cols, j)]);
    }
    assert(twice =~= m);
}

/// Every position is an entry of a row.
pub(crate) proof fn lemma_position(p: int, rows: int, cols: int)
    requires
        0 <= p < rows * cols,
        rows >= 0,
        cols >= 0,
    ensures
        0 <= p / cols < rows,
        0 <= p % cols < cols,
        p == cell(p / cols, cols, p % cols),
{
    assert(cols > 0) by (nonlinear_arith)
        requires
            0 <= p < rows * cols,
            cols >= 0,
    ;
    vstd::arithmetic::div_mod::lemma_fundamental_div_mod(p, cols);
    let q = p / cols;
    let r = p % cols;
    assert(0 <= q < rows) by (nonlinear_arith)
        requires
            p == cols * q + r,
            0 <= r < cols,
            0 <= p < rows * cols,
    ;
    assert(cols * q == q * cols) by (nonlinear_arith);
}

/// The channels of a `t` by `h` matrix, each with `pad` zeros before it and
/// after it.
pub fn pad_time<T: Copy>(hidden: &[T], t: usize, h: usize, pad: usize, zero: T) -> (r: Vec<T>)
    requires
        hidden@.len() == t * h,
        t + 2 * pad <= usize::MAX,
    ensures
        is_matrix(
            r@,
            h as int,
            t + 2 * pad,
            |c: int, p: int|
                if pad <= p < pad + t {
                    hidden@[cell(p - pad, h as int, c)]
                } else {
                    zero
                },
        ),
{
    let t_pad = t + 2 * pad;
    let ghost f = |c: int, p: int|
        if pad <= p < pad + t {
            hidden@[cell(p - pad, h as int, c)]
        } else {
            zero
        };
    let mut r: Vec<T> = Vec::new();
    assert(hidden@.len() == hidden.len());
    let mut c: usize = 0;
    while c < h
        invariant
            c <= h,
            hidden@.len() == t * h,
            hidden@.len() <= usize::MAX,
            t_pad == t + 2 * pad,
            f == (|c: int, p: int|
                if pad <= p < pad + t {
                    hidden@[cell(p - pad, h as int, c)]
                } else {
                    zero
                }),
            r@.len() == c * t_pad,
            filled(r@, t_pad as int, f),
        decreases h - c,
    {
        let mut p: usize = 0;
        while p < t_pad
            invariant
                p <= t_pad,
                c < h,
                hidden@.len() == t * h,
                hidden@.len() <= usize::MAX,
                t_pad == t + 2 * pad,
                f == (|c: int, p: int|
                    if pad <= p < pad + t {
                        hidden@[cell(p - pad, h as int, c)]
                    } else {
                        zero
                    }),
                r@.len() == c * t_pad + p,
                filled(r@, t_pad as int, f),
            decreases t_pad - p,
        {
            proof {
                lemma_fill_step(r@, t_pad as int, f, c as int, p as int);
            }
            if p >= pad && p - pad < t {
                proof {
                    lemma_cell_fits(p - pad, t as int, h as int, c as int);
                }
                r.push(hidden[(p - pad) * h + c]);
            } else {
                r.push(zero);
            }
            p += 1;
        }
        assert((c + 1) * t_pad == c * t_pad + t_pad) by (nonlinear_arith);
        c += 1;
    }
    proof {
        lemma_filled_is_matrix(r@, h as int, t_pad as int, f);
    }
    r
}

/// Columns `head * head_dim` to `head * head_dim + head_dim` of a `t` by `h`
/// matrix.
pub fn split_head<T: Copy>(m: &[T], t: usize, h: usize, head: usize, head_dim: usize) -> (r: Vec<T>)
    requires
        m@.len() == t * h,
        head * head_dim + head_dim <= h,
    ensures
        is_matrix(
            r@,
            t as int,
            head_dim as int,
            |i: int, d: int| m@[cell(i, h as int, head * head_dim + d)],
        ),
{
    let ghost f = |i: int, d: int| m@[cell(i, h as int, head * head_dim + d)];
    let mut r: Vec<T> = Vec::new();
    assert(m@.len() == m.len());
    assert(0 <= head * head_dim) by (nonlinear_arith)
        requires
            0 <= head,
            0 <= head_dim,
    ;
    let first = head * head_dim;
    let mut i: usize = 0;
    while i < t
        invariant
            i <= t,
            m@.len() == t * h,
            m@.len() <= usize::MAX,
            first == head * head_dim,
            first + head_dim <= h,
            f == (|i: int, d: int| m@[cell(i, h as int, head * head_dim + d)]),
            r@.len() == i * head_dim,
            filled(r@, head_dim as int, f),
        decreases t - i,
    {
        let mut d: usize = 0;
        while d < head_dim
            invariant
                d <= head_dim,
                i < t,
                m@.len() == t * h,
                m@.len() <= usize::MAX,
                first == head * head_dim,
                first + head_dim <= h,
                f == (|i: int, d: int| m@[cell(i, h as int, head * head_dim + d)]),
                r@.len() == i * head_dim + d,
                filled(r@, head_dim as int, f),
            decreases head_dim - d,
        {
            proof {
                lemma_cell_fits(i as int, t as int, h as int, first + d);
                lemma_fill_step(r@, head_dim as int, f, i as int, d as int);
            }
            r.push(m[i * h + (first + d)]);
            d += 1;
        }
        assert((i + 1) * head_dim == i * head_dim + head_dim) by (nonlinear_arith);
        i += 1;
    }
    proof {
        lemma_filled_is_matrix(r@, t as int, head_dim as int, f);
    }
    r
}

/// The entry of row `i` and column `c` when `t` by `head_dim` heads stand side
/// by side; columns after the last head are zero.
pub open spec fn merged_entry<T>(
    heads: Seq<Vec<T>>,
    head_dim: int,
    zero: T,
    i: int,
    c: int,
) -> T {
    if c < heads.len() * head_dim {
        heads[c / head_dim]@[cell(i, head_dim, c % head_dim)]
    } else {
        zero
    }
}

/// Puts heads side by side into a `t` by `h` matrix.
pub fn merge_heads<T: Copy>(heads: &[Vec<T>], t: usize, h: usize, head_dim: usize, zero: T) -> (r:
    Vec<T>)
    requires
        heads@.len() * head_dim <= h,
        forall|n: int| 0 <= n < heads@.len() ==> (#[trigger] heads@[n])@.len() == t * head_dim,
    ensures
        is_matrix(
            r@,
            t as int,
            h as int,
            |i: int, c: int| merged_entry(heads@, head_dim as int, zero, i, c),
        ),
{
    let ghost f = |i: int, c: int| merged_entry(heads@, head_dim as int, zero, i, c);
    let mut r: Vec<T> = Vec::new();
    let n_heads = heads.len();
    assert(0 <= n_heads * head_dim) by (nonlinear_arith)
        requires
            0 <= n_heads,
            0 <= head_dim,
    ;
    let used = n_heads * head_dim;
    let mut i: usize = 0;
    while i < t
        invariant
            i <= t,
            n_heads == heads@.len(),
            used == n_heads * head_dim,
            used <= h,
            forall|n: int| 0 <= n < heads@.len() ==> (#[trigger] heads@[n])@.len() == t * head_dim,
            f == (|i: int, c: int| merged_entry(heads@, head_dim as int, zero, i, c)),
            r@.len() == i * h,
            filled(r@, h as int, f),
        decreases t - i,
    {
        let mut c: usize = 0;
        while c < h
            invariant
                c <= h,
                i < t,
                n_heads == heads@.len(),
                used == n_heads * head_dim,
                used <= h,
                forall|n: int|
                    0 <= n < heads@.len() ==> (#[trigger] heads@[n])@.len() == t * head_dim,
                f == (|i: int, c: int| merged_entry(heads@, head_dim as int, zero, i, c)),
                r@.len() == i * h + c,
                filled(r@, h as int, f),
            decreases h - c,
        {
            proof {
                lemma_fill_step(r@, h as int, f, i as int, c as int);
            }
            if c < used {
                proof {
                    lemma_position(c as int, n_heads as int, head_dim as int);
                    lemma_cell_fits(
                        i as int,
                        t as int,
                        head_dim as int,
                        (c % head_dim) as int,
                    );
                }
                let part = &heads[c / head_dim];
                assert(part@.len() == part.len());
                r.push(part[i * head_dim + c % head_dim]);
            } else {
                r.push(zero);
            }
            c += 1;
        }
        assert((i + 1) * h == i * h + h) by (nonlinear_arith);
        i += 1;
    }
    proof {
        lemma_filled_is_matrix(r@, t as int, h as int, f);
    }
    r
}

/// Splitting a matrix into heads that cover it, and putting the heads side by
/// side, gives the matrix back.
pub proof fn law_heads_round_trip<T>(
    m: Seq<T>,
    heads: Seq<Vec<T>>,
    merged: Seq<T>,
    t: int,
    h: int,
    head_dim: int,
    zero: T,
)
    requires
        t >= 0,
        h >= 0,
        head_dim >= 0,
        m.len() == t * h,
        heads.len() * head_dim == h,
        forall|n: int|
            0 <= n < heads.len() ==> is_matrix(
                (#[trigger] heads[n])@,
                t,
                head_dim,
                |i: int, d: int| m[cell(i, h, n * head_dim + d)],
            ),
        is_matrix(merged, t, h, |i: int, c: int| merged_entry(heads, head_dim, zero, i, c)),
    ensures
        merged == m,
{
    assert forall|p: int| 0 <= p < m.len() implies merged[p] == m[p] by {
        lemma_position(p, t, h);
        let i = p / h;
        let c = p % h;
        lemma_position(c, heads.len() as int, head_dim);
        let n = c / head_dim;
        let d = c % head_dim;
        assert(merged[cell(i, h, c)] == heads[n]@[cell(i, head_dim, d)]);
        assert(heads[n]@[cell(i, head_dim, d)] == m[cell(i, h, n * head_dim + d)]);
    }
    assert(merged =~= m);
}

} // verus!
