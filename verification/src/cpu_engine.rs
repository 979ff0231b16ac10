//! The forward pass of a Wav2Vec2 CTC model, over the arithmetic of a number
//! type.

use vstd::arithmetic::div_mod::lemma_fundamental_div_mod;
use vstd::hash_map::StringHashMap;
use vstd::prelude::*;

use crate::checkpoint::{
    checkpoint_of, Checkpoint, CheckpointView, Conv1dLayer, Conv1dLayerView, EncoderLayer,
    EncoderLayerView, LayerNorm, LayerNormView, Linear, LinearView, LoadError, LoadErrorView,
    PosConv, PosConvView,
};
use crate::config::ModelConfig;
use crate::kernels::{
    add_bias, add_rows, conv_error, conv_out_len, conv_row, conv_terms, dot, dot_terms,
    lemma_stack_fails, out_len, pos_conv_row, row_of, stack_after, sum_from, ConvError, ConvShape,
    StackError, Taps,
};
use crate::layout::{
    copy_of, filled, is_matrix, lemma_fill_step, lemma_filled_is_matrix, lemma_one_matrix,
    lemma_position, matrix, merge_heads, merged_entry, pad_time, transpose,
};
use crate::parallel::{join_rows, map_rows};
use crate::raw_tensor::{numbers, numbers_of, Decode, RawTensor};
use crate::rows::{
    attend_head, attended, normalize_rows, normalized, tap_weight, weight_norm, Real,
};
use crate::windows::cell;

verus! {

/// The arithmetic that the weights of a network need beyond that of rows.
///
/// As with [`Real`], a type names the operations as functions of their
/// operands.
pub trait Weight: Real + Decode + Send + Sync {
    /// The Gaussian error linear unit.
    spec fn gelu_of(self) -> Self;

    /// The product of a `(rows, inn)` matrix and a transposed `(out, inn)`
    /// matrix; the order of the sums is the type's own.
    spec fn product_of(
        x: Vec<Self>,
        w: Vec<Self>,
        rows: usize,
        inn: usize,
        out: usize,
    ) -> Vec<Self>;

    fn gelu(self) -> (r: Self)
        ensures
            r == self.gelu_of(),
    ;

    fn product(x: &[Self], w: &[Self], rows: usize, inn: usize, out: usize) -> (r: Vec<Self>)
        requires
            x@.len() == rows * inn,
            w@.len() == out * inn,
        ensures
            r@.len() == rows * out,
            r@ == Self::product_of(vec_of(x@), vec_of(w@), rows, inn, out)@,
    ;
}

/// A vector with the given contents.
pub open spec fn vec_of<R>(contents: Seq<R>) -> Vec<R> {
    choose|v: Vec<R>| v@ == contents
}

/// The product of a `(rows, inn)` matrix and a transposed `(out, inn)` matrix.
pub open spec fn product<R: Weight>(x: Seq<R>, w: Seq<R>, rows: int, inn: int, out: int) -> Seq<R> {
    R::product_of(vec_of(x), vec_of(w), rows as usize, inn as usize, out as usize)@
}

/// Integers: the error linear unit, rounded to the nearest integer, is the
/// ramp.
impl Weight for i64 {
    open spec fn gelu_of(self) -> Self {
        if self < 0 {
            0
        } else {
            self
        }
    }

    open spec fn product_of(
        x: Vec<Self>,
        w: Vec<Self>,
        rows: usize,
        inn: usize,
        out: usize,
    ) -> Vec<Self> {
        vec_of(
            matrix(
                rows as int,
                out as int,
                |i: int, j: int| sum_from(0i64, dot_terms(x@, w@, inn as int, i, j)),
            ),
        )
    }

    fn gelu(self) -> (r: Self) {
        if self < 0 {
            0
        } else {
            self
        }
    }

    fn product(x: &[Self], w: &[Self], rows: usize, inn: usize, out: usize) -> (r: Vec<Self>) {
        let ghost f = |i: int, j: int| sum_from(0i64, dot_terms(x@, w@, inn as int, i, j));
        let mut r: Vec<i64> = Vec::new();
        let mut i: usize = 0;
        while i < rows
            invariant
                i <= rows,
                x@.len() == rows * inn,
                w@.len() == out * inn,
                f == (|i: int, j: int| sum_from(0i64, dot_terms(x@, w@, inn as int, i, j))),
                r@.len() == i * out,
                filled(r@, out as int, f),
            decreases rows - i,
        {
            let mut j: usize = 0;
            while j < out
                invariant
                    j <= out,
                    i < rows,
                    x@.len() == rows * inn,
                    w@.len() == out * inn,
                    f == (|i: int, j: int| sum_from(0i64, dot_terms(x@, w@, inn as int, i, j))),
                    r@.len() == i * out + j,
                    filled(r@, out as int, f),
                decreases out - j,
            {
                proof {
                    lemma_fill_step(r@, out as int, f, i as int, j as int);
                }
                r.push(dot(x, w, rows, out, inn, i, j));
                j += 1;
            }
            assert((i + 1) * out == i * out + out) by (nonlinear_arith);
            i += 1;
        }
        let xs = copy_of(x);
        let ws = copy_of(w);
        proof {
            lemma_filled_is_matrix(r@, rows as int, out as int, f);
            lemma_one_matrix(r@, rows as int, out as int, f);
            assert(vec_of(x@)@ == x@) by {
                assert(xs@ == x@);
            }
            assert(vec_of(w@)@ == w@) by {
                assert(ws@ == w@);
            }
            assert(vec_of(r@)@ == r@);
        }
        r
    }
}

/// The error linear unit of each entry.
pub open spec fn gelu_all<R: Weight>(x: Seq<R>) -> Seq<R> {
    x.map_values(|v: R| v.gelu_of())
}

fn gelu_each<R: Weight>(x: &[R]) -> (r: Vec<R>)
    ensures
        r@ == gelu_all(x@),
{
    let mut r: Vec<R> = Vec::new();
    let mut i: usize = 0;
    while i < x.len()
        invariant
            i <= x@.len(),
            r@.len() == i,
            forall|k: int| 0 <= k < i ==> #[trigger] r@[k] == x@[k].gelu_of(),
        decreases x@.len() - i,
    {
        r.push(x[i].gelu());
        i += 1;
    }
    assert(r@ =~= gelu_all(x@));
    r
}

/// The sums of two lists, entry by entry.
pub open spec fn plus_all<R: Weight>(x: Seq<R>, y: Seq<R>) -> Seq<R> {
    Seq::new(x.len(), |i: int| x[i].plus_of(y[i]))
}

/// The transpose of a `rows` by `cols` matrix.
pub open spec fn transposed<R>(m: Seq<R>, rows: int, cols: int) -> Seq<R> {
    matrix(cols, rows, |j: int, i: int| m[cell(i, cols, j)])
}

fn transpose_of<R: Weight>(m: &[R], rows: usize, cols: usize) -> (r: Vec<R>)
    requires
        m@.len() == rows * cols,
    ensures
        r@ == transposed(m@, rows as int, cols as int),
        r@.len() == cols * rows,
{
    let r = transpose(m, rows, cols);
    proof {
        lemma_one_matrix(
            r@,
            cols as int,
            rows as int,
            |j: int, i: int| m@[cell(i, cols as int, j)],
        );
    }
    r
}

/// A linear layer.
#[derive(Debug)]
pub struct Dense<R> {
    /// `(out, inn)`, row by row
    pub w: Vec<R>,
    pub b: Vec<R>,
    pub out: usize,
    pub inn: usize,
}

impl<R: Weight> Dense<R> {
    /// Whether the layer takes rows of `inn` numbers and gives rows of `out`.
    pub open spec fn fits(self, inn: int, out: int) -> bool {
        &&& self.inn == inn
        &&& self.out == out
        &&& self.w@.len() == self.out * self.inn
        &&& self.b@.len() >= self.out
    }

    /// What the layer makes of `rows` rows.
    pub open spec fn of(self, x: Seq<R>, rows: int) -> Seq<R> {
        let (inn, out) = (self.inn as int, self.out as int);
        let sums = product(x, self.w@, rows, inn, out);
        matrix(rows, out, |i: int, j: int| sums[cell(i, out, j)].plus_of(self.b@[j]))
    }

    fn forward(&self, x: &[R], rows: usize) -> (r: Vec<R>)
        requires
            x@.len() == rows * self.inn,
            self.fits(self.inn as int, self.out as int),
        ensures
            r@ == self.of(x@, rows as int),
            r@.len() == rows * self.out,
    {
        let sums = R::product(x, self.w.as_slice(), rows, self.inn, self.out);
        let r = add_bias(sums.as_slice(), rows, self.out, self.b.as_slice());
        proof {
            lemma_one_matrix(
                r@,
                rows as int,
                self.out as int,
                |i: int, j: int| sums@[cell(i, self.out as int, j)].plus_of(self.b@[j]),
            );
            assert(r@ =~= self.of(x@, rows as int));
        }
        r
    }
}

/// A layer normalisation.
#[derive(Debug)]
pub struct Norm<R> {
    pub w: Vec<R>,
    pub b: Vec<R>,
    pub eps: R,
}

impl<R: Weight> Norm<R> {
    /// Whether the layer takes rows of `dim` numbers.
    pub open spec fn fits(self, dim: int) -> bool {
        self.w@.len() == dim && self.b@.len() >= dim
    }

    /// What the layer makes of `rows` rows.
    pub open spec fn of(self, x: Seq<R>, rows: int) -> Seq<R> {
        let dim = self.w@.len() as int;
        matrix(
            rows,
            dim,
            |i: int, j: int| normalized(row_of(x, i, dim), self.w@, self.b@, self.eps, j),
        )
    }

    fn forward(&self, x: &[R], rows: usize) -> (r: Vec<R>)
        requires
            x@.len() == rows * self.w@.len(),
            self.b@.len() >= self.w@.len(),
        ensures
            r@ == self.of(x@, rows as int),
            r@.len() == rows * self.w@.len(),
    {
        let r = normalize_rows(x, rows, self.w.as_slice(), self.b.as_slice(), self.eps);
        proof {
            let dim = self.w@.len() as int;
            lemma_one_matrix(
                r@,
                rows as int,
                dim,
                |i: int, j: int| normalized(row_of(x@, i, dim), self.w@, self.b@, self.eps, j),
            );
            assert(r@ =~= self.of(x@, rows as int));
        }
        r
    }
}

/// A convolution over time, with its normalisation if it has one.
#[derive(Debug)]
pub struct Conv<R> {
    /// `(out_ch, in_ch, k)`
    pub w: Vec<R>,
    pub b: Vec<R>,
    pub shape: ConvShape,
    pub ln: Option<Norm<R>>,
}

impl<R: Weight> Conv<R> {
    /// Whether the layer's parts fit its shape.
    pub open spec fn fits(self) -> bool {
        &&& self.shape.stride > 0
        &&& self.w@.len() == self.shape.out_ch * (self.shape.in_ch * self.shape.k)
        &&& self.b@.len() >= self.shape.out_ch
        &&& self.ln matches Some(ln) ==> ln.fits(self.shape.out_ch as int)
    }

    /// Entry `t` of output channel `oc`, before normalisation.
    pub open spec fn entry(self, x: Seq<R>, in_len: int, oc: int, t: int) -> R {
        let s = self.shape;
        sum_from(
            self.b@[oc],
            conv_terms(
                x,
                in_len,
                row_of(self.w@, oc, s.in_ch * s.k),
                Taps { first: 0, channels: s.in_ch, k: s.k, stride: s.stride },
                t,
            ),
        )
    }

    /// The output before normalisation.
    pub open spec fn channels(self, x: Seq<R>, in_len: int) -> Seq<R> {
        matrix(
            self.shape.out_ch as int,
            out_len(self.shape.k as int, self.shape.stride as int, in_len),
            |oc: int, t: int| self.entry(x, in_len, oc, t),
        )
    }

    /// What the layer makes of channels of `in_len` samples.
    pub open spec fn of(self, x: Seq<R>, in_len: int) -> Seq<R> {
        let out_ch = self.shape.out_ch as int;
        let n = out_len(self.shape.k as int, self.shape.stride as int, in_len);
        let raw = self.channels(x, in_len);
        gelu_all(
            match self.ln {
                Some(ln) => transposed(ln.of(transposed(raw, out_ch, n), n), n, out_ch),
                None => raw,
            },
        )
    }

    fn channel(&self, x: &[R], in_len: usize, oc: usize) -> (r: Vec<R>)
        requires
            self.fits(),
            x@.len() == self.shape.in_ch * in_len,
            self.shape.k <= in_len < usize::MAX,
            oc < self.shape.out_ch,
        ensures
            r@.len() == out_len(self.shape.k as int, self.shape.stride as int, in_len as int),
            forall|t: int|
                0 <= t < r@.len() ==> #[trigger] r@[t] == self.entry(
                    x@,
                    in_len as int,
                    oc as int,
                    t,
                ),
    {
        let ghost size = self.shape.in_ch * self.shape.k;
        assert(oc * size + size <= self.shape.out_ch * size) by (nonlinear_arith)
            requires
                oc < self.shape.out_ch,
                0 <= size,
        ;
        conv_row(&self.shape, x, in_len, self.w.as_slice(), self.b.as_slice(), oc)
    }

    /// Runs the layer on channels of `in_len` samples; the output's channels are
    /// computed in parallel.  With them comes their length.
    pub fn forward(&self, x: &[R], in_len: usize) -> (r: Result<(Vec<R>, usize), ConvError>)
        requires
            self.fits(),
            in_len < usize::MAX,
        ensures
            match conv_error(self.shape, x@.len() as usize, in_len) {
                Some(e) => r == Err::<(Vec<R>, usize), ConvError>(e),
                None => {
                    &&& r matches Ok((y, n))
                    &&& y@ == self.of(x@, in_len as int)
                    &&& n == out_len(self.shape.k as int, self.shape.stride as int, in_len as int)
                    &&& y@.len() == self.shape.out_ch * n
                },
            },
    {
        assert(x@.len() == x.len());
        let n = match conv_out_len(&self.shape, x.len(), in_len) {
            Ok(n) => n,
            Err(e) => return Err(e),
        };
        let out_ch = self.shape.out_ch;
        let channel = |oc: usize| -> (row: Vec<R>)
            requires
                oc < out_ch,
            ensures
                row@.len() == n,
                forall|t: int|
                    0 <= t < n ==> #[trigger] row@[t] == self.entry(
                        x@,
                        in_len as int,
                        oc as int,
                        t,
                    ),
            { self.channel(x, in_len, oc) };
        let rows = map_rows(out_ch, channel);
        proof {
            assert forall|oc: int| 0 <= oc < out_ch implies (#[trigger] rows@[oc])@.len() == n
                && forall|t: int|
                0 <= t < n ==> #[trigger] rows@[oc]@[t] == self.entry(
                    x@,
                    in_len as int,
                    oc,
                    t,
                ) by {
                let i = oc as usize;
                assert(call_ensures(channel, (i,), rows@[i as int]));
            }
        }
        let raw = join_rows(rows.as_slice(), n);
        proof {
            let f = |oc: int, t: int| self.entry(x@, in_len as int, oc, t);
            assert(is_matrix(raw@, out_ch as int, n as int, f)) by {
                assert forall|oc: int, t: int| 0 <= oc < out_ch && 0 <= t < n implies raw@[
                #[trigger] cell(oc, n as int, t)] == f(oc, t) by {
                    assert(raw@[cell(oc, n as int, t)] == rows@[oc]@[t]);
                }
            }
            lemma_one_matrix(raw@, out_ch as int, n as int, f);
            assert(raw@ =~= self.channels(x@, in_len as int));
        }
        let y = match &self.ln {
            Some(ln) => {
                let frames = transpose_of(raw.as_slice(), out_ch, n);
                let normed = ln.forward(frames.as_slice(), n);
                gelu_each(transpose_of(normed.as_slice(), n, out_ch).as_slice())
            },
            None => gelu_each(raw.as_slice()),
        };
        Ok((y, n))
    }
}

/// A convolution over time that gives each frame a sense of its position.  Each
/// channel reads the channels of its own group.
#[derive(Debug)]
pub struct PosEmbed<R> {
    /// `(hidden, width, k)`
    pub w: Vec<R>,
    pub b: Vec<R>,
    pub k: usize,
    /// The channels of a group.
    pub width: usize,
}

/// The channels of a `t` by `h` matrix, with `pad` zeros before and after each.
pub open spec fn padded<R: Weight>(hidden: Seq<R>, t: int, h: int, pad: int) -> Seq<R> {
    matrix(
        h,
        t + 2 * pad,
        |c: int, p: int|
            if pad <= p < pad + t {
                hidden[cell(p - pad, h, c)]
            } else {
                R::zero_of()
            },
    )
}

/// A channel and the rest of its group lie below the number of channels.
pub(crate) proof fn lemma_group_fits(oc: int, h: int, width: int)
    requires
        0 <= oc < h,
        width > 0,
        h % width == 0,
    ensures
        0 <= oc / width * width,
        oc / width * width + width <= h,
{
    lemma_fundamental_div_mod(oc, width);
    lemma_fundamental_div_mod(h, width);
    let q = oc / width;
    let m = h / width;
    assert(0 <= q * width && q * width + width <= h) by (nonlinear_arith)
        requires
            oc == width * q + oc % width,
            0 <= oc % width < width,
            h == width * m,
            0 <= oc < h,
            width > 0,
    ;
}

impl<R: Weight> PosEmbed<R> {
    /// Whether the layer takes frames of `h` features.
    pub open spec fn fits(self, h: int) -> bool {
        &&& self.width > 0
        &&& h % self.width as int == 0
        &&& self.w@.len() == h * (self.width * self.k)
        &&& self.b@.len() >= h
    }

    /// Entry `i` of channel `oc`.
    pub open spec fn entry(self, x: Seq<R>, t_pad: int, oc: int, i: int) -> R {
        let width = self.width as int;
        sum_from(
            self.b@[oc],
            conv_terms(
                x,
                t_pad,
                row_of(self.w@, oc, width * self.k),
                Taps {
                    first: (oc / width * width) as usize,
                    channels: self.width,
                    k: self.k,
                    stride: 1,
                },
                i,
            ),
        ).gelu_of()
    }

    /// What the layer makes of `t` frames of `h` features.
    pub open spec fn of(self, hidden: Seq<R>, t: int, h: int) -> Seq<R> {
        let pad = self.k as int / 2;
        let x = padded(hidden, t, h, pad);
        transposed(
            matrix(h, t, |oc: int, i: int| self.entry(x, t + 2 * pad, oc, i)),
            h,
            t,
        )
    }

    fn channel(&self, x: &[R], t: usize, h: usize, t_pad: usize, oc: usize) -> (r: Vec<R>)
        requires
            self.fits(h as int),
            x@.len() == h * t_pad,
            t + self.k <= t_pad + 1,
            oc < h,
        ensures
            r@.len() == t,
            forall|i: int|
                0 <= i < t ==> #[trigger] r@[i] == self.entry(x@, t_pad as int, oc as int, i),
    {
        let ghost size = self.width * self.k;
        proof {
            lemma_group_fits(oc as int, h as int, self.width as int);
            let end = oc as int / self.width as int * self.width as int + self.width;
            assert(end * t_pad <= h * t_pad) by (nonlinear_arith)
                requires
                    0 <= end <= h,
                    0 <= t_pad,
            ;
            assert(oc * size + size <= h * size) by (nonlinear_arith)
                requires
                    oc < h,
                    0 <= size,
            ;
        }
        let row = pos_conv_row(
            x,
            t_pad,
            self.w.as_slice(),
            self.b.as_slice(),
            self.width,
            self.k,
            oc,
            t,
        );
        gelu_each(row.as_slice())
    }

    /// Runs the layer; channels are computed in parallel.
    pub fn forward(&self, hidden: &[R], t: usize, h: usize) -> (r: Vec<R>)
        requires
            self.fits(h as int),
            hidden@.len() == t * h,
            t + self.k <= usize::MAX,
        ensures
            r@ == self.of(hidden@, t as int, h as int),
            r@.len() == t * h,
    {
        let pad = self.k / 2;
        let t_pad = t + 2 * pad;
        let x = pad_time(hidden, t, h, pad, R::zero());
        proof {
            let f = |c: int, p: int|
                if pad <= p < pad + t {
                    hidden@[cell(p - pad, h as int, c)]
                } else {
                    R::zero_of()
                };
            lemma_one_matrix(x@, h as int, t_pad as int, f);
            assert(x@ =~= padded(hidden@, t as int, h as int, pad as int));
        }
        let xs = x.as_slice();
        let channel = |oc: usize| -> (row: Vec<R>)
            requires
                oc < h,
            ensures
                row@.len() == t,
                forall|i: int|
                    0 <= i < t ==> #[trigger] row@[i] == self.entry(
                        x@,
                        t_pad as int,
                        oc as int,
                        i,
                    ),
            { self.channel(xs, t, h, t_pad, oc) };
        let rows = map_rows(h, channel);
        proof {
            assert forall|oc: int| 0 <= oc < h implies (#[trigger] rows@[oc])@.len() == t
                && forall|i: int|
                0 <= i < t ==> #[trigger] rows@[oc]@[i] == self.entry(x@, t_pad as int, oc, i) by {
                let n = oc as usize;
                assert(call_ensures(channel, (n,), rows@[n as int]));
            }
        }
        let joined = join_rows(rows.as_slice(), t);
        proof {
            let f = |oc: int, i: int| self.entry(x@, t_pad as int, oc, i);
            assert(is_matrix(joined@, h as int, t as int, f)) by {
                assert forall|oc: int, i: int| 0 <= oc < h && 0 <= i < t implies joined@[
                #[trigger] cell(oc, t as int, i)] == f(oc, i) by {
                    assert(joined@[cell(oc, t as int, i)] == rows@[oc]@[i]);
                }
            }
            lemma_one_matrix(joined@, h as int, t as int, f);
        }
        transpose_of(joined.as_slice(), h, t)
    }
}

/// A layer of the encoder.
#[derive(Debug)]
pub struct Block<R> {
    pub ln_attn: Norm<R>,
    pub q: Dense<R>,
    pub k: Dense<R>,
    pub v: Dense<R>,
    pub out: Dense<R>,
    pub ln_ff: Norm<R>,
    pub ff_inter: Dense<R>,
    pub ff_out: Dense<R>,
}

/// The scale of attention scores: one over the root of a head's width.
pub open spec fn attention_scale<R: Weight>(head_dim: int) -> R {
    R::count_of(head_dim as usize).root_of().recip_of()
}

/// Heads side by side: each frame's features, head after head.
pub open spec fn all_attended<R: Weight>(
    q: Seq<R>,
    k: Seq<R>,
    v: Seq<R>,
    t: int,
    h: int,
    n_heads: int,
    head_dim: int,
) -> Seq<R> {
    matrix(
        t,
        h,
        |i: int, c: int|
            if c < n_heads * head_dim {
                attended(q, k, v, t, h, c / head_dim, head_dim, attention_scale(head_dim))[cell(
                    i,
                    head_dim,
                    c % head_dim,
                )]
            } else {
                R::zero_of()
            },
    )
}

/// Attention with all heads, which are computed in parallel.
pub fn attend<R: Weight>(
    q: &[R],
    k: &[R],
    v: &[R],
    t: usize,
    h: usize,
    n_heads: usize,
    head_dim: usize,
) -> (r: Vec<R>)
    requires
        q@.len() == t * h,
        k@.len() == t * h,
        v@.len() == t * h,
        n_heads * head_dim <= h,
    ensures
        r@ == all_attended(
            q@,
            k@,
            v@,
            t as int,
            h as int,
            n_heads as int,
            head_dim as int,
        ),
        r@.len() == t * h,
{
    let scale = R::count(head_dim).root().recip();
    let ghost (t_, h_, n_, d_) = (t as int, h as int, n_heads as int, head_dim as int);
    let one = |head: usize| -> (row: Vec<R>)
        requires
            head < n_heads,
        ensures
            row@ == attended(q@, k@, v@, t_, h_, head as int, d_, scale),
        {
            proof {
                assert(head * head_dim + head_dim <= n_heads * head_dim) by (nonlinear_arith)
                    requires
                        head < n_heads,
                        0 <= head_dim,
                ;
            }
            attend_head(q, k, v, t, h, head, head_dim, scale)
        };
    let heads = map_rows(n_heads, one);
    proof {
        assert(0 <= t * head_dim) by (nonlinear_arith)
            requires
                0 <= t,
                0 <= head_dim,
        ;
        assert forall|n: int| 0 <= n < n_heads implies (#[trigger] heads@[n])@ == attended(
            q@,
            k@,
            v@,
            t_,
            h_,
            n,
            d_,
            scale,
        ) && heads@[n]@.len() == t * head_dim by {
            let head = n as usize;
            assert(call_ensures(one, (head,), heads@[head as int]));
        }
    }
    let r = merge_heads(heads.as_slice(), t, h, head_dim, R::zero());
    proof {
        let f = |i: int, c: int|
            if c < n_heads * head_dim {
                attended(q@, k@, v@, t_, h_, c / d_, d_, scale)[cell(i, d_, c % d_)]
            } else {
                R::zero_of()
            };
        assert(is_matrix(r@, t_, h_, f)) by {
            assert forall|i: int, c: int| 0 <= i < t && 0 <= c < h implies r@[#[trigger] cell(
                i,
                h_,
                c,
            )] == f(i, c) by {
                assert(r@[cell(i, h_, c)] == merged_entry(heads@, d_, R::zero_of(), i, c));
                if c < n_heads * head_dim {
                    lemma_position(c, n_, d_);
                    assert(heads@[c / d_]@ == attended(q@, k@, v@, t_, h_, c / d_, d_, scale));
                }
            }
        }
        lemma_one_matrix(r@, t_, h_, f);
        assert(r@ =~= all_attended(q@, k@, v@, t_, h_, n_, d_));
    }
    r
}

impl<R: Weight> Block<R> {
    /// Whether the layer takes frames of `h` features.
    pub open spec fn fits(self, h: int) -> bool {
        &&& self.ln_attn.fits(h)
        &&& self.q.fits(h, h)
        &&& self.k.fits(h, h)
        &&& self.v.fits(h, h)
        &&& self.out.fits(h, h)
        &&& self.ln_ff.fits(h)
        &&& self.ff_inter.fits(h, self.ff_inter.out as int)
        &&& self.ff_out.fits(self.ff_inter.out as int, h)
    }

    /// What attention adds to the frames.
    pub open spec fn attention(
        self,
        x: Seq<R>,
        t: int,
        h: int,
        n_heads: int,
        head_dim: int,
    ) -> Seq<R> {
        let normed = self.ln_attn.of(x, t);
        let q = self.q.of(normed, t);
        let k = self.k.of(normed, t);
        let v = self.v.of(normed, t);
        self.out.of(all_attended(q, k, v, t, h, n_heads, head_dim), t)
    }

    /// What the feed-forward part adds to the frames.
    pub open spec fn feed_forward(self, y: Seq<R>, t: int) -> Seq<R> {
        self.ff_out.of(gelu_all(self.ff_inter.of(self.ln_ff.of(y, t), t)), t)
    }

    /// What the layer makes of `t` frames of `h` features.
    pub open spec fn of(self, x: Seq<R>, t: int, h: int, n_heads: int, head_dim: int) -> Seq<R> {
        let y = plus_all(x, self.attention(x, t, h, n_heads, head_dim));
        plus_all(y, self.feed_forward(y, t))
    }

    /// Runs the layer.
    pub fn forward(&self, x: &[R], t: usize, h: usize, n_heads: usize, head_dim: usize) -> (r: Vec<R>)
        requires
            self.fits(h as int),
            x@.len() == t * h,
            n_heads * head_dim <= h,
        ensures
            r@ == self.of(x@, t as int, h as int, n_heads as int, head_dim as int),
            r@.len() == t * h,
    {
        let normed = self.ln_attn.forward(x, t);
        let q = self.q.forward(normed.as_slice(), t);
        let k = self.k.forward(normed.as_slice(), t);
        let v = self.v.forward(normed.as_slice(), t);
        let context = attend(q.as_slice(), k.as_slice(), v.as_slice(), t, h, n_heads, head_dim);
        let attention = self.out.forward(context.as_slice(), t);
        let y = add_rows(x, attention.as_slice());
        assert(y@ =~= plus_all(x@, attention@));
        let normed = self.ln_ff.forward(y.as_slice(), t);
        let inter = self.ff_inter.forward(normed.as_slice(), t);
        let ff = self.ff_out.forward(gelu_each(inter.as_slice()).as_slice(), t);
        let r = add_rows(y.as_slice(), ff.as_slice());
        assert(r@ =~= plus_all(y@, ff@));
        r
    }
}

/// A model that runs on the CPU.
#[derive(Debug)]
pub struct CpuEngine<R> {
    pub config: ModelConfig,
    pub convs: Vec<Conv<R>>,
    pub feat_ln: Norm<R>,
    pub feat: Dense<R>,
    pub pos: PosEmbed<R>,
    pub blocks: Vec<Block<R>>,
    pub n_heads: usize,
    pub head_dim: usize,
    pub final_ln: Norm<R>,
    pub lm_head: Dense<R>,
}

/// The shapes of convolutions.
pub open spec fn shapes_of<R>(convs: Seq<Conv<R>>) -> Seq<ConvShape> {
    convs.map_values(|c: Conv<R>| c.shape)
}

/// The channels that convolutions give; a waveform is one channel.
pub open spec fn features_of<R>(convs: Seq<Conv<R>>) -> int {
    if convs.len() == 0 {
        1
    } else {
        convs.last().shape.out_ch as int
    }
}

/// The samples of a channel after the first `n` convolutions.
pub open spec fn len_after<R>(convs: Seq<Conv<R>>, samples: int, n: int) -> int {
    stack_after(shapes_of(convs), samples, n)->Ok_0.1
}

/// What the first `n` convolutions make of a waveform.
pub open spec fn convolved<R: Weight>(convs: Seq<Conv<R>>, waveform: Seq<R>, n: int) -> Seq<R>
    decreases n,
{
    if n <= 0 {
        waveform
    } else {
        convs[n - 1].of(
            convolved(convs, waveform, n - 1),
            len_after(convs, waveform.len() as int, n - 1),
        )
    }
}

impl<R: Weight> CpuEngine<R> {
    /// Whether the parts of the network fit together.
    pub open spec fn fits(self) -> bool {
        let h = self.config.hidden_size as int;
        &&& forall|i: int| 0 <= i < self.convs@.len() ==> (#[trigger] self.convs@[i]).fits()
        &&& self.feat_ln.fits(features_of(self.convs@))
        &&& self.feat.fits(features_of(self.convs@), h)
        &&& self.pos.fits(h)
        &&& forall|i: int| 0 <= i < self.blocks@.len() ==> (#[trigger] self.blocks@[i]).fits(h)
        &&& self.n_heads * self.head_dim <= h
        &&& self.final_ln.fits(h)
        &&& self.lm_head.fits(h, self.lm_head.out as int)
    }

    /// What the first `n` layers of the encoder make of `t` frames.
    pub open spec fn encoded(self, x: Seq<R>, t: int, n: int) -> Seq<R>
        decreases n,
    {
        if n <= 0 {
            x
        } else {
            self.blocks@[n - 1].of(
                self.encoded(x, t, n - 1),
                t,
                self.config.hidden_size as int,
                self.n_heads as int,
                self.head_dim as int,
            )
        }
    }

    /// The frames that enter the encoder, of `t` frames with `c` features.
    pub open spec fn embedded(self, features: Seq<R>, c: int, t: int) -> Seq<R> {
        let projected = self.feat.of(self.feat_ln.of(transposed(features, c, t), t), t);
        plus_all(projected, self.pos.of(projected, t, self.config.hidden_size as int))
    }

    /// The logits of a waveform of `t` frames.
    pub open spec fn logits(self, waveform: Seq<R>, t: int) -> Seq<R> {
        let features = convolved(self.convs@, waveform, self.convs@.len() as int);
        let x = self.embedded(features, features_of(self.convs@), t);
        self.lm_head.of(
            self.final_ln.of(self.encoded(x, t, self.blocks@.len() as int), t),
            t,
        )
    }

    /// Runs the convolutions.  With what they give come its channels and their
    /// length.
    fn convolve(&self, waveform: &[R]) -> (r: Result<(Vec<R>, usize, usize), StackError>)
        requires
            self.fits(),
            waveform@.len() + self.convs@.len() < usize::MAX,
        ensures
            match stack_after(
                shapes_of(self.convs@),
                waveform@.len() as int,
                self.convs@.len() as int,
            ) {
                Err(e) => r == Err::<(Vec<R>, usize, usize), StackError>(e),
                Ok((channels, len)) => {
                    &&& r matches Ok((x, c, t))
                    &&& c == channels
                    &&& t == len
                    &&& x@ == convolved(self.convs@, waveform@, self.convs@.len() as int)
                    &&& x@.len() == c * t
                },
            },
    {
        let ghost convs = self.convs@;
        let ghost shapes = shapes_of(convs);
        let ghost samples = waveform@.len() as int;
        let ghost n = convs.len() as int;
        let mut x = copy_of(waveform);
        let mut channels: usize = 1;
        let mut len = waveform.len();
        let mut i: usize = 0;
        while i < self.convs.len()
            invariant
                i <= n,
                convs == self.convs@,
                n == convs.len(),
                shapes == shapes_of(convs),
                samples == waveform@.len(),
                samples + n < usize::MAX,
                self.fits(),
                stack_after(shapes, samples, i as int) == Ok::<(int, int), StackError>(
                    (channels as int, len as int),
                ),
                len <= samples + i,
                x@ == convolved(convs, waveform@, i as int),
                x@.len() == channels * len,
            decreases n - i,
        {
            let conv = &self.convs[i];
            proof {
                if stack_after(shapes, samples, i + 1) is Err {
                    lemma_stack_fails(shapes, samples, i + 1, n);
                }
                assert(shapes[i as int] == conv.shape);
                assert(conv.fits());
            }
            if channels != conv.shape.in_ch {
                return Err(
                    StackError::ChannelMismatch {
                        layer: i,
                        got: channels,
                        expected: conv.shape.in_ch,
                    },
                );
            }
            assert(x@.len() == x.len());
            match conv.forward(x.as_slice(), len) {
                Ok((y, next)) => {
                    assert((len - conv.shape.k) / (conv.shape.stride as int) <= len - conv.shape.k)
                        by (nonlinear_arith)
                        requires
                            len >= conv.shape.k,
                            conv.shape.stride >= 1,
                    ;
                    x = y;
                    len = next;
                    channels = conv.shape.out_ch;
                },
                Err(_) => return Err(
                    StackError::ShorterThanKernel { in_len: len, k: conv.shape.k },
                ),
            }
            i += 1;
        }
        Ok((x, channels, len))
    }

    /// Runs the layers of the encoder.
    fn encode(&self, x: Vec<R>, t: usize) -> (r: Vec<R>)
        requires
            self.fits(),
            x@.len() == t * self.config.hidden_size,
        ensures
            r@ == self.encoded(x@, t as int, self.blocks@.len() as int),
            r@.len() == t * self.config.hidden_size,
    {
        let ghost x0 = x@;
        let mut x = x;
        let mut i: usize = 0;
        while i < self.blocks.len()
            invariant
                i <= self.blocks@.len(),
                self.fits(),
                x@ == self.encoded(x0, t as int, i as int),
                x@.len() == t * self.config.hidden_size,
            decreases self.blocks@.len() - i,
        {
            let block = &self.blocks[i];
            assert(self.blocks@[i as int].fits(self.config.hidden_size as int));
            x = block.forward(x.as_slice(), t, self.config.hidden_size, self.n_heads, self.head_dim);
            i += 1;
        }
        x
    }

    /// The forward pass: mono samples in; logits, row by row, the number of
    /// frames and the size of the vocabulary out.
    pub fn forward_logits(&self, waveform: &[R]) -> (r: Result<(Vec<R>, usize, usize), StackError>)
        requires
            self.fits(),
            waveform@.len() + self.convs@.len() + self.pos.k < usize::MAX,
        ensures
            match stack_after(
                shapes_of(self.convs@),
                waveform@.len() as int,
                self.convs@.len() as int,
            ) {
                Err(e) => r == Err::<(Vec<R>, usize, usize), StackError>(e),
                Ok((_, t)) => {
                    &&& r matches Ok((logits, frames, vocab))
                    &&& frames == t
                    &&& vocab == self.lm_head.out
                    &&& logits@.len() == frames * vocab
                    &&& logits@ == self.logits(waveform@, t)
                },
            },
    {
        let (features, c, t) = match self.convolve(waveform) {
            Ok(convolved) => convolved,
            Err(e) => return Err(e),
        };
        proof {
            assert forall|i: int| 0 <= i < self.convs@.len() implies (#[trigger] self.convs@[i])
                .shape.stride > 0 by {
                assert(self.convs@[i].fits());
            }
            lemma_stack_bounds(self.convs@, waveform@.len() as int, self.convs@.len() as int);
        }
        let frames = transpose_of(features.as_slice(), c, t);
        let normed = self.feat_ln.forward(frames.as_slice(), t);
        let projected = self.feat.forward(normed.as_slice(), t);
        let pos = self.pos.forward(projected.as_slice(), t, self.config.hidden_size);
        let x = add_rows(projected.as_slice(), pos.as_slice());
        assert(x@ =~= plus_all(projected@, pos@));
        let encoded = self.encode(x, t);
        let normed = self.final_ln.forward(encoded.as_slice(), t);
        let logits = self.lm_head.forward(normed.as_slice(), t);
        Ok((logits, t, self.lm_head.out))
    }
}

/// The channels after all convolutions, and a bound on the samples.
proof fn lemma_stack_bounds<R: Weight>(convs: Seq<Conv<R>>, samples: int, n: int)
    requires
        0 <= n <= convs.len(),
        samples >= 0,
        forall|i: int| 0 <= i < convs.len() ==> (#[trigger] convs[i]).shape.stride > 0,
        stack_after(shapes_of(convs), samples, n) is Ok,
    ensures
        stack_after(shapes_of(convs), samples, n)->Ok_0.0 == features_of(convs.take(n)),
        0 <= stack_after(shapes_of(convs), samples, n)->Ok_0.1 <= samples + n,
        n == convs.len() ==> convs.take(n) == convs,
    decreases n,
{
    assert(n == convs.len() ==> convs.take(n) =~= convs);
    if n > 0 {
        if stack_after(shapes_of(convs), samples, n - 1) is Err {
            lemma_stack_fails(shapes_of(convs), samples, n - 1, n);
        }
        lemma_stack_bounds(convs, samples, n - 1);
        let shape = shapes_of(convs)[n - 1];
        assert(shape == convs[n - 1].shape);
        assert(convs.take(n).last() == convs[n - 1]);
        let len = stack_after(shapes_of(convs), samples, n - 1)->Ok_0.1;
        assert(0 <= (len - shape.k) / (shape.stride as int) <= len - shape.k) by (nonlinear_arith)
            requires
                len >= shape.k,
                shape.stride >= 1,
        ;
    }
}

/// Whether `a * b` is `n`.
fn is_product(n: usize, a: usize, b: usize) -> (r: bool)
    ensures
        r == (n == a * b),
{
    match a.checked_mul(b) {
        Some(ab) => n == ab,
        None => false,
    }
}

/// Whether `a * b * c` is `n`.
fn is_product_of_three(n: usize, a: usize, b: usize, c: usize) -> (r: bool)
    ensures
        r == (n == a * (b * c)),
{
    match b.checked_mul(c) {
        Some(bc) => is_product(n, a, bc),
        None => {
            assert(a == 0 ==> a * (b * c) == 0) by (nonlinear_arith);
            assert(a >= 1 ==> a * (b * c) >= b * c) by (nonlinear_arith)
                requires
                    b * c >= 0,
            ;
            n == 0 && a == 0
        },
    }
}

impl<R: Weight> Dense<R> {
    fn check(&self, inn: usize, out: usize) -> (r: bool)
        ensures
            r == self.fits(inn as int, out as int),
    {
        self.inn == inn && self.out == out && is_product(self.w.len(), self.out, self.inn)
            && self.b.len() >= self.out
    }
}

impl<R: Weight> Norm<R> {
    fn check(&self, dim: usize) -> (r: bool)
        ensures
            r == self.fits(dim as int),
    {
        self.w.len() == dim && self.b.len() >= dim
    }
}

impl<R: Weight> Conv<R> {
    fn check(&self) -> (r: bool)
        ensures
            r == self.fits(),
    {
        let s = self.shape;
        let normed = match &self.ln {
            Some(ln) => ln.check(s.out_ch),
            None => true,
        };
        s.stride > 0 && is_product_of_three(self.w.len(), s.out_ch, s.in_ch, s.k) && self.b.len()
            >= s.out_ch && normed
    }
}

impl<R: Weight> PosEmbed<R> {
    fn check(&self, h: usize) -> (r: bool)
        ensures
            r == self.fits(h as int),
    {
        self.width > 0 && h % self.width == 0 && is_product_of_three(
            self.w.len(),
            h,
            self.width,
            self.k,
        ) && self.b.len() >= h
    }
}

impl<R: Weight> Block<R> {
    fn check(&self, h: usize) -> (r: bool)
        ensures
            r == self.fits(h as int),
    {
        self.ln_attn.check(h) && self.q.check(h, h) && self.k.check(h, h) && self.v.check(h, h)
            && self.out.check(h, h) && self.ln_ff.check(h) && self.ff_inter.check(
            h,
            self.ff_inter.out,
        ) && self.ff_out.check(self.ff_inter.out, h)
    }
}

impl<R: Weight> CpuEngine<R> {
    /// Whether the parts of the network fit together.
    pub fn check(&self) -> (r: bool)
        ensures
            r == self.fits(),
    {
        let h = self.config.hidden_size;
        let mut i: usize = 0;
        while i < self.convs.len()
            invariant
                i <= self.convs@.len(),
                forall|k: int| 0 <= k < i ==> (#[trigger] self.convs@[k]).fits(),
            decreases self.convs@.len() - i,
        {
            if !self.convs[i].check() {
                return false;
            }
            i += 1;
        }
        let mut j: usize = 0;
        while j < self.blocks.len()
            invariant
                j <= self.blocks@.len(),
                h == self.config.hidden_size,
                forall|k: int| 0 <= k < j ==> (#[trigger] self.blocks@[k]).fits(h as int),
            decreases self.blocks@.len() - j,
        {
            if !self.blocks[j].check(h) {
                return false;
            }
            j += 1;
        }
        let c = if self.convs.len() == 0 {
            1
        } else {
            self.convs[self.convs.len() - 1].shape.out_ch
        };
        let heads = match self.n_heads.checked_mul(self.head_dim) {
            Some(n) => n <= h,
            None => false,
        };
        heads && self.feat_ln.check(c) && self.feat.check(c, h) && self.pos.check(h)
            && self.final_ln.check(h) && self.lm_head.check(h, self.lm_head.out)
    }
}

/// Whether a linear layer holds the numbers of the given weights.
pub open spec fn is_dense<R: Weight>(d: Dense<R>, v: LinearView) -> bool {
    &&& d.w@ == numbers_of::<R>(v.w)
    &&& d.b@ == numbers_of::<R>(v.b)
    &&& d.out == v.out
    &&& d.inn == v.inn
}

/// Whether a normalisation holds the numbers of the given weights.
pub open spec fn is_norm<R: Weight>(n: Norm<R>, v: LayerNormView, eps: R) -> bool {
    n.w@ == numbers_of::<R>(v.w) && n.b@ == numbers_of::<R>(v.b) && n.eps == eps
}

/// Whether a convolution holds the numbers of the given weights.
pub open spec fn is_conv<R: Weight>(c: Conv<R>, v: Conv1dLayerView, eps: R) -> bool {
    &&& c.w@ == numbers_of::<R>(v.w)
    &&& c.b@ == numbers_of::<R>(v.b)
    &&& c.shape.out_ch == v.out_ch
    &&& c.shape.in_ch == v.in_ch
    &&& c.shape.k == v.k
    &&& c.shape.stride == v.stride
    &&& match (c.ln, v.ln) {
        (Some(n), Some(nv)) => is_norm(n, nv, eps),
        (None, None) => true,
        _ => false,
    }
}

/// Whether an encoder layer holds the numbers of the given weights.
pub open spec fn is_block<R: Weight>(b: Block<R>, v: EncoderLayerView, eps: R) -> bool {
    &&& is_norm(b.ln_attn, v.ln_attn, eps)
    &&& is_dense(b.q, v.q)
    &&& is_dense(b.k, v.k)
    &&& is_dense(b.v, v.v)
    &&& is_dense(b.out, v.out)
    &&& is_norm(b.ln_ff, v.ln_ff, eps)
    &&& is_dense(b.ff_inter, v.ff_inter)
    &&& is_dense(b.ff_out, v.ff_out)
}

/// Whether a positional convolution holds the weights that the given gains and
/// directions come to.
pub open spec fn is_pos<R: Weight>(p: PosEmbed<R>, v: PosConvView, hidden: int) -> bool {
    let directions = numbers_of::<R>(v.directions);
    let gains = numbers_of::<R>(v.gains);
    let rows = hidden * v.group_width;
    &&& is_matrix(
        p.w@,
        rows,
        v.k,
        |o: int, tap: int| tap_weight(directions, gains, rows, v.k, o, tap),
    )
    &&& p.b@ == numbers_of::<R>(v.bias)
    &&& p.k == v.k
    &&& p.width == v.group_width
}

/// Whether an engine holds the numbers of a checkpoint's weights.
pub open spec fn is_engine<R: Weight>(net: CpuEngine<R>, v: CheckpointView, eps: R) -> bool {
    &&& net.config == v.config
    &&& net.convs@.len() == v.conv_layers.len()
    &&& forall|i: int|
        0 <= i < net.convs@.len() ==> is_conv(#[trigger] net.convs@[i], v.conv_layers[i], eps)
    &&& is_norm(net.feat_ln, v.feat_proj_ln, eps)
    &&& is_dense(net.feat, v.feat_proj)
    &&& is_pos(net.pos, v.pos_conv, v.config.hidden_size as int)
    &&& net.blocks@.len() == v.layers.len()
    &&& forall|i: int|
        0 <= i < net.blocks@.len() ==> is_block(#[trigger] net.blocks@[i], v.layers[i], eps)
    &&& net.n_heads == v.n_heads
    &&& net.head_dim == v.head_dim
    &&& is_norm(net.final_ln, v.encoder_ln, eps)
    &&& is_dense(net.lm_head, v.lm_head)
}

fn dense_from<R: Weight>(part: &Linear) -> (r: Dense<R>)
    ensures
        is_dense(r, part@),
{
    Dense { w: numbers(&part.w), b: numbers(&part.b), out: part.out, inn: part.inn }
}

fn norm_from<R: Weight>(part: &LayerNorm, eps: R) -> (r: Norm<R>)
    ensures
        is_norm(r, part@, eps),
{
    Norm { w: numbers(&part.w), b: numbers(&part.b), eps }
}

fn conv_from<R: Weight>(part: &Conv1dLayer, eps: R) -> (r: Conv<R>)
    ensures
        is_conv(r, part@, eps),
{
    let ln = match &part.ln {
        Some(ln) => Some(norm_from(ln, eps)),
        None => None,
    };
    let shape = ConvShape {
        out_ch: part.out_ch,
        in_ch: part.in_ch,
        k: part.k,
        stride: part.stride,
    };
    Conv { w: numbers(&part.w), b: numbers(&part.b), shape, ln }
}

fn block_from<R: Weight>(part: &EncoderLayer, eps: R) -> (r: Block<R>)
    ensures
        is_block(r, part@, eps),
{
    Block {
        ln_attn: norm_from(&part.ln_attn, eps),
        q: dense_from(&part.q),
        k: dense_from(&part.k),
        v: dense_from(&part.v),
        out: dense_from(&part.out),
        ln_ff: norm_from(&part.ln_ff, eps),
        ff_inter: dense_from(&part.ff_inter),
        ff_out: dense_from(&part.ff_out),
    }
}

fn pos_from<R: Weight>(part: &PosConv, hidden: usize) -> (r: PosEmbed<R>)
    requires
        part@.fits(hidden as int),
    ensures
        is_pos(r, part@, hidden as int),
{
    let directions: Vec<R> = numbers(&part.directions);
    let gains: Vec<R> = numbers(&part.gains);
    let k = part.k;
    let width = part.group_width;
    let ghost size = hidden * width;
    let w = if k == 0 {
        Vec::new()
    } else {
        assert(directions@.len() == directions.len());
        assert(0 <= size <= size * k) by (nonlinear_arith)
            requires
                size == hidden * width,
                0 <= hidden,
                0 <= width,
                1 <= k,
        ;
        weight_norm(directions.as_slice(), gains.as_slice(), hidden * width, k)
    };
    assert(k == 0 ==> size * k == 0) by (nonlinear_arith);
    PosEmbed { w, b: numbers(&part.bias), k, width }
}

impl<R: Weight> CpuEngine<R> {
    /// Turns the weights of a model into numbers.
    pub fn new(model: Checkpoint, eps: R) -> (r: Self)
        requires
            model@.pos_conv.fits(model.config.hidden_size as int),
        ensures
            is_engine(r, model@, eps),
    {
        let mut convs: Vec<Conv<R>> = Vec::new();
        let mut i: usize = 0;
        while i < model.conv_layers.len()
            invariant
                i <= model.conv_layers@.len(),
                convs@.len() == i,
                forall|k: int|
                    0 <= k < i ==> is_conv(#[trigger] convs@[k], model.conv_layers@[k]@, eps),
            decreases model.conv_layers@.len() - i,
        {
            convs.push(conv_from(&model.conv_layers[i], eps));
            i += 1;
        }
        let mut blocks: Vec<Block<R>> = Vec::new();
        let mut j: usize = 0;
        while j < model.layers.len()
            invariant
                j <= model.layers@.len(),
                blocks@.len() == j,
                forall|k: int|
                    0 <= k < j ==> is_block(#[trigger] blocks@[k], model.layers@[k]@, eps),
            decreases model.layers@.len() - j,
        {
            blocks.push(block_from(&model.layers[j], eps));
            j += 1;
        }
        let pos = pos_from(&model.pos_conv, model.config.hidden_size);
        let feat_ln = norm_from(&model.feat_proj_ln, eps);
        let feat = dense_from(&model.feat_proj);
        let final_ln = norm_from(&model.encoder_ln, eps);
        let lm_head = dense_from(&model.lm_head);
        CpuEngine {
            config: model.config,
            convs,
            feat_ln,
            feat,
            pos,
            blocks,
            n_heads: model.n_heads,
            head_dim: model.head_dim,
            final_ln,
            lm_head,
        }
    }

    /// Reads a model from the tensors of a checkpoint.
    pub fn load(tensors: &StringHashMap<RawTensor>, config: ModelConfig, eps: R) -> (r: Result<
        Self,
        LoadError,
    >)
        ensures
            match r {
                Ok(engine) => checkpoint_of(tensors@, config) matches Ok(v) && is_engine(
                    engine,
                    v,
                    eps,
                ),
                Err(e) => checkpoint_of(tensors@, config) == Err::<CheckpointView, LoadErrorView>(
                    e@,
                ),
            },
    {
        match Checkpoint::load(tensors, config) {
            Ok(model) => Ok(CpuEngine::new(model, eps)),
            Err(e) => Err(e),
        }
    }
}

} // verus!
