//! The sums of products of the model: convolutions over time and attention.

use vstd::arithmetic::div_mod::lemma_fundamental_div_mod_converse;
use vstd::prelude::*;

use crate::layout::{filled, is_matrix, lemma_fill_step, lemma_filled_is_matrix};
use crate::windows::cell;

verus! {

/// The arithmetic that a sum of products needs of a number.
///
/// A number type names the operations as functions of their operands.  Nothing
/// is said of the order in which terms may be added: sums are taken from the
/// first term to the last.
pub trait Number: Copy {
    spec fn zero_of() -> Self;

    spec fn plus_of(self, rhs: Self) -> Self;

    spec fn times_of(self, rhs: Self) -> Self;

    fn zero() -> (r: Self)
        ensures
            r == Self::zero_of(),
    ;

    fn plus(self, rhs: Self) -> (r: Self)
        ensures
            r == self.plus_of(rhs),
    ;

    fn times(self, rhs: Self) -> (r: Self)
        ensures
            r == self.times_of(rhs),
    ;
}

/// Integers that wrap around.
impl Number for i64 {
    open spec fn zero_of() -> Self {
        0
    }

    open spec fn plus_of(self, rhs: Self) -> Self {
        self.wrapping_add(rhs)
    }

    open spec fn times_of(self, rhs: Self) -> Self {
        self.wrapping_mul(rhs)
    }

    fn zero() -> (r: Self) {
        0
    }

    fn plus(self, rhs: Self) -> (r: Self) {
        self.wrapping_add(rhs)
    }

    fn times(self, rhs: Self) -> (r: Self) {
        self.wrapping_mul(rhs)
    }
}

/// What `start` becomes when the terms are added to it in order.
pub open spec fn sum_from<R: Number>(start: R, terms: Seq<R>) -> R
    decreases terms.len(),
{
    if terms.len() == 0 {
        start
    } else {
        sum_from(start, terms.drop_last()).plus_of(terms.last())
    }
}

/// The sum of one term more.
pub proof fn lemma_sum_step<R: Number>(start: R, terms: Seq<R>, j: int)
    requires
        0 <= j < terms.len(),
    ensures
        sum_from(start, terms.take(j + 1)) == sum_from(start, terms.take(j)).plus_of(terms[j]),
{
    assert(terms.take(j + 1).drop_last() =~= terms.take(j));
}

/// Where entry `j` of row `row` lies among `rows` rows of `c` entries.
pub proof fn lemma_cell_fits(row: int, rows: int, c: int, j: int)
    requires
        0 <= row < rows,
        0 <= j < c,
    ensures
        0 <= row * c <= row * c + j < rows * c,
{
    assert(0 <= row * c <= row * c + j < rows * c) by (nonlinear_arith)
        requires
            0 <= row < rows,
            0 <= j < c,
    ;
}

/// What one output channel of a convolution reads: `k` taps on each of
/// `channels` input channels, `first` being the first of them; the taps move by
/// `stride` from one output to the next.
#[derive(Debug, Clone, Copy, PartialEq, Eq, Structural)]
pub struct Taps {
    pub first: usize,
    pub channels: usize,
    pub k: usize,
    pub stride: usize,
}

/// The products that make up output `at`, channel after channel and tap after
/// tap.  The input holds channels of `len` samples.
pub open spec fn conv_terms<R: Number>(x: Seq<R>, len: int, w: Seq<R>, taps: Taps, at: int) -> Seq<
    R,
> {
    Seq::new(
        (taps.channels * taps.k) as nat,
        |j: int|
            x[cell(taps.first + j / (taps.k as int), len, at * taps.stride + j % (taps.k as int))]
                .times_of(w[j]),
    )
}

/// Whether the taps stay inside an input of `size` samples, in channels of
/// `len`, up to output `at`.
pub open spec fn taps_fit(taps: Taps, size: int, len: int, at: int) -> bool {
    &&& (taps.first + taps.channels) * len <= size
    &&& at * taps.stride + taps.k <= len
}

/// Output `at` of one channel.
fn conv_sum<R: Number>(x: &[R], len: usize, w: &[R], taps: Taps, bias: R, at: usize) -> (r: R)
    requires
        taps_fit(taps, x@.len() as int, len as int, at as int),
        w@.len() == taps.channels * taps.k,
    ensures
        r == sum_from(bias, conv_terms(x@, len as int, w@, taps, at as int)),
{
    let mut acc = bias;
    let ghost terms = conv_terms(x@, len as int, w@, taps, at as int);
    assert(x@.len() == x.len());
    assert(w@.len() == w.len());
    let k = taps.k;
    let mut ic: usize = 0;
    let mut j: usize = 0;
    assert(terms.take(0) =~= Seq::<R>::empty());
    while ic < taps.channels
        invariant
            ic <= taps.channels,
            k == taps.k,
            j == ic * k,
            x@.len() <= usize::MAX,
            w@.len() <= usize::MAX,
            taps_fit(taps, x@.len() as int, len as int, at as int),
            w@.len() == taps.channels * taps.k,
            terms == conv_terms(x@, len as int, w@, taps, at as int),
            acc == sum_from(bias, terms.take(j as int)),
        decreases taps.channels - ic,
    {
        assert((ic + 1) * k == ic * k + k) by (nonlinear_arith);
        assert((ic + 1) * k <= taps.channels * k) by (nonlinear_arith)
            requires
                ic < taps.channels,
                0 <= k,
        ;
        assert(0 <= at * taps.stride) by (nonlinear_arith)
            requires
                0 <= at,
                0 <= taps.stride,
        ;
        assert(0 <= (taps.first + ic) * len <= (taps.first + ic) * len + len <= (taps.first
            + taps.channels) * len) by (nonlinear_arith)
            requires
                0 <= ic < taps.channels,
                0 <= taps.first,
                0 <= len,
        ;
        if k > 0 {
            assert(taps.first + ic <= (taps.first + ic) * len) by (nonlinear_arith)
                requires
                    0 <= ic,
                    0 <= taps.first,
                    1 <= len,
            ;
            let from = (taps.first + ic) * len + at * taps.stride;
            let mut kk: usize = 0;
            while kk < k
                invariant
                    kk <= k,
                    k == taps.k,
                    ic < taps.channels,
                    j == ic * k + kk,
                    ic * k + k <= w@.len(),
                    from == (taps.first + ic) * len + at * taps.stride,
                    from + k <= x@.len(),
                    x@.len() <= usize::MAX,
                    w@.len() <= usize::MAX,
                    w@.len() == taps.channels * taps.k,
                    terms == conv_terms(x@, len as int, w@, taps, at as int),
                    acc == sum_from(bias, terms.take(j as int)),
                decreases k - kk,
            {
                proof {
                    assert(j == ic * k + kk);
                    lemma_fundamental_div_mod_converse(j as int, k as int, ic as int, kk as int);
                    assert(terms[j as int] == x@[from + kk].times_of(w@[j as int]));
                    lemma_sum_step(bias, terms, j as int);
                }
                acc = acc.plus(x[from + kk].times(w[j]));
                kk += 1;
                j += 1;
            }
        }
        ic += 1;
    }
    assert(terms.take(j as int) =~= terms);
    acc
}

/// The first `n` outputs of one channel.
fn conv_channel<R: Number>(x: &[R], len: usize, w: &[R], taps: Taps, bias: R, n: usize) -> (r: Vec<
    R,
>)
    requires
        n > 0 ==> taps_fit(taps, x@.len() as int, len as int, n - 1),
        w@.len() == taps.channels * taps.k,
    ensures
        r@.len() == n,
        forall|at: int|
            0 <= at < n ==> #[trigger] r@[at] == sum_from(
                bias,
                conv_terms(x@, len as int, w@, taps, at),
            ),
{
    let mut r: Vec<R> = Vec::new();
    let mut at: usize = 0;
    while at < n
        invariant
            at <= n,
            n > 0 ==> taps_fit(taps, x@.len() as int, len as int, n - 1),
            w@.len() == taps.channels * taps.k,
            r@.len() == at,
            forall|i: int|
                0 <= i < at ==> #[trigger] r@[i] == sum_from(
                    bias,
                    conv_terms(x@, len as int, w@, taps, i),
                ),
        decreases n - at,
    {
        assert(at * taps.stride <= (n - 1) * taps.stride) by (nonlinear_arith)
            requires
                at <= n - 1,
                0 <= taps.stride,
        ;
        r.push(conv_sum(x, len, w, taps, bias, at));
        at += 1;
    }
    r
}

/// The shape of a convolution.
#[derive(Debug, Clone, Copy, PartialEq, Eq, Structural)]
pub struct ConvShape {
    pub out_ch: usize,
    pub in_ch: usize,
    pub k: usize,
    pub stride: usize,
}

/// Why a convolution refuses its input.
#[derive(Debug, Clone, Copy, PartialEq, Eq, Structural)]
pub enum ConvError {
    /// The input is not `in_ch` channels of `in_len` samples.
    InputSize { len: usize, in_ch: usize, in_len: usize },
    /// The input is shorter than the kernel.
    ShorterThanKernel { in_len: usize, k: usize },
}

/// How many outputs `in_len` samples give.
pub open spec fn out_len(k: int, stride: int, in_len: int) -> int {
    (in_len - k) / stride + 1
}

/// Why a convolution refuses an input of `len` samples, if it does.
pub open spec fn conv_error(shape: ConvShape, len: usize, in_len: usize) -> Option<ConvError> {
    if len != shape.in_ch * in_len {
        Some(ConvError::InputSize { len, in_ch: shape.in_ch, in_len })
    } else if in_len < shape.k {
        Some(ConvError::ShorterThanKernel { in_len, k: shape.k })
    } else {
        None
    }
}

/// The length of the output for an input that is not shorter than the kernel.
pub fn outputs(shape: &ConvShape, in_len: usize) -> (r: usize)
    requires
        shape.stride > 0,
        shape.k <= in_len < usize::MAX,
    ensures
        r == out_len(shape.k as int, shape.stride as int, in_len as int),
{
    assert((in_len - shape.k) / (shape.stride as int) <= in_len - shape.k) by (nonlinear_arith)
        requires
            in_len >= shape.k,
            shape.stride >= 1,
    ;
    (in_len - shape.k) / shape.stride + 1
}

/// The length of a convolution's output.
pub fn conv_out_len(shape: &ConvShape, len: usize, in_len: usize) -> (r: Result<usize, ConvError>)
    requires
        shape.stride > 0,
        in_len < usize::MAX,
    ensures
        match r {
            Ok(n) => conv_error(*shape, len, in_len) is None && n == out_len(
                shape.k as int,
                shape.stride as int,
                in_len as int,
            ),
            Err(e) => conv_error(*shape, len, in_len) == Some(e),
        },
{
    let sized = match shape.in_ch.checked_mul(in_len) {
        Some(n) => len == n,
        None => false,
    };
    if !sized {
        return Err(ConvError::InputSize { len, in_ch: shape.in_ch, in_len });
    }
    if in_len < shape.k {
        return Err(ConvError::ShorterThanKernel { in_len, k: shape.k });
    }
    Ok(outputs(shape, in_len))
}

/// Row `i` of a matrix whose rows have `size` entries.
pub open spec fn row_of<R>(w: Seq<R>, i: int, size: int) -> Seq<R> {
    w.subrange(i * size, i * size + size)
}

/// Channel `oc` of a convolution's output, before it is normalised: the bias of
/// the channel and, added to it in order, the products of the taps.
pub fn conv_row<R: Number>(
    shape: &ConvShape,
    x: &[R],
    in_len: usize,
    w: &[R],
    b: &[R],
    oc: usize,
) -> (r: Vec<R>)
    requires
        shape.stride > 0,
        in_len < usize::MAX,
        x@.len() == shape.in_ch * in_len,
        shape.k <= in_len,
        oc < b@.len(),
        oc * (shape.in_ch * shape.k) + shape.in_ch * shape.k <= w@.len(),
    ensures
        r@.len() == out_len(shape.k as int, shape.stride as int, in_len as int),
        forall|t: int|
            0 <= t < r@.len() ==> #[trigger] r@[t] == sum_from(
                b@[oc as int],
                conv_terms(
                    x@,
                    in_len as int,
                    row_of(w@, oc as int, shape.in_ch * shape.k),
                    Taps { first: 0, channels: shape.in_ch, k: shape.k, stride: shape.stride },
                    t,
                ),
            ),
{
    assert(w@.len() == w.len());
    let q = (in_len - shape.k) / shape.stride;
    proof {
        vstd::arithmetic::div_mod::lemma_fundamental_div_mod(
            in_len - shape.k,
            shape.stride as int,
        );
        assert(q <= in_len - shape.k && q * shape.stride <= in_len - shape.k) by (nonlinear_arith)
            requires
                shape.stride * q + (in_len - shape.k) % (shape.stride as int) == in_len - shape.k,
                0 <= (in_len - shape.k) % (shape.stride as int),
                shape.stride >= 1,
                q >= 0,
        ;
        assert(0 <= oc * (shape.in_ch * shape.k)) by (nonlinear_arith)
            requires
                0 <= oc,
                0 <= shape.in_ch * shape.k,
        ;
        assert(0 <= shape.in_ch * shape.k) by (nonlinear_arith)
            requires
                0 <= shape.in_ch,
                0 <= shape.k,
        ;
    }
    let size = shape.in_ch * shape.k;
    let row = vstd::slice::slice_subrange(w, oc * size, oc * size + size);
    let taps = Taps { first: 0, channels: shape.in_ch, k: shape.k, stride: shape.stride };
    conv_channel(x, in_len, row, taps, b[oc], q + 1)
}

/// Why a stack of convolutions refuses a waveform.
#[derive(Debug, Clone, Copy, PartialEq, Eq, Structural)]
pub enum StackError {
    /// A layer does not take as many channels as the one before it gives.
    ChannelMismatch { layer: usize, got: usize, expected: usize },
    /// What reaches a layer is shorter than its kernel.
    ShorterThanKernel { in_len: usize, k: usize },
}

/// The channels and the length after the first `n` layers; a waveform is one
/// channel.
pub open spec fn stack_after(shapes: Seq<ConvShape>, samples: int, n: int) -> Result<
    (int, int),
    StackError,
>
    decreases n,
{
    if n <= 0 {
        Ok((1int, samples))
    } else {
        match stack_after(shapes, samples, n - 1) {
            Err(e) => Err(e),
            Ok((channels, len)) => {
                let shape = shapes[n - 1];
                if channels != shape.in_ch {
                    Err(
                        StackError::ChannelMismatch {
                            layer: (n - 1) as usize,
                            got: channels as usize,
                            expected: shape.in_ch,
                        },
                    )
                } else if len < shape.k {
                    Err(StackError::ShorterThanKernel { in_len: len as usize, k: shape.k })
                } else {
                    Ok(
                        (
                            shape.out_ch as int,
                            out_len(shape.k as int, shape.stride as int, len),
                        ),
                    )
                }
            },
        }
    }
}

/// An error stays the error of every longer stack.
pub proof fn lemma_stack_fails(shapes: Seq<ConvShape>, samples: int, i: int, n: int)
    requires
        0 <= i <= n,
        stack_after(shapes, samples, i) is Err,
    ensures
        stack_after(shapes, samples, n) == stack_after(shapes, samples, i),
    decreases n,
{
    if i < n {
        lemma_stack_fails(shapes, samples, i, n - 1);
    }
}

/// Two convolutions in a row are as one: of the second's kernel spread over the
/// first's stride, and of the two strides' product.
proof fn lemma_out_len_compose(n: int, k0: int, s0: int, k1: int, s1: int)
    requires
        s0 > 0,
        s1 > 0,
        k1 >= 1,
        n >= k0 + (k1 - 1) * s0,
    ensures
        out_len(k1, s1, out_len(k0, s0, n)) == out_len(k0 + (k1 - 1) * s0, s0 * s1, n),
{
    let m = n - k0 - (k1 - 1) * s0;
    vstd::arithmetic::div_mod::lemma_hoist_over_denominator(n - k0, -(k1 - 1), s0 as nat);
    assert(n - k0 + -(k1 - 1) * s0 == m) by (nonlinear_arith)
        requires
            m == n - k0 - (k1 - 1) * s0,
    ;
    assert((n - k0) / s0 + -(k1 - 1) == m / s0);
    vstd::arithmetic::div_mod::lemma_div_denominator(m, s0, s1);
}

/// The shapes of the model's seven convolutions.
pub open spec fn default_stack() -> Seq<ConvShape> {
    seq![
        ConvShape { out_ch: 512, in_ch: 1, k: 10, stride: 5 },
        ConvShape { out_ch: 512, in_ch: 512, k: 3, stride: 2 },
        ConvShape { out_ch: 512, in_ch: 512, k: 3, stride: 2 },
        ConvShape { out_ch: 512, in_ch: 512, k: 3, stride: 2 },
        ConvShape { out_ch: 512, in_ch: 512, k: 3, stride: 2 },
        ConvShape { out_ch: 512, in_ch: 512, k: 2, stride: 2 },
        ConvShape { out_ch: 512, in_ch: 512, k: 2, stride: 2 },
    ]
}

/// The model gives one frame of 512 features for each 320 samples, the first
/// after 400 samples: a frame is 20 milliseconds.
pub proof fn law_default_stack_frames(samples: int)
    requires
        samples >= 400,
    ensures
        stack_after(default_stack(), samples, 7) == Ok::<(int, int), StackError>(
            (512int, (samples - 400) / 320 + 1),
        ),
{
    let shapes = default_stack();
    assert(stack_after(shapes, samples, 1) == Ok::<(int, int), StackError>(
        (512int, out_len(10, 5, samples)),
    )) by {
        reveal_with_fuel(stack_after, 2);
    }
    lemma_out_len_compose(samples, 10, 5, 3, 2);
    assert(stack_after(shapes, samples, 2) == Ok::<(int, int), StackError>(
        (512int, out_len(20, 10, samples)),
    ));
    lemma_out_len_compose(samples, 20, 10, 3, 2);
    assert(stack_after(shapes, samples, 3) == Ok::<(int, int), StackError>(
        (512int, out_len(40, 20, samples)),
    ));
    lemma_out_len_compose(samples, 40, 20, 3, 2);
    assert(stack_after(shapes, samples, 4) == Ok::<(int, int), StackError>(
        (512int, out_len(80, 40, samples)),
    ));
    lemma_out_len_compose(samples, 80, 40, 3, 2);
    assert(stack_after(shapes, samples, 5) == Ok::<(int, int), StackError>(
        (512int, out_len(160, 80, samples)),
    ));
    lemma_out_len_compose(samples, 160, 80, 2, 2);
    assert(stack_after(shapes, samples, 6) == Ok::<(int, int), StackError>(
        (512int, out_len(240, 160, samples)),
    ));
    lemma_out_len_compose(samples, 240, 160, 2, 2);
}

/// A waveform of fewer than 400 samples is too short for the model.
pub proof fn law_default_stack_too_short(samples: int)
    requires
        0 <= samples < 400,
    ensures
        stack_after(default_stack(), samples, 7) matches Err(e) && e is ShorterThanKernel,
{
    let shapes = default_stack();
    reveal_with_fuel(stack_after, 2);
    if samples < 10 {
        lemma_stack_fails(shapes, samples, 1, 7);
    } else {
        assert(stack_after(shapes, samples, 1) == Ok::<(int, int), StackError>(
            (512int, out_len(10, 5, samples)),
        ));
    }
    if 10 <= samples < 20 {
        lemma_stack_fails(shapes, samples, 2, 7);
    }
    if 20 <= samples {
        lemma_out_len_compose(samples, 10, 5, 3, 2);
        assert(stack_after(shapes, samples, 2) == Ok::<(int, int), StackError>(
            (512int, out_len(20, 10, samples)),
        ));
        if samples < 40 {
            lemma_stack_fails(shapes, samples, 3, 7);
        } else {
            lemma_out_len_compose(samples, 20, 10, 3, 2);
            assert(stack_after(shapes, samples, 3) == Ok::<(int, int), StackError>(
                (512int, out_len(40, 20, samples)),
            ));
            if samples < 80 {
                lemma_stack_fails(shapes, samples, 4, 7);
            } else {
                lemma_out_len_compose(samples, 40, 20, 3, 2);
                assert(stack_after(shapes, samples, 4) == Ok::<(int, int), StackError>(
                    (512int, out_len(80, 40, samples)),
                ));
                if samples < 160 {
                    lemma_stack_fails(shapes, samples, 5, 7);
                } else {
                    lemma_out_len_compose(samples, 80, 40, 3, 2);
                    assert(stack_after(shapes, samples, 5) == Ok::<(int, int), StackError>(
                        (512int, out_len(160, 80, samples)),
                    ));
                    if samples < 240 {
                        lemma_stack_fails(shapes, samples, 6, 7);
                    } else {
                        lemma_out_len_compose(samples, 160, 80, 2, 2);
                        assert(stack_after(shapes, samples, 6) == Ok::<(int, int), StackError>(
                            (512int, out_len(240, 160, samples)),
                        ));
                    }
                }
            }
        }
    }
}

/// How many frames a positional convolution gives: the channels are padded by
/// half a kernel on both sides, and an even kernel loses the last frame.
pub open spec fn pos_frames(t: int, k: int) -> int {
    t + 2 * (k / 2) - k + 1 - (if k % 2 == 0 {
        1int
    } else {
        0
    })
}

/// A positional convolution keeps the number of frames.
pub proof fn law_pos_conv_keeps_frames(t: int, k: int)
    requires
        k >= 0,
    ensures
        pos_frames(t, k) == t,
{
}

/// Channel `oc` of a grouped convolution over padded channels, before its
/// activation: a channel reads the `width` channels of its own group.
pub fn pos_conv_row<R: Number>(
    x: &[R],
    t_pad: usize,
    w: &[R],
    b: &[R],
    width: usize,
    k: usize,
    oc: usize,
    t: usize,
) -> (r: Vec<R>)
    requires
        width > 0,
        (oc / width * width + width) * t_pad <= x@.len(),
        t + k <= t_pad + 1,
        oc < b@.len(),
        oc * (width * k) + width * k <= w@.len(),
        oc / width * width + width <= usize::MAX,
    ensures
        r@.len() == t,
        forall|i: int|
            0 <= i < t ==> #[trigger] r@[i] == sum_from(
                b@[oc as int],
                conv_terms(
                    x@,
                    t_pad as int,
                    row_of(w@, oc as int, width * k),
                    Taps { first: (oc / width * width) as usize, channels: width, k, stride: 1 },
                    i,
                ),
            ),
{
    assert(w@.len() == w.len());
    proof {
        assert(0 <= width * k) by (nonlinear_arith)
            requires
                0 <= width,
                0 <= k,
        ;
        assert(0 <= oc * (width * k)) by (nonlinear_arith)
            requires
                0 <= oc,
                0 <= width * k,
        ;
        assert(0 <= oc / width * width) by (nonlinear_arith)
            requires
                0 <= oc / width,
                0 <= width,
        ;
    }
    let size = width * k;
    let row = vstd::slice::slice_subrange(w, oc * size, oc * size + size);
    let taps = Taps { first: oc / width * width, channels: width, k, stride: 1 };
    conv_channel(x, t_pad, row, taps, b[oc], t)
}

/// The products of row `i` of `a` and row `j` of `b`, rows of `n` entries.
pub open spec fn dot_terms<R: Number>(a: Seq<R>, b: Seq<R>, n: int, i: int, j: int) -> Seq<R> {
    Seq::new(n as nat, |d: int| a[cell(i, n, d)].times_of(b[cell(j, n, d)]))
}

/// How much frame `i` attends to frame `j`: the product of the query and the
/// key, scaled.
pub open spec fn attention_score<R: Number>(
    q: Seq<R>,
    k: Seq<R>,
    head_dim: int,
    scale: R,
    i: int,
    j: int,
) -> R {
    sum_from(R::zero_of(), dot_terms(q, k, head_dim, i, j)).times_of(scale)
}

/// The product of row `i` of `a` and row `j` of `b`.
pub fn dot<R: Number>(
    a: &[R],
    b: &[R],
    a_rows: usize,
    b_rows: usize,
    n: usize,
    i: usize,
    j: usize,
) -> (r: R)
    requires
        a@.len() == a_rows * n,
        b@.len() == b_rows * n,
        i < a_rows,
        j < b_rows,
    ensures
        r == sum_from(R::zero_of(), dot_terms(a@, b@, n as int, i as int, j as int)),
{
    let ghost terms = dot_terms(a@, b@, n as int, i as int, j as int);
    let mut acc = R::zero();
    assert(a@.len() == a.len());
    assert(b@.len() == b.len());
    assert(terms.take(0) =~= Seq::<R>::empty());
    let mut d: usize = 0;
    while d < n
        invariant
            d <= n,
            i < a_rows,
            j < b_rows,
            a@.len() == a_rows * n,
            b@.len() == b_rows * n,
            a@.len() <= usize::MAX,
            b@.len() <= usize::MAX,
            terms == dot_terms(a@, b@, n as int, i as int, j as int),
            acc == sum_from(R::zero_of(), terms.take(d as int)),
        decreases n - d,
    {
        proof {
            lemma_cell_fits(i as int, a_rows as int, n as int, d as int);
            lemma_cell_fits(j as int, b_rows as int, n as int, d as int);
            lemma_sum_step(R::zero_of(), terms, d as int);
        }
        acc = acc.plus(a[i * n + d].times(b[j * n + d]));
        d += 1;
    }
    assert(terms.take(d as int) =~= terms);
    acc
}

/// The scores of one head, before they are normalised: how much each frame
/// attends to each frame.
pub fn head_scores<R: Number>(q: &[R], k: &[R], t: usize, head_dim: usize, scale: R) -> (r: Vec<R>)
    requires
        q@.len() == t * head_dim,
        k@.len() == t * head_dim,
    ensures
        is_matrix(
            r@,
            t as int,
            t as int,
            |i: int, j: int| attention_score(q@, k@, head_dim as int, scale, i, j),
        ),
{
    let ghost f = |i: int, j: int| attention_score(q@, k@, head_dim as int, scale, i, j);
    let mut r: Vec<R> = Vec::new();
    let mut i: usize = 0;
    while i < t
        invariant
            i <= t,
            q@.len() == t * head_dim,
            k@.len() == t * head_dim,
            f == (|i: int, j: int| attention_score(q@, k@, head_dim as int, scale, i, j)),
            r@.len() == i * t,
            filled(r@, t as int, f),
        decreases t - i,
    {
        let mut j: usize = 0;
        while j < t
            invariant
                j <= t,
                i < t,
                q@.len() == t * head_dim,
                k@.len() == t * head_dim,
                f == (|i: int, j: int| attention_score(q@, k@, head_dim as int, scale, i, j)),
                r@.len() == i * t + j,
                filled(r@, t as int, f),
            decreases t - j,
        {
            proof {
                lemma_fill_step(r@, t as int, f, i as int, j as int);
            }
            r.push(dot(q, k, t, t, head_dim, i, j).times(scale));
            j += 1;
        }
        assert((i + 1) * t == i * t + t) by (nonlinear_arith);
        i += 1;
    }
    proof {
        lemma_filled_is_matrix(r@, t as int, t as int, f);
    }
    r
}

/// The products that make up entry `d` of frame `i`: the weight of each frame
/// and that frame's value.
pub open spec fn context_terms<R: Number>(
    weights: Seq<R>,
    v: Seq<R>,
    t: int,
    head_dim: int,
    i: int,
    d: int,
) -> Seq<R> {
    Seq::new(t as nat, |j: int| weights[cell(i, t, j)].times_of(v[cell(j, head_dim, d)]))
}

/// One entry of a head's output.
fn weighted_value<R: Number>(
    weights: &[R],
    v: &[R],
    t: usize,
    head_dim: usize,
    i: usize,
    d: usize,
) -> (r: R)
    requires
        weights@.len() == t * t,
        v@.len() == t * head_dim,
        i < t,
        d < head_dim,
    ensures
        r == sum_from(
            R::zero_of(),
            context_terms(weights@, v@, t as int, head_dim as int, i as int, d as int),
        ),
{
    let ghost terms = context_terms(
        weights@,
        v@,
        t as int,
        head_dim as int,
        i as int,
        d as int,
    );
    let mut acc = R::zero();
    assert(weights@.len() == weights.len());
    assert(v@.len() == v.len());
    assert(terms.take(0) =~= Seq::<R>::empty());
    let mut j: usize = 0;
    while j < t
        invariant
            j <= t,
            i < t,
            d < head_dim,
            weights@.len() == t * t,
            v@.len() == t * head_dim,
            weights@.len() <= usize::MAX,
            v@.len() <= usize::MAX,
            terms == context_terms(
                weights@,
                v@,
                t as int,
                head_dim as int,
                i as int,
                d as int,
            ),
            acc == sum_from(R::zero_of(), terms.take(j as int)),
        decreases t - j,
    {
        proof {
            lemma_cell_fits(i as int, t as int, t as int, j as int);
            lemma_cell_fits(j as int, t as int, head_dim as int, d as int);
            lemma_sum_step(R::zero_of(), terms, j as int);
        }
        acc = acc.plus(weights[i * t + j].times(v[j * head_dim + d]));
        j += 1;
    }
    assert(terms.take(j as int) =~= terms);
    acc
}

/// The output of one head: for each frame, the values of all frames by weight.
pub fn head_context<R: Number>(weights: &[R], v: &[R], t: usize, head_dim: usize) -> (r: Vec<R>)
    requires
        weights@.len() == t * t,
        v@.len() == t * head_dim,
    ensures
        is_matrix(
            r@,
            t as int,
            head_dim as int,
            |i: int, d: int|
                sum_from(
                    R::zero_of(),
                    context_terms(weights@, v@, t as int, head_dim as int, i, d),
                ),
        ),
{
    let ghost f = |i: int, d: int|
        sum_from(R::zero_of(), context_terms(weights@, v@, t as int, head_dim as int, i, d));
    let mut r: Vec<R> = Vec::new();
    let mut i: usize = 0;
    while i < t
        invariant
            i <= t,
            weights@.len() == t * t,
            v@.len() == t * head_dim,
            f == (|i: int, d: int|
                sum_from(
                    R::zero_of(),
                    context_terms(weights@, v@, t as int, head_dim as int, i, d),
                )),
            r@.len() == i * head_dim,
            filled(r@, head_dim as int, f),
        decreases t - i,
    {
        let mut d: usize = 0;
        while d < head_dim
            invariant
                d <= head_dim,
                i < t,
                weights@.len() == t * t,
                v@.len() == t * head_dim,
                f == (|i: int, d: int|
                    sum_from(
                        R::zero_of(),
                        context_terms(weights@, v@, t as int, head_dim as int, i, d),
                    )),
                r@.len() == i * head_dim + d,
                filled(r@, head_dim as int, f),
            decreases head_dim - d,
        {
            proof {
                lemma_fill_step(r@, head_dim as int, f, i as int, d as int);
            }
            r.push(weighted_value(weights, v, t, head_dim, i, d));
            d += 1;
        }
        assert((i + 1) * head_dim == i * head_dim + head_dim) by (nonlinear_arith);
        i += 1;
    }
    proof {
        lemma_filled_is_matrix(r@, t as int, head_dim as int, f);
    }
    r
}

/// Adds two rows of numbers, entry by entry.
pub fn add_rows<R: Number>(x: &[R], y: &[R]) -> (r: Vec<R>)
    requires
        x@.len() <= y@.len(),
    ensures
        r@ == Seq::new(x@.len(), |i: int| x@[i].plus_of(y@[i])),
{
    let mut r: Vec<R> = Vec::new();
    let mut i: usize = 0;
    while i < x.len()
        invariant
            i <= x@.len() <= y@.len(),
            r@.len() == i,
            forall|k: int| 0 <= k < i ==> #[trigger] r@[k] == x@[k].plus_of(y@[k]),
        decreases x@.len() - i,
    {
        r.push(x[i].plus(y[i]));
        i += 1;
    }
    assert(r@ =~= Seq::new(x@.len(), |i: int| x@[i].plus_of(y@[i])));
    r
}

/// Adds a bias to each row of a matrix.
pub fn add_bias<R: Number>(m: &[R], rows: usize, cols: usize, b: &[R]) -> (r: Vec<R>)
    requires
        m@.len() == rows * cols,
        b@.len() >= cols,
    ensures
        is_matrix(
            r@,
            rows as int,
            cols as int,
            |i: int, j: int| m@[cell(i, cols as int, j)].plus_of(b@[j]),
        ),
{
    let ghost f = |i: int, j: int| m@[cell(i, cols as int, j)].plus_of(b@[j]);
    let mut r: Vec<R> = Vec::new();
    let mut i: usize = 0;
    assert(m@.len() == m.len());
    while i < rows
        invariant
            i <= rows,
            m@.len() == rows * cols,
            m@.len() <= usize::MAX,
            b@.len() >= cols,
            f == (|i: int, j: int| m@[cell(i, cols as int, j)].plus_of(b@[j])),
            r@.len() == i * cols,
            filled(r@, cols as int, f),
        decreases rows - i,
    {
        let mut j: usize = 0;
        while j < cols
            invariant
                j <= cols,
                i < rows,
                m@.len() == rows * cols,
                m@.len() <= usize::MAX,
                b@.len() >= cols,
                f == (|i: int, j: int| m@[cell(i, cols as int, j)].plus_of(b@[j])),
                r@.len() == i * cols + j,
                filled(r@, cols as int, f),
            decreases cols - j,
        {
            proof {
                lemma_cell_fits(i as int, rows as int, cols as int, j as int);
                lemma_fill_step(r@, cols as int, f, i as int, j as int);
            }
            r.push(m[i * cols + j].plus(b[j]));
            j += 1;
        }
        assert((i + 1) * cols == i * cols + cols) by (nonlinear_arith);
        i += 1;
    }
    proof {
        lemma_filled_is_matrix(r@, rows as int, cols as int, f);
    }
    r
}

} // verus!
