//! From a waveform to the log-probabilities of each frame.

use vstd::prelude::*;

use crate::cpu_engine::{shapes_of, CpuEngine, Weight};
use crate::kernels::{row_of, stack_after, StackError};
use crate::layout::lemma_matrix_entry;
use crate::rows::{log_softmax_matrix, log_softmax_of, log_softmax_rows_inplace};
use crate::windows::{
    add_star_column, all_kept, cell, columns, cut_windows, is_chunk, join_windows, joined_frames,
    law_joined_frame, law_joined_frames_lose_the_last, law_windows_are_fewest, sample_at, starred,
    windows_for,
};

verus! {

/// Why a waveform gives no emissions.
#[derive(Debug, Clone, Copy, PartialEq, Eq, Structural)]
pub enum EmissionError {
    /// The convolutions refuse the waveform.
    Refused { error: StackError },
    /// The network gives no scores.
    NoFrames,
}

/// What the convolutions make of `samples` samples.
pub open spec fn frames_of<R: Weight>(net: CpuEngine<R>, samples: int) -> Result<
    (int, int),
    StackError,
> {
    stack_after(shapes_of(net.convs@), samples, net.convs@.len() as int)
}

/// Window `w` of a waveform, with its context on both sides.
pub open spec fn chunk_of<R: Weight>(
    waveform: Seq<R>,
    window: int,
    context: int,
    w: int,
) -> Seq<R> {
    Seq::new(
        (window + 2 * context) as nat,
        |j: int| sample_at(waveform, R::zero_of(), w * window - context + j),
    )
}

/// Whether `outs` holds the logits of the windows of a waveform, of `t` frames
/// each.
pub open spec fn are_outs<R: Weight>(
    outs: Seq<(Vec<R>, usize, usize)>,
    net: CpuEngine<R>,
    waveform: Seq<R>,
    window: int,
    context: int,
    t: int,
) -> bool {
    &&& outs.len() == windows_for(waveform.len() as int, window)
    &&& forall|w: int|
        0 <= w < outs.len() ==> {
            &&& (#[trigger] outs[w]).0@ == net.logits(chunk_of(waveform, window, context, w), t)
            &&& outs[w].0@.len() == outs[w].1 * outs[w].2
            &&& outs[w].1 == t
            &&& outs[w].2 == net.lm_head.out
        }
}

/// How a waveform is cut, and how many frames go: those of the context of each
/// window, and those of the silence after the waveform.
#[derive(Debug, Clone, Copy, PartialEq, Eq, Structural)]
pub struct Cutting {
    /// The samples of a window.
    pub window: usize,
    /// The samples of context on each side of a window.
    pub context: usize,
    /// The frames of that context.
    pub context_frames: usize,
    /// The frames of the silence that fills the last window.
    pub extension_frames: usize,
}

/// Whether a waveform can be cut into windows, and each window run, without a
/// length that does not fit a machine word.
pub open spec fn can_cut<R: Weight>(net: CpuEngine<R>, samples: int, cut: Cutting) -> bool {
    &&& cut.window > 0
    &&& samples + cut.window + 2 * cut.context + net.convs@.len() + net.pos.k < usize::MAX
}

/// Whether `r` is what a network makes of a waveform in one pass.
pub open spec fn is_whole<R: Weight>(
    r: Result<(Vec<R>, usize, usize), EmissionError>,
    net: CpuEngine<R>,
    waveform: Seq<R>,
) -> bool {
    match frames_of(net, waveform.len() as int) {
        Err(error) => r == Err::<(Vec<R>, usize, usize), EmissionError>(
            EmissionError::Refused { error },
        ),
        Ok((_, t)) => {
            &&& r matches Ok((logits, frames, vocab))
            &&& frames == t
            &&& vocab == net.lm_head.out
            &&& logits@.len() == frames * vocab
            &&& logits@ == net.logits(waveform, t)
        },
    }
}

/// Whether `r` is what a network makes of a waveform: the logits of the whole,
/// where it is shorter than a window; else those of its windows, joined.
pub open spec fn are_logits<R: Weight>(
    r: Result<(Vec<R>, usize, usize), EmissionError>,
    net: CpuEngine<R>,
    waveform: Seq<R>,
    cut: Cutting,
) -> bool {
    let (window, context) = (cut.window as int, cut.context as int);
    if waveform.len() < window {
        is_whole(r, net, waveform)
    } else {
        match frames_of(net, window + 2 * context) {
            Err(error) => r == Err::<(Vec<R>, usize, usize), EmissionError>(
                EmissionError::Refused { error },
            ),
            Ok((_, t)) => if net.lm_head.out == 0 {
                r == Err::<(Vec<R>, usize, usize), EmissionError>(EmissionError::NoFrames)
            } else {
                exists|outs: Seq<(Vec<R>, usize, usize)>| #[trigger]
                    are_outs(outs, net, waveform, window, context, t) && are_joined(r, outs, cut)
            },
        }
    }
}

/// Whether `r` holds the windows, joined.
pub open spec fn are_joined<R: Weight>(
    r: Result<(Vec<R>, usize, usize), EmissionError>,
    outs: Seq<(Vec<R>, usize, usize)>,
    cut: Cutting,
) -> bool {
    let all = all_kept(outs, cut.context_frames as int, outs.len() as int);
    &&& r matches Ok((logits, frames, vocab))
    &&& vocab == columns(outs)
    &&& frames == joined_frames(all.len() as int, vocab as int, cut.extension_frames as int)
    &&& frames * vocab <= all.len()
    &&& logits@ == all.take(frames * vocab)
}

/// A waveform that is not shorter than a window has one.
proof fn lemma_some_window(samples: int, window: int)
    requires
        0 < window <= samples,
    ensures
        windows_for(samples, window) >= 1,
{
    assert((samples + window - 1) / window >= 1) by (nonlinear_arith)
        requires
            0 < window <= samples,
    ;
}

/// The logits of the windows of a waveform.
fn run_windows<R: Weight>(net: &CpuEngine<R>, waveform: &[R], cut: &Cutting) -> (r: Result<
    Vec<(Vec<R>, usize, usize)>,
    StackError,
>)
    requires
        net.fits(),
        waveform@.len() >= cut.window,
        can_cut(*net, waveform@.len() as int, *cut),
    ensures
        match frames_of(*net, cut.window + 2 * cut.context) {
            Err(e) => r == Err::<Vec<(Vec<R>, usize, usize)>, StackError>(e),
            Ok((_, t)) => r matches Ok(outs) && are_outs(
                outs@,
                *net,
                waveform@,
                cut.window as int,
                cut.context as int,
                t,
            ),
        },
{
    let ghost window = cut.window as int;
    let ghost context = cut.context as int;
    let ghost shape = frames_of(*net, window + 2 * context);
    let chunks = cut_windows(waveform, cut.window, cut.context, R::zero());
    let mut outs: Vec<(Vec<R>, usize, usize)> = Vec::new();
    let mut w: usize = 0;
    proof {
        lemma_some_window(waveform@.len() as int, window);
    }
    while w < chunks.len()
        invariant
            w <= chunks@.len(),
            chunks@.len() == windows_for(waveform@.len() as int, window),
            window == cut.window,
            context == cut.context,
            shape == frames_of(*net, window + 2 * context),
            net.fits(),
            window + 2 * context + net.convs@.len() + net.pos.k < usize::MAX,
            forall|k: int|
                0 <= k < chunks@.len() ==> is_chunk(
                    #[trigger] chunks@[k]@,
                    waveform@,
                    R::zero_of(),
                    window,
                    context,
                    k,
                ),
            outs@.len() == w,
            w > 0 ==> shape is Ok,
            forall|k: int|
                0 <= k < w ==> {
                    &&& (#[trigger] outs@[k]).0@ == net.logits(
                        chunk_of(waveform@, window, context, k),
                        shape->Ok_0.1,
                    )
                    &&& outs@[k].0@.len() == outs@[k].1 * outs@[k].2
                    &&& outs@[k].1 == shape->Ok_0.1
                    &&& outs@[k].2 == net.lm_head.out
                },
        decreases chunks@.len() - w,
    {
        let chunk = &chunks[w];
        proof {
            assert(is_chunk(chunks@[w as int]@, waveform@, R::zero_of(), window, context, w as int));
            assert(chunk@ =~= chunk_of(waveform@, window, context, w as int));
        }
        match net.forward_logits(chunk.as_slice()) {
            Ok(out) => outs.push(out),
            Err(e) => return Err(e),
        }
        w += 1;
    }
    Ok(outs)
}

/// The logits of a waveform: a long one goes through the network in windows of
/// equal length, whose frames are joined again.
pub fn generate_emissions_logits<R: Weight>(net: &CpuEngine<R>, waveform: &[R], cut: &Cutting) -> (r:
    Result<(Vec<R>, usize, usize), EmissionError>)
    requires
        net.fits(),
        waveform@.len() + net.convs@.len() + net.pos.k < usize::MAX,
        waveform@.len() >= cut.window ==> can_cut(*net, waveform@.len() as int, *cut),
    ensures
        are_logits(r, *net, waveform@, *cut),
{
    if waveform.len() < cut.window {
        return match net.forward_logits(waveform) {
            Ok(out) => Ok(out),
            Err(error) => Err(EmissionError::Refused { error }),
        };
    }
    let outs = match run_windows(net, waveform, cut) {
        Ok(outs) => outs,
        Err(error) => return Err(EmissionError::Refused { error }),
    };
    let joined = join_windows(outs.as_slice(), cut.context_frames, cut.extension_frames);
    proof {
        lemma_some_window(waveform@.len() as int, cut.window as int);
        assert(outs@.last().2 == net.lm_head.out);
    }
    match joined {
        Ok(out) => Ok(out),
        Err(_) => Err(EmissionError::NoFrames),
    }
}

/// Whether `r` holds the log-probabilities of the given logits, with a star
/// column of zeros.
pub open spec fn are_emissions<R: Weight>(
    r: Seq<R>,
    logits: Seq<R>,
    t: int,
    c: int,
) -> bool {
    &&& r.len() == t * (c + 1)
    &&& forall|row: int, j: int|
        0 <= row < t && 0 <= j <= c ==> r[#[trigger] cell(row, c + 1, j)] == starred(
            log_softmax_matrix(logits, t, c),
            c,
            R::zero_of(),
            row,
            j,
        )
}

/// Turns logits into log-probabilities and appends the star column, in which
/// the star costs nothing.
pub fn emissions_of<R: Weight>(logits: Vec<R>, t: usize, c: usize) -> (r: Vec<R>)
    requires
        logits@.len() == t * c,
    ensures
        are_emissions(r@, logits@, t as int, c as int),
{
    let mut logits = logits;
    log_softmax_rows_inplace(logits.as_mut_slice(), t, c);
    add_star_column(logits.as_slice(), t, c, R::zero())
}

/// The log-probabilities of each frame of a waveform, with a star column, the
/// number of frames and the number of columns.
pub fn generate_emissions<R: Weight>(net: &CpuEngine<R>, waveform: &[R], cut: &Cutting) -> (r: Result<
    (Vec<R>, usize, usize),
    EmissionError,
>)
    requires
        net.fits(),
        net.lm_head.out < usize::MAX,
        waveform@.len() + net.convs@.len() + net.pos.k < usize::MAX,
        waveform@.len() >= cut.window ==> can_cut(*net, waveform@.len() as int, *cut),
    ensures
        exists|logits: Result<(Vec<R>, usize, usize), EmissionError>| #[trigger]
            are_logits(logits, *net, waveform@, *cut) && match logits {
                Err(e) => r == Err::<(Vec<R>, usize, usize), EmissionError>(e),
                Ok((scores, t, c)) => {
                    &&& r matches Ok((emissions, frames, columns))
                    &&& frames == t
                    &&& columns == c + 1
                    &&& are_emissions(emissions@, scores@, t as int, c as int)
                },
            },
{
    let logits = generate_emissions_logits(net, waveform, cut);
    let ghost all = logits;
    assert(are_logits(all, *net, waveform@, *cut));
    match logits {
        Err(e) => Err(e),
        Ok((scores, t, c)) => {
            proof {
                if waveform@.len() >= cut.window {
                    let outs = choose|outs: Seq<(Vec<R>, usize, usize)>| #[trigger]
                        are_outs(
                            outs,
                            *net,
                            waveform@,
                            cut.window as int,
                            cut.context as int,
                            frames_of(*net, cut.window + 2 * cut.context)->Ok_0.1,
                        ) && are_joined(all, outs, *cut);
                    lemma_some_window(waveform@.len() as int, cut.window as int);
                    assert(outs.last().2 == net.lm_head.out);
                }
                assert(0 <= t * c) by (nonlinear_arith)
                    requires
                        0 <= t,
                        0 <= c,
                ;
            }
            Ok((emissions_of(scores, t, c), t, c + 1))
        },
    }
}

/// A waveform that is shorter than a window goes through the network whole:
/// neither the window nor its context has any influence.
pub proof fn law_short_audio_goes_whole<R: Weight>(
    r: Result<(Vec<R>, usize, usize), EmissionError>,
    net: CpuEngine<R>,
    waveform: Seq<R>,
    cut: Cutting,
    other: Cutting,
)
    requires
        waveform.len() < cut.window,
        waveform.len() < other.window,
    ensures
        are_logits(r, net, waveform, cut) <==> is_whole(r, net, waveform),
        are_logits(r, net, waveform, cut) <==> are_logits(r, net, waveform, other),
{
}

/// Emissions have one row of columns for each frame: the last column is the
/// star's, of zeros, and the others hold the log-softmax of the frame's logits.
pub proof fn law_star_column_is_last<R: Weight>(r: Seq<R>, logits: Seq<R>, t: int, c: int)
    requires
        t >= 0,
        c >= 0,
        are_emissions(r, logits, t, c),
    ensures
        r.len() == t * (c + 1),
        forall|row: int|
            0 <= row < t ==> r[#[trigger] cell(row, c + 1, c)] == R::zero_of(),
        forall|row: int, j: int|
            0 <= row < t && 0 <= j < c ==> r[#[trigger] cell(row, c + 1, j)] == log_softmax_of(
                row_of(logits, row, c),
                j,
            ),
{
    let f = |i: int, j: int| log_softmax_of(row_of(logits, i, c), j);
    assert forall|row: int, j: int| 0 <= row < t && 0 <= j < c implies r[#[trigger] cell(
        row,
        c + 1,
        j,
    )] == log_softmax_of(row_of(logits, row, c), j) by {
        lemma_matrix_entry(t, c, f, row, j);
        assert(cell(row, c, j) == row * c + j);
    }
}

/// Long audio, frame by frame.  The waveform is cut into `n` windows, as few as
/// hold it; each window goes through the network with its context on both sides
/// and keeps `each` frames; frame `p` of the result is frame `p % each` after the
/// context of window `p / each`; and the last frames, which stand for the silence
/// that fills the last window, are left out.
pub proof fn law_long_audio_frame<R: Weight>(
    r: Result<(Vec<R>, usize, usize), EmissionError>,
    net: CpuEngine<R>,
    waveform: Seq<R>,
    cut: Cutting,
    n: int,
    t: int,
    each: int,
    chunk: Seq<R>,
    p: int,
    j: int,
)
    requires
        0 < cut.window <= waveform.len(),
        are_logits(r, net, waveform, cut),
        net.lm_head.out > 0,
        frames_of(net, cut.window + 2 * cut.context) matches Ok((_, frames)) && frames == t,
        (n - 1) * cut.window < waveform.len() <= n * cut.window,
        each > 0,
        each == (if cut.context_frames == 0 {
            t
        } else {
            t - 2 * cut.context_frames + 1
        }),
        0 <= p < n * each - cut.extension_frames,
        0 <= j < net.lm_head.out,
        chunk.len() == cut.window + 2 * cut.context,
        forall|i: int|
            0 <= i < chunk.len() ==> #[trigger] chunk[i] == ({
                let at = p / each * cut.window - cut.context + i;
                if 0 <= at < waveform.len() {
                    waveform[at]
                } else {
                    R::zero_of()
                }
            }),
    ensures
        ({
            let c = net.lm_head.out as int;
            &&& r matches Ok((logits, frames, vocab))
            &&& vocab == c
            &&& frames == n * each - cut.extension_frames
            &&& logits@.len() == frames * c
            &&& 0 <= p * c + j < logits@.len()
            &&& logits@[p * c + j] == net.logits(chunk, t)[(cut.context_frames + p % each) * c + j]
        }),
{
    let (window, context) = (cut.window as int, cut.context as int);
    let ctx = cut.context_frames as int;
    let ext = cut.extension_frames as int;
    let c = net.lm_head.out as int;
    let outs = choose|outs: Seq<(Vec<R>, usize, usize)>| #[trigger]
        are_outs(outs, net, waveform, window, context, t) && are_joined(r, outs, cut);
    law_windows_are_fewest(waveform.len() as int, window);
    let m = windows_for(waveform.len() as int, window);
    assert(m == n) by (nonlinear_arith)
        requires
            (n - 1) * window < waveform.len() <= n * window,
            (m - 1) * window < waveform.len() <= m * window,
            window > 0,
    ;
    lemma_some_window(waveform.len() as int, window);
    assert(outs.last().2 == c);
    assert forall|k: int| 0 <= k < outs.len() implies (#[trigger] outs[k]).0@.len() >= t * c
        && outs[k].1 == t && outs[k].2 == c by {}
    let all = all_kept(outs, ctx, n);
    assert(t >= 0) by {
        assert(outs[0].1 == t);
    }
    law_joined_frame(outs, ctx, n, t, c, each);
    assert((n * each + 1) * c == n * each * c + c) by (nonlinear_arith);
    assert(n * each >= 0);
    law_joined_frames_lose_the_last(all.len() as int, c, ext, n * each);
    let frames = n * each - ext;
    assert(0 <= p * c + j < frames * c) by (nonlinear_arith)
        requires
            0 <= p < frames,
            0 <= j < c,
    ;
    assert(all[cell(p, c, j)] == outs[p / each].0@[(ctx + p % each) * c + j]);
    let w = p / each;
    assert(0 <= w < n) by (nonlinear_arith)
        requires
            w == p / each,
            0 <= p < n * each,
            each > 0,
    ;
    assert(outs[w].0@ == net.logits(chunk_of(waveform, window, context, w), t));
    assert(chunk =~= chunk_of(waveform, window, context, w));
}

/// When long audio gives no frames: the convolutions refuse a window, or the
/// network has no scores to give.
pub proof fn law_long_audio_outcome<R: Weight>(
    r: Result<(Vec<R>, usize, usize), EmissionError>,
    net: CpuEngine<R>,
    waveform: Seq<R>,
    cut: Cutting,
)
    requires
        0 < cut.window <= waveform.len(),
        are_logits(r, net, waveform, cut),
    ensures
        match frames_of(net, cut.window + 2 * cut.context) {
            Err(e) => r == Err::<(Vec<R>, usize, usize), EmissionError>(
                EmissionError::Refused { error: e },
            ),
            Ok(_) => {
                &&& r is Ok <==> net.lm_head.out > 0
                &&& net.lm_head.out == 0 ==> r == Err::<(Vec<R>, usize, usize), EmissionError>(
                    EmissionError::NoFrames,
                )
            },
        },
        frames_of(net, cut.window + 2 * cut.context) == stack_after(
            shapes_of(net.convs@),
            cut.window + 2 * cut.context,
            net.convs@.len() as int,
        ),
{
}

/// A waveform that goes through the network whole gives a frame of scores for
/// each frame of the convolutions, or their refusal.
pub proof fn law_whole_audio_outcome<R: Weight>(
    r: Result<(Vec<R>, usize, usize), EmissionError>,
    net: CpuEngine<R>,
    waveform: Seq<R>,
)
    requires
        is_whole(r, net, waveform),
    ensures
        match stack_after(
            shapes_of(net.convs@),
            waveform.len() as int,
            net.convs@.len() as int,
        ) {
            Err(e) => r == Err::<(Vec<R>, usize, usize), EmissionError>(
                EmissionError::Refused { error: e },
            ),
            Ok((_, t)) => {
                &&& r is Ok
                &&& r->Ok_0.1 == t
                &&& r->Ok_0.2 == net.lm_head.out
                &&& r->Ok_0.0@.len() == t * net.lm_head.out
                &&& forall|p: int|
                    0 <= p < t * net.lm_head.out ==> #[trigger] r->Ok_0.0@[p] == net.logits(
                        waveform,
                        t,
                    )[p]
            },
        },
{
}

} // verus!
