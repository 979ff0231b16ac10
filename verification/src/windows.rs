//! Long audio in windows: cutting the waveform, joining the frames.

use vstd::arithmetic::div_mod::lemma_fundamental_div_mod;
use vstd::prelude::*;

verus! {

/// How a waveform of `n` samples is cut into windows.
#[derive(Debug, Clone, Copy, PartialEq, Eq, Structural)]
pub struct WindowPlan {
    /// The number of windows.
    pub n_windows: usize,
    /// By how many samples the last window reaches past the waveform.
    pub extension: usize,
    /// The length of a window with its context on both sides.
    pub chunk_len: usize,
}

/// The least number of windows that hold `n` samples.
pub open spec fn windows_for(n: int, window: int) -> int {
    (n + window - 1) / window
}

/// Plans the windows of a waveform.
pub fn plan_windows(n: usize, window: usize, context: usize) -> (plan: WindowPlan)
    requires
        window > 0,
        n + window <= usize::MAX,
        window + 2 * context <= usize::MAX,
    ensures
        plan.n_windows == windows_for(n as int, window as int),
        plan.extension == plan.n_windows * window - n,
        plan.extension < window,
        plan.chunk_len == window + 2 * context,
{
    let n_windows = (n + (window - 1)) / window;
    proof {
        let m = n + window - 1;
        lemma_fundamental_div_mod(m, window as int);
        assert(window * n_windows == n_windows * window) by (nonlinear_arith);
        assert(n <= n_windows * window < n + window);
    }
    WindowPlan { n_windows, extension: n_windows * window - n, chunk_len: window + 2 * context }
}

/// Plans how a waveform goes through the model: one that is shorter than a
/// window goes whole.
pub fn plan_emissions(n: usize, window: usize, context: usize) -> (r: Option<WindowPlan>)
    requires
        n >= window ==> window > 0 && n + window <= usize::MAX && window + 2 * context
            <= usize::MAX,
    ensures
        match r {
            None => n < window,
            Some(plan) => {
                &&& n >= window
                &&& plan.n_windows == windows_for(n as int, window as int)
                &&& plan.extension == plan.n_windows * window - n
                &&& plan.chunk_len == window + 2 * context
            },
        },
{
    if n < window {
        None
    } else {
        Some(plan_windows(n, window, context))
    }
}

/// Sample `p` of a waveform, silent before its start and after its end.
pub open spec fn sample_at<T>(waveform: Seq<T>, silence: T, p: int) -> T {
    if 0 <= p < waveform.len() {
        waveform[p]
    } else {
        silence
    }
}

/// Whether `chunk` is window `w` of the waveform, with its context on both
/// sides.
pub open spec fn is_chunk<T>(
    chunk: Seq<T>,
    waveform: Seq<T>,
    silence: T,
    window: int,
    context: int,
    w: int,
) -> bool {
    &&& chunk.len() == window + 2 * context
    &&& forall|j: int|
        0 <= j < chunk.len() ==> #[trigger] chunk[j] == sample_at(
            waveform,
            silence,
            w * window - context + j,
        )
}

/// Cuts a waveform into windows of equal length, with context on both sides;
/// silence stands for what lies outside the waveform.
pub fn cut_windows<T: Copy>(waveform: &[T], window: usize, context: usize, silence: T) -> (r: Vec<
    Vec<T>,
>)
    requires
        window > 0,
        waveform@.len() + window + 2 * context <= usize::MAX,
    ensures
        r@.len() == windows_for(waveform@.len() as int, window as int),
        forall|w: int|
            0 <= w < r@.len() ==> is_chunk(
                #[trigger] r@[w]@,
                waveform@,
                silence,
                window as int,
                context as int,
                w,
            ),
{
    let n = waveform.len();
    let plan = plan_windows(n, window, context);
    let mut chunks: Vec<Vec<T>> = Vec::new();
    let mut w: usize = 0;
    let mut at: usize = 0;
    while w < plan.n_windows
        invariant
            w <= plan.n_windows,
            n == waveform@.len(),
            window > 0,
            n + window + 2 * context <= usize::MAX,
            plan.n_windows * window < n + window,
            at == w * window,
            at < n + window,
            plan.chunk_len == window + 2 * context,
            chunks@.len() == w,
            forall|k: int|
                0 <= k < w ==> is_chunk(
                    #[trigger] chunks@[k]@,
                    waveform@,
                    silence,
                    window as int,
                    context as int,
                    k,
                ),
        decreases plan.n_windows - w,
    {
        proof {
            assert((w + 1) * window <= plan.n_windows * window) by (nonlinear_arith)
                requires
                    w < plan.n_windows,
            ;
            assert((w + 1) * window == w * window + window) by (nonlinear_arith);
        }
        let mut chunk: Vec<T> = Vec::new();
        let mut j: usize = 0;
        while j < plan.chunk_len
            invariant
                j <= plan.chunk_len,
                n == waveform@.len(),
                n + window + 2 * context <= usize::MAX,
                at == w * window,
                at + window < n + window,
                plan.chunk_len == window + 2 * context,
                chunk@.len() == j,
                forall|k: int|
                    0 <= k < j ==> #[trigger] chunk@[k] == sample_at(
                        waveform@,
                        silence,
                        w * window - context + k,
                    ),
            decreases plan.chunk_len - j,
        {
            if at + j >= context && at + j - context < n {
                chunk.push(waveform[at + j - context]);
            } else {
                chunk.push(silence);
            }
            j += 1;
        }
        chunks.push(chunk);
        w += 1;
        at += window;
    }
    chunks
}

/// Whether sample `p` lies in window `w`, its context left out.
pub open spec fn in_window(p: int, window: int, w: int) -> bool {
    w * window <= p < (w + 1) * window
}

/// Each sample of the waveform stands in the middle part of exactly one
/// window.
pub proof fn law_windows_tile<T>(
    chunks: Seq<Vec<T>>,
    waveform: Seq<T>,
    silence: T,
    window: int,
    context: int,
    p: int,
)
    requires
        window > 0,
        context >= 0,
        chunks.len() == windows_for(waveform.len() as int, window),
        forall|w: int|
            0 <= w < chunks.len() ==> is_chunk(
                #[trigger] chunks[w]@,
                waveform,
                silence,
                window,
                context,
                w,
            ),
        0 <= p < waveform.len(),
    ensures
        0 <= p / window < chunks.len(),
        0 <= p % window < window,
        chunks[p / window]@[context + p % window] == waveform[p],
        forall|w: int| #[trigger] in_window(p, window, w) <==> w == p / window,
{
    let n = waveform.len() as int;
    let m = n + window - 1;
    let k = p / window;
    lemma_fundamental_div_mod(m, window);
    lemma_fundamental_div_mod(p, window);
    let total = m / window;
    assert(k >= 0) by (nonlinear_arith)
        requires
            k == p / window,
            p >= 0,
            window > 0,
    ;
    assert(k < total) by (nonlinear_arith)
        requires
            window * k + p % window == p,
            0 <= p % window,
            p < n,
            window * total + m % window == m,
            0 <= m % window < window,
            m == n + window - 1,
            window > 0,
    ;
    let chunk = chunks[k]@;
    assert(is_chunk(chunks[k]@, waveform, silence, window, context, k));
    assert(k * window == window * k) by (nonlinear_arith);
    assert(chunk[context + p % window] == sample_at(
        waveform,
        silence,
        k * window - context + (context + p % window),
    ));
    assert forall|w: int| #[trigger] in_window(p, window, w) <==> w == p / window by {
        assert((w + 1) * window == w * window + window) by (nonlinear_arith);
        if in_window(p, window, w) {
            assert(w == k) by (nonlinear_arith)
                requires
                    w * window <= p < w * window + window,
                    window * k + p % window == p,
                    0 <= p % window < window,
                    window > 0,
            ;
        }
        if w == k {
            assert(in_window(p, window, w));
        }
    }
}

/// The first frame of a window of `t` frames that is kept: its context of
/// `ctx` frames goes.
pub open spec fn kept_from(t: int, ctx: int) -> int {
    if ctx < t {
        ctx
    } else {
        t
    }
}

/// The first frame that is not kept: the context after the window goes, but
/// for one frame.
pub open spec fn kept_to(t: int, ctx: int) -> int {
    if t > ctx && ctx > 0 {
        t - ctx + 1
    } else {
        t
    }
}

/// The scores of the frames of one window that are kept.
pub open spec fn kept<T>(out: (Vec<T>, usize, usize), ctx: int) -> Seq<T> {
    if kept_from(out.1 as int, ctx) < kept_to(out.1 as int, ctx) {
        out.0@.subrange(
            kept_from(out.1 as int, ctx) * out.2,
            kept_to(out.1 as int, ctx) * out.2,
        )
    } else {
        Seq::empty()
    }
}

/// The scores of the kept frames of the first `n` windows, in order.
pub open spec fn all_kept<T>(outs: Seq<(Vec<T>, usize, usize)>, ctx: int, n: int) -> Seq<T>
    decreases n,
{
    if n <= 0 {
        Seq::empty()
    } else {
        all_kept(outs, ctx, n - 1) + kept(outs[n - 1], ctx)
    }
}

/// The number of scores per frame: that of the last window.
pub open spec fn columns<T>(outs: Seq<(Vec<T>, usize, usize)>) -> int {
    if outs.len() == 0 {
        0
    } else {
        outs.last().2 as int
    }
}

/// How many frames the joined windows have, `ext` frames at the end left out.
pub open spec fn joined_frames(len: int, c: int, ext: int) -> int {
    if len / c > ext {
        len / c - ext
    } else {
        0
    }
}

/// Whether each window has `t` frames of `c` scores, and keeps `each` of its
/// frames.
pub open spec fn same_windows<T>(
    outs: Seq<(Vec<T>, usize, usize)>,
    t: int,
    c: int,
    ctx: int,
    each: int,
) -> bool {
    &&& forall|w: int|
        0 <= w < outs.len() ==> (#[trigger] outs[w]).0@.len() >= t * c && outs[w].1 == t
            && outs[w].2 == c
    &&& t >= 0
    &&& each > 0
    &&& each == (if ctx == 0 {
        t
    } else {
        t - 2 * ctx + 1
    })
}

/// No window produced a frame.
#[derive(Debug, Clone, Copy, PartialEq, Eq, Structural)]
pub struct NoFramesProduced;

/// Joins the frames of windows: the context of each goes, and the frames that
/// come from the silence after the waveform go.
///
/// Each window gives its scores, row by row, its number of frames, and the
/// number of scores per frame.
pub fn join_windows<T: Copy>(
    outs: &[(Vec<T>, usize, usize)],
    ctx_frames: usize,
    ext_frames: usize,
) -> (r: Result<(Vec<T>, usize, usize), NoFramesProduced>)
    requires
        forall|w: int|
            0 <= w < outs@.len() ==> (#[trigger] outs@[w]).0@.len() >= outs@[w].1 * outs@[w].2,
    ensures
        match r {
            Ok((scores, t, c)) => {
                let all = all_kept(outs@, ctx_frames as int, outs@.len() as int);
                &&& c == columns(outs@)
                &&& c > 0
                &&& t == joined_frames(all.len() as int, c as int, ext_frames as int)
                &&& t * c <= all.len()
                &&& scores@ == all.take(t * c)
            },
            Err(_) => columns(outs@) == 0,
        },
        forall|frames: int, each: int|
            #![trigger same_windows(outs@, frames, r->Ok_0.2 as int, ctx_frames as int, each)]
            r is Ok && same_windows(
                outs@,
                frames,
                r->Ok_0.2 as int,
                ctx_frames as int,
                each,
            ) ==> {
                let (scores, t, c) = r->Ok_0;
                &&& t == (if outs@.len() * each > ext_frames {
                    outs@.len() * each - ext_frames
                } else {
                    0
                })
                &&& scores@.len() == t * c
                &&& forall|p: int, j: int|
                    0 <= p < t && 0 <= j < c ==> scores@[#[trigger] cell(p, c as int, j)]
                        == outs@[p / each].0@[(ctx_frames + p % each) * c + j]
            },
{
    let mut all: Vec<T> = Vec::new();
    let mut c: usize = 0;
    let mut w: usize = 0;
    while w < outs.len()
        invariant
            w <= outs@.len(),
            forall|k: int|
                0 <= k < outs@.len() ==> (#[trigger] outs@[k]).0@.len() >= outs@[k].1 * outs@[k].2,
            all@ == all_kept(outs@, ctx_frames as int, w as int),
            c == columns(outs@.take(w as int)),
        decreases outs@.len() - w,
    {
        let logits = &outs[w].0;
        let t = outs[w].1;
        c = outs[w].2;
        let from = if ctx_frames < t {
            ctx_frames
        } else {
            t
        };
        let to = if t > ctx_frames && ctx_frames > 0 {
            t - ctx_frames + 1
        } else {
            t
        };
        let ghost before = all@;
        if from < to {
            proof {
                assert(outs@[w as int].0@.len() >= t * c);
                assert(0 <= from * c <= to * c <= t * c) by (nonlinear_arith)
                    requires
                        0 <= from < to <= t,
                        0 <= c,
                ;
                assert(logits@.len() == logits.len());
            }
            let end = to * c;
            let mut i: usize = from * c;
            while i < end
                invariant
                    from * c <= i <= end,
                    end == to * c,
                    end <= logits@.len(),
                    all@ == before + logits@.subrange(from * c, i as int),
                decreases end - i,
            {
                all.push(logits[i]);
                i += 1;
                assert(all@ =~= before + logits@.subrange(from * c, i as int));
            }
        }
        assert(all@ =~= before + kept(outs@[w as int], ctx_frames as int));
        w += 1;
        assert(outs@.take(w as int).last() == outs@[w - 1]);
    }
    assert(outs@.take(w as int) =~= outs@);
    if c == 0 {
        return Err(NoFramesProduced);
    }
    let total = all.len() / c;
    let keep = if total > ext_frames {
        total - ext_frames
    } else {
        0
    };
    proof {
        lemma_fundamental_div_mod(all@.len() as int, c as int);
        assert(0 <= keep * c <= c * total) by (nonlinear_arith)
            requires
                0 <= keep <= total,
                0 < c,
        ;
    }
    let ghost joined = all@;
    all.truncate(keep * c);
    proof {
        let n = outs@.len() as int;
        let ctx = ctx_frames as int;
        assert forall|frames: int, each: int|
            #![trigger same_windows(outs@, frames, c as int, ctx, each)]
            same_windows(outs@, frames, c as int, ctx, each) implies {
            &&& keep == (if n * each > ext_frames {
                n * each - ext_frames
            } else {
                0
            })
            &&& all@.len() == keep * c
            &&& forall|p: int, j: int|
                0 <= p < keep && 0 <= j < c ==> all@[#[trigger] cell(p, c as int, j)]
                    == outs@[p / each].0@[(ctx + p % each) * c + j]
        } by {
            law_joined_frame(outs@, ctx, n, frames, c as int, each);
            assert((n * each + 1) * c == n * each * c + c) by (nonlinear_arith);
            assert(n * each >= 0) by (nonlinear_arith)
                requires
                    n >= 0,
                    each > 0,
            ;
            law_joined_frames_lose_the_last(
                joined.len() as int,
                c as int,
                ext_frames as int,
                n * each,
            );
            assert forall|p: int, j: int| 0 <= p < keep && 0 <= j < c implies all@[#[trigger] cell(
                p,
                c as int,
                j,
            )] == outs@[p / each].0@[(ctx + p % each) * c + j] by {
                assert(0 <= p * c + j < keep * c) by (nonlinear_arith)
                    requires
                        0 <= p < keep,
                        0 <= j < c,
                ;
                assert(all@[cell(p, c as int, j)] == joined[cell(p, c as int, j)]);
            }
        }
    }
    Ok((all, keep, c))
}

/// Score `j` of frame `row`, with a star column of `star` after the others.
pub open spec fn starred<T>(scores: Seq<T>, c: int, star: T, row: int, j: int) -> T {
    if j < c {
        scores[row * c + j]
    } else {
        star
    }
}

/// Appends a star column to a `(t, c)` matrix of scores.
pub fn add_star_column<T: Copy>(scores: &[T], t: usize, c: usize, star: T) -> (r: Vec<T>)
    requires
        scores@.len() == t * c,
    ensures
        r@.len() == t * (c + 1),
        forall|row: int, j: int|
            0 <= row < t && 0 <= j <= c ==> r@[#[trigger] cell(row, c + 1, j)] == starred(
                scores@,
                c as int,
                star,
                row,
                j,
            ),
{
    let mut r: Vec<T> = Vec::new();
    let mut row: usize = 0;
    let mut src: usize = 0;
    while row < t
        invariant
            row <= t,
            src == row * c,
            scores@.len() == t * c,
            r@.len() == row * (c + 1),
            forall|a: int, j: int|
                0 <= a < row && 0 <= j <= c ==> r@[#[trigger] cell(a, c + 1, j)] == starred(
                    scores@,
                    c as int,
                    star,
                    a,
                    j,
                ),
        decreases t - row,
    {
        let ghost r0 = r@;
        proof {
            assert((row + 1) * (c + 1) == row * (c + 1) + c + 1) by (nonlinear_arith);
            assert((row + 1) * c == row * c + c) by (nonlinear_arith);
            assert((row + 1) * c <= t * c) by (nonlinear_arith)
                requires
                    row < t,
                    0 <= c,
            ;
            assert(scores@.len() == scores.len());
        }
        let mut j: usize = 0;
        while j < c
            invariant
                j <= c,
                src == row * c,
                src + c <= scores@.len(),
                scores@.len() <= usize::MAX,
                r@.len() == r0.len() + j,
                forall|k: int| 0 <= k < r0.len() ==> #[trigger] r@[k] == r0[k],
                forall|k: int|
                    0 <= k < j ==> r@[#[trigger] offset(r0.len() as int, k)] == scores@[row * c
                        + k],
            decreases c - j,
        {
            let ghost r1 = r@;
            r.push(scores[src + j]);
            assert forall|k: int| 0 <= k < j + 1 implies r@[#[trigger] offset(r0.len() as int, k)]
                == scores@[row * c + k] by {
                if k < j {
                    assert(r1[offset(r0.len() as int, k)] == scores@[row * c + k]);
                }
            }
            j += 1;
        }
        r.push(star);
        proof {
            assert forall|a: int, k: int| 0 <= a < row + 1 && 0 <= k <= c implies r@[#[trigger] cell(
                a,
                c + 1,
                k,
            )] == starred(scores@, c as int, star, a, k) by {
                if a < row {
                    assert(a * (c + 1) + k < row * (c + 1) && 0 <= a * (c + 1)) by (nonlinear_arith)
                        requires
                            0 <= a < row,
                            0 <= k <= c,
                    ;
                    assert(r@[cell(a, c + 1, k)] == r0[cell(a, c + 1, k)]);
                } else {
                    assert(cell(a, c + 1, k) == offset(r0.len() as int, k));
                }
            }
        }
        row += 1;
        src += c;
    }
    r
}

/// The position of entry `j` of row `row` in a matrix of `c` columns.
pub open spec fn cell(row: int, c: int, j: int) -> int {
    row * c + j
}

spec fn offset(base: int, k: int) -> int {
    base + k
}

/// The windows of a waveform are as few as hold it: one less would not.
pub proof fn law_windows_are_fewest(n: int, window: int)
    requires
        n >= 0,
        window > 0,
    ensures
        n <= windows_for(n, window) * window,
        n > (windows_for(n, window) - 1) * window,
        windows_for(n, window) >= 0,
{
    let m = n + window - 1;
    let k = windows_for(n, window);
    lemma_fundamental_div_mod(m, window);
    assert(k * window == window * k) by (nonlinear_arith);
    assert((k - 1) * window == k * window - window) by (nonlinear_arith);
    assert(k >= 0) by (nonlinear_arith)
        requires
            window * k + m % window == m,
            m % window < window,
            m >= window - 1,
            window > 0,
    ;
}

/// Each sample of a window, its context on both sides included, is the sample
/// of the waveform that stands as far from the start of the window; outside the
/// waveform it is silence.  Two windows in a row are `window` samples apart.
pub proof fn law_window_holds_its_context<T>(
    chunks: Seq<Vec<T>>,
    waveform: Seq<T>,
    silence: T,
    window: int,
    context: int,
    w: int,
    j: int,
)
    requires
        window > 0,
        context >= 0,
        forall|w: int|
            0 <= w < chunks.len() ==> is_chunk(
                #[trigger] chunks[w]@,
                waveform,
                silence,
                window,
                context,
                w,
            ),
        0 <= w < chunks.len(),
        0 <= j < window + 2 * context,
    ensures
        chunks[w]@.len() == window + 2 * context,
        ({
            let p = w * window + j - context;
            &&& 0 <= p < waveform.len() ==> chunks[w]@[j] == waveform[p]
            &&& p < 0 || p >= waveform.len() ==> chunks[w]@[j] == silence
        }),
        w + 1 < chunks.len() && j >= window ==> chunks[w]@[j] == chunks[w + 1]@[j - window],
{
    assert(is_chunk(chunks[w]@, waveform, silence, window, context, w));
    if w + 1 < chunks.len() && j >= window {
        assert(is_chunk(chunks[w + 1]@, waveform, silence, window, context, w + 1));
        assert((w + 1) * window == w * window + window) by (nonlinear_arith);
        assert(chunks[w + 1]@[j - window] == sample_at(
            waveform,
            silence,
            (w + 1) * window - context + (j - window),
        ));
    }
}

/// What a window adds to the joined scores: nothing before it moves, and after
/// it come its frames from the end of its first context to one frame into the
/// last, in order; a window with no context is added whole.
pub proof fn law_joined_window<T>(
    outs: Seq<(Vec<T>, usize, usize)>,
    ctx: int,
    n: int,
    w: int,
)
    requires
        ctx >= 0,
        0 <= w < n <= outs.len(),
        forall|k: int|
            0 <= k < outs.len() ==> (#[trigger] outs[k]).0@.len() >= outs[k].1 * outs[k].2,
    ensures
        all_kept(outs, ctx, 0).len() == 0,
        ({
            let (t, c) = (outs[w].1 as int, outs[w].2 as int);
            let a = if ctx == 0 {
                t
            } else if t >= 2 * ctx {
                t - 2 * ctx + 1
            } else {
                0
            };
            let base = all_kept(outs, ctx, w).len() as int;
            &&& all_kept(outs, ctx, w + 1).len() == base + a * c
            &&& all_kept(outs, ctx, n).len() >= base + a * c
            &&& forall|i: int|
                0 <= i < a * c ==> #[trigger] all_kept(outs, ctx, n)[base + i] == outs[w].0@[ctx * c
                    + i]
            &&& forall|i: int|
                0 <= i < base ==> #[trigger] all_kept(outs, ctx, n)[i] == all_kept(outs, ctx, w)[i]
        }),
    decreases n,
{
    let (t, c) = (outs[w].1 as int, outs[w].2 as int);
    if w < n - 1 {
        law_joined_window(outs, ctx, n - 1, w);
    } else {
        let from = kept_from(t, ctx);
        let to = kept_to(t, ctx);
        assert(outs[w].0@.len() >= outs[w].1 * outs[w].2);
        if from < to {
            assert(0 <= from * c <= to * c <= t * c && to * c - from * c == (to - from) * c)
                by (nonlinear_arith)
                requires
                    0 <= from < to <= t,
                    0 <= c,
            ;
        } else {
            assert(0 * c == 0);
        }
    }
}

/// Joined windows of `t` frames each: of each window its context is left out,
/// but for one frame at the end.  Frame `p` of what is left comes from window
/// `p / a`, where `a` is the number of frames that each window keeps.
pub proof fn law_joined_frame<T>(
    outs: Seq<(Vec<T>, usize, usize)>,
    ctx: int,
    n: int,
    t: int,
    c: int,
    a: int,
)
    requires
        ctx >= 0,
        0 <= n <= outs.len(),
        t >= 0,
        c >= 0,
        forall|k: int|
            0 <= k < outs.len() ==> (#[trigger] outs[k]).0@.len() >= t * c && outs[k].1 == t
                && outs[k].2 == c,
        a == (if ctx == 0 {
            t
        } else {
            t - 2 * ctx + 1
        }),
        a > 0,
    ensures
        all_kept(outs, ctx, n).len() == n * a * c,
        forall|p: int, j: int|
            0 <= p < n * a && 0 <= j < c ==> all_kept(outs, ctx, n)[#[trigger] cell(p, c, j)]
                == outs[p / a].0@[(ctx + p % a) * c + j],
    decreases n,
{
    if n > 0 {
        law_joined_frame(outs, ctx, n - 1, t, c, a);
        law_joined_window(outs, ctx, n, n - 1);
        let before = all_kept(outs, ctx, n - 1);
        let all = all_kept(outs, ctx, n);
        assert(n * a * c == (n - 1) * a * c + a * c) by (nonlinear_arith);
        assert(n * a == (n - 1) * a + a) by (nonlinear_arith);
        assert forall|p: int, j: int| 0 <= p < n * a && 0 <= j < c implies all[#[trigger] cell(
            p,
            c,
            j,
        )] == outs[p / a].0@[(ctx + p % a) * c + j] by {
            if p < (n - 1) * a {
                assert(0 <= p * c + j < (n - 1) * a * c) by (nonlinear_arith)
                    requires
                        0 <= p < (n - 1) * a,
                        0 <= j < c,
                ;
                assert(before[cell(p, c, j)] == outs[p / a].0@[(ctx + p % a) * c + j]);
                assert(all[cell(p, c, j)] == before[cell(p, c, j)]);
            } else {
                let q = p - (n - 1) * a;
                vstd::arithmetic::div_mod::lemma_fundamental_div_mod_converse(p, a, n - 1, q);
                let i = q * c + j;
                assert(0 <= i < a * c) by (nonlinear_arith)
                    requires
                        i == q * c + j,
                        0 <= q < a,
                        0 <= j < c,
                ;
                assert(p * c + j == (n - 1) * a * c + i) by (nonlinear_arith)
                    requires
                        p == (n - 1) * a + q,
                        i == q * c + j,
                ;
                assert(all[before.len() as int + i] == outs[n - 1].0@[ctx * c + i]);
                assert((ctx + q) * c + j == ctx * c + i) by (nonlinear_arith)
                    requires
                        i == q * c + j,
                ;
            }
        }
    } else {
        assert(n * a == 0 && n * a * c == 0) by (nonlinear_arith)
            requires
                n == 0,
        ;
    }
}

/// The frames that are left of the joined ones: all but the last `ext`, and
/// none where there are no more than these.  Scores that fill no frame do not
/// count.
pub proof fn law_joined_frames_lose_the_last(len: int, c: int, ext: int, frames: int)
    requires
        c > 0,
        frames >= 0,
        ext >= 0,
        frames * c <= len < (frames + 1) * c,
    ensures
        joined_frames(len, c, ext) >= 0,
        frames >= ext ==> joined_frames(len, c, ext) + ext == frames,
        frames < ext ==> joined_frames(len, c, ext) == 0,
{
    assert((frames + 1) * c == frames * c + c) by (nonlinear_arith);
    vstd::arithmetic::div_mod::lemma_fundamental_div_mod_converse(len, c, frames, len - frames * c);
}

/// The joined windows have as many scores per frame as the last window, and none
/// where there is no window.
pub proof fn law_columns_of_last_window<T>(outs: Seq<(Vec<T>, usize, usize)>, c: usize)
    requires
        outs.len() > 0 ==> outs[outs.len() - 1].2 == c,
        outs.len() == 0 ==> c == 0,
    ensures
        columns(outs) == c,
{
}

} // verus!
