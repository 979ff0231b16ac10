//! What the layers of the network promise whatever their weights are.

use vstd::arithmetic::div_mod::lemma_fundamental_div_mod_converse;
use vstd::prelude::*;

use crate::checkpoint::CheckpointView;
use crate::cpu_engine::{
    all_attended, attention_scale, convolved, features_of, gelu_all, is_block, is_conv, is_engine,
    lemma_group_fits, padded, plus_all, product, shapes_of, transposed, vec_of, Block, Conv,
    CpuEngine, Dense, Norm, PosEmbed, Weight,
};
use crate::kernels::{
    attention_score, context_terms, conv_error, conv_terms, dot_terms, lemma_cell_fits, out_len,
    row_of, stack_after, sum_from, ConvError, ConvShape, Number, StackError, Taps,
};
use crate::layout::{is_matrix, lemma_matrix_entry, lemma_one_matrix, lemma_position, matrix};
use crate::raw_tensor::{numbers_of, Decode};
use crate::rows::{
    attended, exp_sum, exponentials, head_of, log_softmax_of, mean_of, normalized, peak,
    scores_of, softmax_matrix, softmax_of, squared_distances, tap_squares, tap_weight, Real,
};
use crate::windows::cell;

verus! {

/// Whether `one` is neutral for sums that begin at zero, for reciprocals and
/// for its own product.
pub open spec fn acts_as_one<R: Real>(one: R) -> bool {
    &&& R::zero_of().plus_of(one) == one
    &&& one.recip_of() == one
    &&& one.times_of(one) == one
}

/// Whether a score is its own peak, and the exponential of its distance from
/// itself is `one`: a finite score.
pub open spec fn is_finite<R: Real>(score: R, one: R) -> bool {
    &&& R::least_of().greater_of(score) == score
    &&& score.minus_of(score).exp_of() == one
}

/// Whether a sum of `x` alone, taken once, is `x`.
pub open spec fn keeps<R: Real>(one: R, x: R) -> bool {
    R::zero_of().plus_of(one.times_of(x)) == x
}

/// Integers have a one, all scores of theirs are finite, and sums keep them.
pub proof fn law_integers_are_finite(x: i64)
    ensures
        acts_as_one(1i64),
        is_finite(x, 1i64),
        keeps(1i64, x),
{
    vstd::arithmetic::power2::lemma2_to64();
}

/// The softmax of a single finite score is one.
pub proof fn law_softmax_of_one_score<R: Real>(score: R, one: R)
    requires
        acts_as_one(one),
        is_finite(score, one),
    ensures
        softmax_of(seq![score], 0) == one,
{
    reveal_with_fuel(peak, 2);
    reveal_with_fuel(sum_from, 2);
    let row = seq![score];
    assert(row.drop_last() =~= Seq::<R>::empty());
    assert(peak(row) == score);
    assert(exponentials(row) =~= seq![one]);
    assert(seq![one].drop_last() =~= Seq::<R>::empty());
    assert(exp_sum(row) == one);
}

/// The score that a head gives a single frame.
pub open spec fn only_score<R: Weight>(q: Seq<R>, k: Seq<R>, h: int, head: int, head_dim: int) -> R {
    attention_score(
        head_of(q, 1, h, head, head_dim),
        head_of(k, 1, h, head, head_dim),
        head_dim,
        attention_scale(head_dim),
        0,
        0,
    )
}

/// One head, over one frame: the frame's values of the head.
proof fn lemma_one_frame_head<R: Weight>(
    q: Seq<R>,
    k: Seq<R>,
    v: Seq<R>,
    h: int,
    head: int,
    head_dim: int,
    one: R,
    d: int,
)
    requires
        acts_as_one(one),
        is_finite(only_score(q, k, h, head, head_dim), one),
        0 <= d < head_dim,
        keeps(one, v[head * head_dim + d]),
    ensures
        attended(q, k, v, 1, h, head, head_dim, attention_scale(head_dim))[d] == v[head * head_dim
            + d],
{
    reveal_with_fuel(sum_from, 2);
    let scale = attention_scale::<R>(head_dim);
    let qh = head_of(q, 1, h, head, head_dim);
    let kh = head_of(k, 1, h, head, head_dim);
    let values = head_of(v, 1, h, head, head_dim);
    let scores = scores_of(qh, kh, 1, head_dim, scale);
    let score = only_score(q, k, h, head, head_dim);
    let fs = |i: int, j: int| attention_score(qh, kh, head_dim, scale, i, j);
    lemma_matrix_entry(1, 1, fs, 0, 0);
    assert(scores =~= seq![score]);
    let weights = softmax_matrix(scores, 1, 1);
    let fw = |i: int, j: int| softmax_of(row_of(scores, i, 1), j);
    lemma_matrix_entry(1, 1, fw, 0, 0);
    assert(row_of(scores, 0, 1) =~= seq![score]);
    law_softmax_of_one_score(score, one);
    assert(weights[0] == one);
    let fv = |i: int, d: int| v[cell(i, h, head * head_dim + d)];
    lemma_matrix_entry(1, head_dim, fv, 0, d);
    assert(values[d] == v[head * head_dim + d]);
    let terms = context_terms(weights, values, 1, head_dim, 0, d);
    assert(terms =~= seq![one.times_of(values[d])]);
    assert(terms.drop_last() =~= Seq::<R>::empty());
    let fo = |i: int, d: int|
        sum_from(R::zero_of(), context_terms(weights, values, 1, head_dim, i, d));
    lemma_matrix_entry(1, head_dim, fo, 0, d);
    assert(attended(q, k, v, 1, h, head, head_dim, scale)[d] == fo(0, d));
}

/// Attention over one frame gives the frame's values, whatever the queries and
/// the keys are.
pub proof fn law_one_frame_attends_to_itself<R: Weight>(
    q: Seq<R>,
    k: Seq<R>,
    v: Seq<R>,
    h: int,
    n_heads: int,
    head_dim: int,
    one: R,
)
    requires
        v.len() == h,
        h == n_heads * head_dim,
        n_heads >= 0,
        head_dim >= 0,
        acts_as_one(one),
        forall|head: int|
            0 <= head < n_heads ==> is_finite(
                #[trigger] only_score(q, k, h, head, head_dim),
                one,
            ),
        forall|c: int| 0 <= c < h ==> keeps(one, #[trigger] v[c]),
    ensures
        all_attended(q, k, v, 1, h, n_heads, head_dim) == v,
{
    let r = all_attended(q, k, v, 1, h, n_heads, head_dim);
    assert(r.len() == h);
    assert forall|c: int| 0 <= c < h implies r[c] == v[c] by {
        lemma_position(c, n_heads, head_dim);
        let head = c / head_dim;
        let d = c % head_dim;
        assert(c == head * head_dim + d);
        assert(is_finite(only_score(q, k, h, head, head_dim), one));
        lemma_one_frame_head(q, k, v, h, head, head_dim, one, d);
        let f = |i: int, c: int|
            if c < n_heads * head_dim {
                attended(
                    q,
                    k,
                    v,
                    1,
                    h,
                    c / head_dim,
                    head_dim,
                    attention_scale(head_dim),
                )[cell(i, head_dim, c % head_dim)]
            } else {
                R::zero_of()
            };
        lemma_matrix_entry(1, h, f, 0, c);
        assert(r[c] == f(0, c));
    }
    assert(r =~= v);
}

/// For one frame, what the attention of an encoder layer adds is its output
/// layer on its value layer.
pub proof fn law_one_frame_attention<R: Weight>(
    block: Block<R>,
    x: Seq<R>,
    h: int,
    n_heads: int,
    head_dim: int,
    one: R,
)
    requires
        block.fits(h),
        h == n_heads * head_dim,
        n_heads >= 0,
        head_dim >= 0,
        acts_as_one(one),
        forall|head: int|
            0 <= head < n_heads ==> is_finite(
                #[trigger] only_score(
                    block.q.of(block.ln_attn.of(x, 1), 1),
                    block.k.of(block.ln_attn.of(x, 1), 1),
                    h,
                    head,
                    head_dim,
                ),
                one,
            ),
        forall|c: int|
            0 <= c < h ==> keeps(one, #[trigger] block.v.of(block.ln_attn.of(x, 1), 1)[c]),
    ensures
        block.attention(x, 1, h, n_heads, head_dim) == block.out.of(
            block.v.of(block.ln_attn.of(x, 1), 1),
            1,
        ),
{
    let normed = block.ln_attn.of(x, 1);
    law_one_frame_attends_to_itself(
        block.q.of(normed, 1),
        block.k.of(normed, 1),
        block.v.of(normed, 1),
        h,
        n_heads,
        head_dim,
        one,
    );
}

/// Entry `i` of a channel of the positional convolution.
proof fn lemma_pos_entry<R: Weight>(layer: PosEmbed<R>, x: Seq<R>, t: int, h: int, i: int, oc: int)
    requires
        0 <= i < t,
        0 <= oc < h,
    ensures
        layer.of(x, t, h)[cell(i, h, oc)] == layer.entry(
            padded(x, t, h, layer.k as int / 2),
            t + 2 * (layer.k as int / 2),
            oc,
            i,
        ),
{
    let pad = layer.k as int / 2;
    let p = padded(x, t, h, pad);
    let f = |oc: int, i: int| layer.entry(p, t + 2 * pad, oc, i);
    let m = matrix(h, t, f);
    lemma_matrix_entry(h, t, f, oc, i);
    let g = |j: int, i: int| m[cell(i, t, j)];
    lemma_matrix_entry(t, h, g, i, oc);
    assert(layer.of(x, t, h) == transposed(m, h, t));
    assert(transposed(m, h, t) == matrix(t, h, g));
}

/// A channel of the positional convolution depends on the channels of its own
/// group alone: where two inputs agree on these, the outputs agree on it.  The
/// output has as many frames as the input, for an odd and for an even number of
/// taps.
pub proof fn law_groups_are_independent<R: Weight>(
    layer: PosEmbed<R>,
    a: Seq<R>,
    b: Seq<R>,
    t: int,
    h: int,
    oc: int,
)
    requires
        layer.fits(h),
        t >= 0,
        0 <= oc < h,
        a.len() == t * h,
        b.len() == t * h,
        forall|i: int, c: int|
            0 <= i < t && 0 <= c < h && c / (layer.width as int) == oc / (layer.width as int)
                ==> a[#[trigger] cell(i, h, c)] == b[cell(i, h, c)],
    ensures
        layer.of(a, t, h).len() == t * h,
        layer.of(b, t, h).len() == t * h,
        forall|i: int|
            0 <= i < t ==> layer.of(a, t, h)[#[trigger] cell(i, h, oc)] == layer.of(b, t, h)[cell(
                i,
                h,
                oc,
            )],
{
    assert(t * h >= 0) by (nonlinear_arith)
        requires
            t >= 0,
            h >= 0,
    ;
    assert forall|i: int| 0 <= i < t implies layer.of(a, t, h)[#[trigger] cell(i, h, oc)]
        == layer.of(b, t, h)[cell(i, h, oc)] by {
        lemma_pos_entry(layer, a, t, h, i, oc);
        lemma_pos_entry(layer, b, t, h, i, oc);
        lemma_same_terms(layer, a, b, t, h, oc, i);
    }
}

/// The products that make up an entry of a channel.
proof fn lemma_same_terms<R: Weight>(
    layer: PosEmbed<R>,
    a: Seq<R>,
    b: Seq<R>,
    t: int,
    h: int,
    oc: int,
    i: int,
)
    requires
        layer.fits(h),
        0 <= oc < h,
        0 <= i < t,
        forall|i: int, c: int|
            0 <= i < t && 0 <= c < h && c / (layer.width as int) == oc / (layer.width as int)
                ==> a[#[trigger] cell(i, h, c)] == b[cell(i, h, c)],
    ensures
        ({
            let pad = layer.k as int / 2;
            layer.entry(padded(a, t, h, pad), t + 2 * pad, oc, i) == layer.entry(
                padded(b, t, h, pad),
                t + 2 * pad,
                oc,
                i,
            )
        }),
{
    let width = layer.width as int;
    let k = layer.k as int;
    let pad = k / 2;
    let len = t + 2 * pad;
    let group = oc / width;
    lemma_group_fits(oc, h, width);
    assert(layer.b@.len() == layer.b.len());
    let taps = Taps {
        first: (group * width) as usize,
        channels: layer.width,
        k: layer.k,
        stride: 1,
    };
    let w = row_of(layer.w@, oc, width * layer.k);
    let pa = padded(a, t, h, pad);
    let pb = padded(b, t, h, pad);
    let ta = conv_terms(pa, len, w, taps, i);
    let tb = conv_terms(pb, len, w, taps, i);
    let fa = |c: int, p: int|
        if pad <= p < pad + t {
            a[cell(p - pad, h, c)]
        } else {
            R::zero_of()
        };
    let fb = |c: int, p: int|
        if pad <= p < pad + t {
            b[cell(p - pad, h, c)]
        } else {
            R::zero_of()
        };
    assert forall|j: int| 0 <= j < ta.len() implies ta[j] == tb[j] by {
        lemma_position(j, width, k);
        let c = group * width + j / k;
        let p = i + j % k;
        lemma_matrix_entry(h, len, fa, c, p);
        lemma_matrix_entry(h, len, fb, c, p);
        lemma_fundamental_div_mod_converse(c, width, group, j / k);
        assert(pa[cell(c, len, p)] == pb[cell(c, len, p)]) by {
            if pad <= p < pad + t {
                assert(a[cell(p - pad, h, c)] == b[cell(p - pad, h, c)]);
            }
        }
    }
    assert(ta =~= tb);
}

/// The encoder runs its layers one after the other, however many there are:
/// with none the frames stay as they are, and what the first `n + 1` layers make
/// of them is what layer `n` makes of what the first `n` make of them.
pub proof fn law_encoder_runs_every_layer<R: Weight>(
    net: CpuEngine<R>,
    x: Seq<R>,
    t: int,
    n: int,
)
    requires
        0 <= n < net.blocks@.len(),
    ensures
        net.encoded(x, t, 0) == x,
        net.encoded(x, t, n + 1) == net.blocks@[n].of(
            net.encoded(x, t, n),
            t,
            net.config.hidden_size as int,
            net.n_heads as int,
            net.head_dim as int,
        ),
{
}

/// The frames between the layers of the encoder, from those that enter it to
/// those that leave it.
proof fn lemma_encoder_stages<R: Weight>(net: CpuEngine<R>, x: Seq<R>, t: int, n: int) -> (stages:
    Seq<Seq<R>>)
    requires
        0 <= n <= net.blocks@.len(),
    ensures
        stages.len() == n + 1,
        stages[0] == x,
        forall|i: int|
            0 <= i < n ==> #[trigger] net.blocks@[i].of(
                stages[i],
                t,
                net.config.hidden_size as int,
                net.n_heads as int,
                net.head_dim as int,
            ) == stages[i + 1],
        stages[n] == net.encoded(x, t, n),
    decreases n,
{
    if n == 0 {
        seq![x]
    } else {
        let before = lemma_encoder_stages(net, x, t, n - 1);
        let stages = before.push(net.encoded(x, t, n));
        assert forall|i: int| 0 <= i < n implies #[trigger] net.blocks@[i].of(
            stages[i],
            t,
            net.config.hidden_size as int,
            net.n_heads as int,
            net.head_dim as int,
        ) == stages[i + 1] by {
            assert(stages[i] == before[i]);
            if i < n - 1 {
                assert(net.blocks@[i].of(
                    before[i],
                    t,
                    net.config.hidden_size as int,
                    net.n_heads as int,
                    net.head_dim as int,
                ) == before[i + 1]);
            }
        }
        stages
    }
}

/// The signal between the convolutions, from the waveform to the features.
proof fn lemma_conv_stages<R: Weight>(convs: Seq<Conv<R>>, waveform: Seq<R>, n: int) -> (stages: Seq<
    Seq<R>,
>)
    requires
        0 <= n <= convs.len(),
    ensures
        stages.len() == n + 1,
        stages[0] == waveform,
        forall|i: int|
            0 <= i < n ==> #[trigger] convs[i].of(
                stages[i],
                stack_after(shapes_of(convs), waveform.len() as int, i)->Ok_0.1,
            ) == stages[i + 1],
        stages[n] == convolved(convs, waveform, n),
    decreases n,
{
    if n == 0 {
        seq![waveform]
    } else {
        let before = lemma_conv_stages(convs, waveform, n - 1);
        let stages = before.push(convolved(convs, waveform, n));
        assert forall|i: int| 0 <= i < n implies #[trigger] convs[i].of(
            stages[i],
            stack_after(shapes_of(convs), waveform.len() as int, i)->Ok_0.1,
        ) == stages[i + 1] by {
            assert(stages[i] == before[i]);
            if i < n - 1 {
                assert(convs[i].of(
                    before[i],
                    stack_after(shapes_of(convs), waveform.len() as int, i)->Ok_0.1,
                ) == before[i + 1]);
            }
        }
        stages
    }
}

/// A waveform passes through all convolutions in order, each given what the one
/// before it made and the length it made it of; then through the projection, to
/// which its positions are added; then through all layers of the encoder in
/// order; then through the head.  The results are the signal after each
/// convolution and the frames after each layer.
pub proof fn law_logits_pass_all_layers<R: Weight>(net: CpuEngine<R>, waveform: Seq<R>, t: int) -> (r:
    (Seq<Seq<R>>, Seq<Seq<R>>))
    ensures
        r.0.len() == net.convs@.len() + 1,
        r.0[0] == waveform,
        forall|i: int|
            0 <= i < net.convs@.len() ==> #[trigger] net.convs@[i].of(
                r.0[i],
                stack_after(shapes_of(net.convs@), waveform.len() as int, i)->Ok_0.1,
            ) == r.0[i + 1],
        r.1.len() == net.blocks@.len() + 1,
        r.1[0] == net.embedded(r.0.last(), features_of(net.convs@), t),
        forall|i: int|
            0 <= i < net.blocks@.len() ==> #[trigger] net.blocks@[i].of(
                r.1[i],
                t,
                net.config.hidden_size as int,
                net.n_heads as int,
                net.head_dim as int,
            ) == r.1[i + 1],
        net.logits(waveform, t) == net.lm_head.of(net.final_ln.of(r.1.last(), t), t),
{
    let signals = lemma_conv_stages(net.convs@, waveform, net.convs@.len() as int);
    let x = net.embedded(signals.last(), features_of(net.convs@), t);
    let frames = lemma_encoder_stages(net, x, t, net.blocks@.len() as int);
    (signals, frames)
}

/// The features that enter the projection are those of the last convolution,
/// and the convolutions have their own shapes.
pub proof fn law_features_come_from_last_conv<R: Weight>(convs: Seq<Conv<R>>, i: int)
    requires
        0 <= i < convs.len(),
    ensures
        shapes_of(convs).len() == convs.len(),
        shapes_of(convs)[i] == convs[i].shape,
        i == convs.len() - 1 ==> features_of(convs) == convs[i].shape.out_ch,
        features_of(Seq::<Conv<R>>::empty()) == 1,
{
}

/// Each frame that enters the encoder is the projection of the frame's
/// normalised features, with what the positional convolution makes of all
/// projected frames added to it.
pub proof fn law_embedding_adds_positions<R: Weight>(
    net: CpuEngine<R>,
    features: Seq<R>,
    frames: Seq<R>,
    c: int,
    t: int,
    p: int,
)
    requires
        c >= 0,
        t >= 0,
        frames.len() == t * c,
        forall|i: int, j: int|
            0 <= i < t && 0 <= j < c ==> frames[#[trigger] cell(i, c, j)] == features[cell(j, t, i)],
        0 <= p < t * net.feat.out,
    ensures
        ({
            let projected = net.feat.of(net.feat_ln.of(frames, t), t);
            let positions = net.pos.of(projected, t, net.config.hidden_size as int);
            &&& net.embedded(features, c, t).len() == t * net.feat.out
            &&& net.embedded(features, c, t)[p] == projected[p].plus_of(positions[p])
        }),
{
    let f = |j: int, i: int| features[cell(i, t, j)];
    assert(is_matrix(frames, t, c, f)) by {
        assert forall|i: int, j: int| 0 <= i < t && 0 <= j < c implies frames[#[trigger] cell(
            i,
            c,
            j,
        )] == f(i, j) by {}
    }
    lemma_one_matrix(frames, t, c, f);
    assert(transposed(features, c, t) =~= frames);
}

/// An encoder layer keeps the number of entries, and adds to each: first what
/// attention makes of the frames, then what the feed-forward part makes of the
/// sums.
pub proof fn law_block_adds_twice<R: Weight>(
    block: Block<R>,
    x: Seq<R>,
    y: Seq<R>,
    t: int,
    h: int,
    n_heads: int,
    head_dim: int,
    p: int,
)
    requires
        y.len() == x.len(),
        forall|i: int|
            0 <= i < x.len() ==> #[trigger] y[i] == x[i].plus_of(
                block.attention(x, t, h, n_heads, head_dim)[i],
            ),
        0 <= p < x.len(),
    ensures
        block.of(x, t, h, n_heads, head_dim).len() == x.len(),
        block.of(x, t, h, n_heads, head_dim)[p] == y[p].plus_of(block.feed_forward(y, t)[p]),
{
    assert(y =~= plus_all(x, block.attention(x, t, h, n_heads, head_dim)));
}

/// What attention adds comes from the queries, keys and values of the normalised
/// frames, through the output layer.
pub proof fn law_attention_reads_normalised_frames<R: Weight>(
    block: Block<R>,
    x: Seq<R>,
    t: int,
    h: int,
    n_heads: int,
    head_dim: int,
)
    ensures
        ({
            let frames = block.ln_attn.of(x, t);
            block.attention(x, t, h, n_heads, head_dim) == block.out.of(
                all_attended(
                    block.q.of(frames, t),
                    block.k.of(frames, t),
                    block.v.of(frames, t),
                    t,
                    h,
                    n_heads,
                    head_dim,
                ),
                t,
            )
        }),
{
}

/// What the feed-forward part adds: the output layer on the error linear unit of
/// each entry of the intermediate layer.
pub proof fn law_feed_forward_is_two_layers<R: Weight>(
    block: Block<R>,
    y: Seq<R>,
    t: int,
    unit: Seq<R>,
)
    requires
        ({
            let inter = block.ff_inter.of(block.ln_ff.of(y, t), t);
            &&& unit.len() == inter.len()
            &&& forall|i: int| 0 <= i < unit.len() ==> #[trigger] unit[i] == inter[i].gelu_of()
        }),
    ensures
        block.feed_forward(y, t) == block.ff_out.of(unit, t),
{
    assert(unit =~= gelu_all(block.ff_inter.of(block.ln_ff.of(y, t), t)));
}

/// A sum adds its terms one by one, from the first to the last: `r[i]` is the
/// sum of the first `i` terms.
pub proof fn law_sum_adds_every_term<R: Real>(start: R, terms: Seq<R>) -> (r: Seq<R>)
    ensures
        r.len() == terms.len() + 1,
        r[0] == start,
        forall|i: int| 0 <= i < terms.len() ==> r[i + 1] == r[i].plus_of(#[trigger] terms[i]),
        sum_from(start, terms) == r.last(),
    decreases terms.len(),
{
    if terms.len() == 0 {
        seq![start]
    } else {
        let before = law_sum_adds_every_term(start, terms.drop_last());
        let r = before.push(before.last().plus_of(terms.last()));
        assert forall|i: int| 0 <= i < terms.len() implies r[i + 1] == r[i].plus_of(
            #[trigger] terms[i],
        ) by {
            if i < terms.len() - 1 {
                assert(terms.drop_last()[i] == terms[i]);
            }
        }
        r
    }
}

/// The peak of a row takes in every entry: `r[i]` is the peak of the first `i`
/// entries.
pub proof fn law_peak_takes_every_entry<R: Real>(row: Seq<R>) -> (r: Seq<R>)
    ensures
        r.len() == row.len() + 1,
        r[0] == R::least_of(),
        forall|i: int| 0 <= i < row.len() ==> r[i + 1] == r[i].greater_of(#[trigger] row[i]),
        peak(row) == r.last(),
    decreases row.len(),
{
    if row.len() == 0 {
        seq![R::least_of()]
    } else {
        let before = law_peak_takes_every_entry(row.drop_last());
        let r = before.push(before.last().greater_of(row.last()));
        assert forall|i: int| 0 <= i < row.len() implies r[i + 1] == r[i].greater_of(
            #[trigger] row[i],
        ) by {
            if i < row.len() - 1 {
                assert(row.drop_last()[i] == row[i]);
            }
        }
        r
    }
}

/// The peak of integers is one of them and no less than any.
pub proof fn law_peak_of_integers(row: Seq<i64>, i: int)
    requires
        0 <= i < row.len(),
    ensures
        row[i] <= peak(row),
        row.contains(peak(row)),
    decreases row.len(),
{
    let rest = row.drop_last();
    if i < row.len() - 1 {
        law_peak_of_integers(rest, i);
        assert(rest[i] == row[i]);
    } else if row.len() > 1 {
        law_peak_of_integers(rest, 0);
    } else {
        assert(peak(rest) == i64::MIN);
    }
    if rest.contains(peak(rest)) {
        let k = choose|k: int| 0 <= k < rest.len() && rest[k] == peak(rest);
        assert(row[k] == peak(rest));
    }
    assert(row[row.len() - 1] == row.last());
}

/// Softmax and log-softmax of a row, from the exponentials of the distances of
/// all entries from the peak.
pub proof fn law_softmax_weighs_every_entry<R: Real>(row: Seq<R>, exps: Seq<R>, j: int)
    requires
        0 <= j < row.len(),
        exps.len() == row.len(),
        forall|i: int|
            0 <= i < row.len() ==> #[trigger] exps[i] == row[i].minus_of(peak(row)).exp_of(),
    ensures
        softmax_of(row, j) == row[j].minus_of(peak(row)).exp_of().times_of(
            sum_from(R::zero_of(), exps).recip_of(),
        ),
        log_softmax_of(row, j) == row[j].minus_of(
            peak(row).plus_of(sum_from(R::zero_of(), exps).ln_of()),
        ),
{
    assert(exps =~= exponentials(row));
}

/// A linear layer gives each row of the input the products of the row and the
/// rows of the weights, and adds the bias of the column.
pub proof fn law_dense_entry<R: Weight>(layer: Dense<R>, x: Seq<R>, rows: int, i: int, j: int)
    requires
        0 <= i < rows,
        0 <= j < layer.out,
    ensures
        layer.of(x, rows).len() == rows * layer.out,
        0 <= i * layer.out + j < layer.of(x, rows).len(),
        layer.of(x, rows)[i * layer.out + j] == product(
            x,
            layer.w@,
            rows,
            layer.inn as int,
            layer.out as int,
        )[i * layer.out + j].plus_of(layer.b@[j]),
{
    let out = layer.out as int;
    let sums = product(x, layer.w@, rows, layer.inn as int, out);
    let f = |i: int, j: int| sums[cell(i, out, j)].plus_of(layer.b@[j]);
    lemma_matrix_entry(rows, out, f, i, j);
    lemma_cell_fits(i, rows, out, j);
    assert(cell(i, out, j) == i * out + j);
}

/// A normalised entry: its distance from the mean of its row, over the root of
/// the mean square distance with `eps` added, times its weight, with its bias.
pub proof fn law_norm_entry<R: Weight>(
    layer: Norm<R>,
    x: Seq<R>,
    rows: int,
    i: int,
    j: int,
    row: Seq<R>,
    mean: R,
    squares: Seq<R>,
)
    requires
        0 <= i < rows,
        0 <= j < layer.w@.len(),
        x.len() == rows * layer.w@.len(),
        row.len() == layer.w@.len(),
        forall|d: int| 0 <= d < row.len() ==> #[trigger] row[d] == x[i * layer.w@.len() + d],
        mean == sum_from(R::zero_of(), row).over_of(R::count_of(layer.w@.len() as usize)),
        squares.len() == row.len(),
        forall|d: int|
            0 <= d < row.len() ==> #[trigger] squares[d] == row[d].minus_of(mean).times_of(
                row[d].minus_of(mean),
            ),
    ensures
        layer.of(x, rows).len() == rows * layer.w@.len(),
        0 <= i * layer.w@.len() + j < layer.of(x, rows).len(),
        layer.of(x, rows)[i * layer.w@.len() + j] == row[j].minus_of(mean).times_of(
            sum_from(R::zero_of(), squares).over_of(
                R::count_of(layer.w@.len() as usize),
            ).plus_of(layer.eps).root_of().recip_of(),
        ).times_of(layer.w@[j]).plus_of(layer.b@[j]),
{
    let dim = layer.w@.len() as int;
    let f = |i: int, j: int| normalized(row_of(x, i, dim), layer.w@, layer.b@, layer.eps, j);
    lemma_matrix_entry(rows, dim, f, i, j);
    lemma_cell_fits(i, rows, dim, j);
    assert(i * dim + dim <= rows * dim) by (nonlinear_arith)
        requires
            i < rows,
            dim >= 0,
    ;
    assert(row =~= row_of(x, i, dim));
    assert(mean_of(row) == mean);
    assert(squares =~= squared_distances(row, mean));
    assert(cell(i, dim, j) == i * dim + j);
}

/// An entry of a convolution before its normalisation: the bias of the output
/// channel with, for each input channel and tap in order, the sample under the
/// tap times the tap's weight.
pub proof fn law_conv_entry<R: Weight>(
    layer: Conv<R>,
    x: Seq<R>,
    in_len: int,
    oc: int,
    at: int,
    terms: Seq<R>,
)
    requires
        layer.fits(),
        0 <= oc < layer.shape.out_ch,
        terms.len() == layer.shape.in_ch * layer.shape.k,
        forall|ic: int, tap: int|
            0 <= ic < layer.shape.in_ch && 0 <= tap < layer.shape.k ==> terms[#[trigger] cell(
                ic,
                layer.shape.k as int,
                tap,
            )] == x[ic * in_len + (at * layer.shape.stride + tap)].times_of(
                layer.w@[(oc * layer.shape.in_ch + ic) * layer.shape.k + tap],
            ),
    ensures
        layer.entry(x, in_len, oc, at) == sum_from(layer.b@[oc], terms),
{
    let s = layer.shape;
    let (in_ch, k) = (s.in_ch as int, s.k as int);
    let size = in_ch * k;
    let w = row_of(layer.w@, oc, size);
    let taps = Taps { first: 0, channels: s.in_ch, k: s.k, stride: s.stride };
    let all = conv_terms(x, in_len, w, taps, at);
    assert(oc * size + size <= s.out_ch * size && 0 <= oc * size) by (nonlinear_arith)
        requires
            0 <= oc < s.out_ch,
            0 <= size,
    ;
    assert forall|j: int| 0 <= j < terms.len() implies terms[j] == all[j] by {
        lemma_position(j, in_ch, k);
        let (ic, tap) = (j / k, j % k);
        assert(terms[cell(ic, k, tap)] == x[ic * in_len + (at * s.stride + tap)].times_of(
            layer.w@[(oc * in_ch + ic) * k + tap],
        ));
        assert((oc * in_ch + ic) * k + tap == oc * (in_ch * k) + (ic * k + tap))
            by (nonlinear_arith);
        assert(cell(ic, k, tap) == j);
        assert(w[j] == layer.w@[oc * size + j]);
        assert(cell(taps.first + ic, in_len, at * s.stride + tap) == ic * in_len + (at * s.stride
            + tap));
    }
    assert(terms =~= all);
}

/// The output of a convolution: the error linear unit of each entry, or, where
/// the layer has a normalisation, of each entry after each frame of channels is
/// normalised.  The last tap of the last entry lies inside the input, and one
/// entry more would not.
pub proof fn law_conv_output<R: Weight>(
    layer: Conv<R>,
    x: Seq<R>,
    in_len: int,
    n: int,
    frames: Seq<R>,
    oc: int,
    at: int,
)
    requires
        layer.fits(),
        layer.shape.k <= in_len,
        n >= 1,
        (n - 1) * layer.shape.stride + layer.shape.k <= in_len,
        in_len < n * layer.shape.stride + layer.shape.k,
        0 <= oc < layer.shape.out_ch,
        0 <= at < n,
        frames.len() == n * layer.shape.out_ch,
        forall|i: int, c: int|
            0 <= i < n && 0 <= c < layer.shape.out_ch ==> frames[#[trigger] cell(
                i,
                layer.shape.out_ch as int,
                c,
            )] == layer.entry(x, in_len, c, i),
    ensures
        layer.of(x, in_len).len() == layer.shape.out_ch * n,
        0 <= oc * n + at < layer.shape.out_ch * n,
        layer.of(x, in_len)[oc * n + at] == (match layer.ln {
            Some(ln) => ln.of(frames, n)[at * layer.shape.out_ch + oc].gelu_of(),
            None => layer.entry(x, in_len, oc, at).gelu_of(),
        }),
{
    let s = layer.shape;
    let out_ch = s.out_ch as int;
    law_out_len_is_exact(s.k as int, s.stride as int, in_len, n);
    let f = |oc: int, t: int| layer.entry(x, in_len, oc, t);
    let raw = layer.channels(x, in_len);
    lemma_matrix_entry(out_ch, n, f, oc, at);
    lemma_cell_fits(oc, out_ch, n, at);
    assert(cell(oc, n, at) == oc * n + at);
    if let Some(ln) = layer.ln {
        let g = |j: int, i: int| raw[cell(i, n, j)];
        assert(is_matrix(frames, n, out_ch, g)) by {
            assert forall|i: int, c: int| 0 <= i < n && 0 <= c < out_ch implies frames[
            #[trigger] cell(i, out_ch, c)] == g(i, c) by {
                lemma_matrix_entry(out_ch, n, f, c, i);
            }
            assert(n * out_ch == out_ch * n) by (nonlinear_arith);
        }
        lemma_one_matrix(frames, n, out_ch, g);
        assert(transposed(raw, out_ch, n) == frames);
        let normed = ln.of(frames, n);
        let back = |j: int, i: int| normed[cell(i, out_ch, j)];
        lemma_matrix_entry(out_ch, n, back, oc, at);
        assert(transposed(normed, n, out_ch) == matrix(out_ch, n, back));
        assert(cell(at, out_ch, oc) == at * out_ch + oc);
    }
}

/// The length of a convolution's output is the one at which the last tap of the
/// last entry lies inside the input and one entry more would not.
pub proof fn law_out_len_is_exact(k: int, stride: int, in_len: int, n: int)
    requires
        stride > 0,
        k <= in_len,
    ensures
        n == out_len(k, stride, in_len) <==> (n - 1) * stride + k <= in_len < n * stride + k,
{
    let q = (in_len - k) / stride;
    vstd::arithmetic::div_mod::lemma_fundamental_div_mod(in_len - k, stride);
    assert(stride * q == q * stride) by (nonlinear_arith);
    assert((q + 1) * stride == q * stride + stride) by (nonlinear_arith);
    if (n - 1) * stride + k <= in_len < n * stride + k {
        assert(n * stride == (n - 1) * stride + stride) by (nonlinear_arith);
        lemma_fundamental_div_mod_converse(
            in_len - k,
            stride,
            n - 1,
            in_len - k - (n - 1) * stride,
        );
    }
}

/// How a stack of convolutions grows by a layer: an error stays; a layer that
/// does not take the channels refuses them, one whose kernel is longer than the
/// channels refuses these, and else its own channels come out, of the length of
/// its output.
pub proof fn law_stack_grows_by_a_layer(shapes: Seq<ConvShape>, samples: int, n: int)
    requires
        0 <= n < shapes.len(),
        shapes[n].stride > 0,
    ensures
        stack_after(shapes, samples, 0) == Ok::<(int, int), StackError>((1int, samples)),
        match stack_after(shapes, samples, n) {
            Err(e) => stack_after(shapes, samples, n + 1) == Err::<(int, int), StackError>(e),
            Ok((channels, len)) => match stack_after(shapes, samples, n + 1) {
                Err(StackError::ChannelMismatch { layer, got, expected }) => {
                    &&& channels != shapes[n].in_ch
                    &&& layer == n as usize
                    &&& got == channels as usize
                    &&& expected == shapes[n].in_ch
                },
                Err(StackError::ShorterThanKernel { in_len, k }) => {
                    &&& channels == shapes[n].in_ch
                    &&& len < shapes[n].k
                    &&& in_len == len as usize
                    &&& k == shapes[n].k
                },
                Ok((out, m)) => {
                    &&& channels == shapes[n].in_ch
                    &&& out == shapes[n].out_ch
                    &&& len >= shapes[n].k
                    &&& (m - 1) * shapes[n].stride + shapes[n].k <= len
                    &&& len < m * shapes[n].stride + shapes[n].k
                },
            },
        },
{
    if let Ok((channels, len)) = stack_after(shapes, samples, n) {
        let s = shapes[n];
        if channels == s.in_ch && len >= s.k {
            let m = out_len(s.k as int, s.stride as int, len);
            law_out_len_is_exact(s.k as int, s.stride as int, len, m);
        }
    }
}

/// An entry of the positional convolution: the error linear unit of the bias of
/// the channel with, for each channel of its group and each tap in order, the
/// frame under the tap times the tap's weight; the middle tap lies over the
/// frame itself, and outside the frames there are zeros.
pub proof fn law_position_entry<R: Weight>(
    layer: PosEmbed<R>,
    hidden: Seq<R>,
    t: int,
    h: int,
    i: int,
    oc: int,
    terms: Seq<R>,
)
    requires
        layer.fits(h),
        0 <= i < t,
        0 <= oc < h,
        terms.len() == layer.width * layer.k,
        forall|c: int, tap: int|
            0 <= c < layer.width && 0 <= tap < layer.k ==> terms[#[trigger] cell(
                c,
                layer.k as int,
                tap,
            )] == ({
                let frame = i + tap - layer.k as int / 2;
                let channel = oc / (layer.width as int) * layer.width + c;
                let under = if 0 <= frame < t {
                    hidden[frame * h + channel]
                } else {
                    R::zero_of()
                };
                under.times_of(layer.w@[(oc * layer.width + c) * layer.k + tap])
            }),
    ensures
        layer.of(hidden, t, h).len() == t * h,
        0 <= i * h + oc < t * h,
        layer.of(hidden, t, h)[i * h + oc] == sum_from(layer.b@[oc], terms).gelu_of(),
{
    let (width, k) = (layer.width as int, layer.k as int);
    let pad = k / 2;
    let len = t + 2 * pad;
    let group = oc / width;
    let size = width * k;
    lemma_group_fits(oc, h, width);
    lemma_pos_entry(layer, hidden, t, h, i, oc);
    lemma_cell_fits(i, t, h, oc);
    assert(layer.b@.len() == layer.b.len());
    let taps = Taps {
        first: (group * width) as usize,
        channels: layer.width,
        k: layer.k,
        stride: 1,
    };
    let w = row_of(layer.w@, oc, size);
    let x = padded(hidden, t, h, pad);
    let all = conv_terms(x, len, w, taps, i);
    let f = |c: int, p: int|
        if pad <= p < pad + t {
            hidden[cell(p - pad, h, c)]
        } else {
            R::zero_of()
        };
    assert(oc * size + size <= h * size && 0 <= oc * size) by (nonlinear_arith)
        requires
            0 <= oc < h,
            0 <= size,
    ;
    assert forall|j: int| 0 <= j < terms.len() implies terms[j] == all[j] by {
        lemma_position(j, width, k);
        let (c, tap) = (j / k, j % k);
        let channel = group * width + c;
        lemma_matrix_entry(h, len, f, channel, i + tap);
        assert(terms[cell(c, k, tap)] == ({
            let frame = i + tap - pad;
            let under = if 0 <= frame < t {
                hidden[frame * h + channel]
            } else {
                R::zero_of()
            };
            under.times_of(layer.w@[(oc * layer.width + c) * layer.k + tap])
        }));
        assert((oc * width + c) * k + tap == oc * (width * k) + (c * k + tap)) by (nonlinear_arith);
        assert(cell(c, k, tap) == j);
        assert(w[j] == layer.w@[oc * size + j]);
        assert(cell(i + tap - pad, h, channel) == (i + tap - pad) * h + channel);
    }
    assert(terms =~= all);
    assert(cell(i, h, oc) == i * h + oc);
    assert(t * h >= 0) by (nonlinear_arith)
        requires
            t >= 0,
            h >= 0,
    ;
}

/// An entry of attention: the values of all frames in the entry's own column,
/// each weighted by the softmax of the frame's scores.  A score is the product
/// of the query of the frame and the key of the other, over the columns of the
/// head, over the root of the head's width.
pub proof fn law_attention_entry<R: Weight>(
    q: Seq<R>,
    k: Seq<R>,
    v: Seq<R>,
    t: int,
    h: int,
    n_heads: int,
    head_dim: int,
    i: int,
    head: int,
    d: int,
    products: Seq<Seq<R>>,
    scores: Seq<R>,
    terms: Seq<R>,
)
    requires
        0 <= i < t,
        0 <= head < n_heads,
        0 <= d < head_dim,
        n_heads * head_dim <= h,
        products.len() == t,
        forall|j: int| 0 <= j < t ==> (#[trigger] products[j]).len() == head_dim,
        forall|j: int, e: int|
            0 <= j < t && 0 <= e < head_dim ==> #[trigger] products[j][e] == q[i * h + (head
                * head_dim + e)].times_of(k[j * h + (head * head_dim + e)]),
        scores.len() == t,
        forall|j: int|
            0 <= j < t ==> #[trigger] scores[j] == sum_from(R::zero_of(), products[j]).times_of(
                R::count_of(head_dim as usize).root_of().recip_of(),
            ),
        terms.len() == t,
        forall|j: int|
            0 <= j < t ==> #[trigger] terms[j] == softmax_of(scores, j).times_of(
                v[j * h + (head * head_dim + d)],
            ),
    ensures
        all_attended(q, k, v, t, h, n_heads, head_dim).len() == t * h,
        all_attended(q, k, v, t, h, n_heads, head_dim)[i * h + (head * head_dim + d)] == sum_from(
            R::zero_of(),
            terms,
        ),
{
    let scale = attention_scale::<R>(head_dim);
    let qh = head_of(q, t, h, head, head_dim);
    let kh = head_of(k, t, h, head, head_dim);
    let vh = head_of(v, t, h, head, head_dim);
    let fq = |i: int, d: int| q[cell(i, h, head * head_dim + d)];
    let fk = |i: int, d: int| k[cell(i, h, head * head_dim + d)];
    let fv = |i: int, d: int| v[cell(i, h, head * head_dim + d)];
    let all_scores = scores_of(qh, kh, t, head_dim, scale);
    let fs = |i: int, j: int| attention_score(qh, kh, head_dim, scale, i, j);
    let weights = softmax_matrix(all_scores, t, t);
    let fw = |i: int, j: int| softmax_of(row_of(all_scores, i, t), j);
    assert(i * t + t <= t * t && 0 <= i * t) by (nonlinear_arith)
        requires
            0 <= i < t,
    ;
    assert forall|j: int| 0 <= j < t implies #[trigger] row_of(all_scores, i, t)[j]
        == scores[j] by {
        lemma_matrix_entry(t, t, fs, i, j);
        let ds = dot_terms(qh, kh, head_dim, i, j);
        assert forall|e: int| 0 <= e < head_dim implies ds[e] == products[j][e] by {
            lemma_matrix_entry(t, head_dim, fq, i, e);
            lemma_matrix_entry(t, head_dim, fk, j, e);
            assert(cell(i, h, head * head_dim + e) == i * h + (head * head_dim + e));
            assert(cell(j, h, head * head_dim + e) == j * h + (head * head_dim + e));
        }
        assert(ds =~= products[j]);
        assert(cell(i, t, j) == i * t + j);
    }
    assert(row_of(all_scores, i, t) =~= scores);
    let ts = context_terms(weights, vh, t, head_dim, i, d);
    assert forall|j: int| 0 <= j < t implies ts[j] == terms[j] by {
        lemma_matrix_entry(t, t, fw, i, j);
        lemma_matrix_entry(t, head_dim, fv, j, d);
        assert(cell(j, h, head * head_dim + d) == j * h + (head * head_dim + d));
    }
    assert(ts =~= terms);
    let fo = |i: int, d: int|
        sum_from(R::zero_of(), context_terms(weights, vh, t, head_dim, i, d));
    lemma_matrix_entry(t, head_dim, fo, i, d);
    let c = head * head_dim + d;
    lemma_fundamental_div_mod_converse(c, head_dim, head, d);
    assert(0 <= c < n_heads * head_dim) by (nonlinear_arith)
        requires
            c == head * head_dim + d,
            0 <= head < n_heads,
            0 <= d < head_dim,
    ;
    let f = |i: int, c: int|
        if c < n_heads * head_dim {
            attended(q, k, v, t, h, c / head_dim, head_dim, attention_scale(head_dim))[cell(
                i,
                head_dim,
                c % head_dim,
            )]
        } else {
            R::zero_of()
        };
    lemma_matrix_entry(t, h, f, i, c);
    assert(cell(i, h, c) == i * h + c);
    assert(t * h >= 0) by (nonlinear_arith)
        requires
            t >= 0,
            h >= 0,
    ;
}

/// Columns after the last head hold zeros.
pub proof fn law_no_head_gives_zeros<R: Weight>(
    q: Seq<R>,
    k: Seq<R>,
    v: Seq<R>,
    t: int,
    h: int,
    n_heads: int,
    head_dim: int,
    i: int,
    c: int,
)
    requires
        0 <= i < t,
        n_heads * head_dim <= c < h,
        0 <= c,
    ensures
        all_attended(q, k, v, t, h, n_heads, head_dim)[i * h + c] == R::zero_of(),
{
    let f = |i: int, c: int|
        if c < n_heads * head_dim {
            attended(q, k, v, t, h, c / head_dim, head_dim, attention_scale(head_dim))[cell(
                i,
                head_dim,
                c % head_dim,
            )]
        } else {
            R::zero_of()
        };
    lemma_matrix_entry(t, h, f, i, c);
    assert(cell(i, h, c) == i * h + c);
}

/// The weight of a tap after weight normalisation: its direction times its gain,
/// over the root of the sum of the squares of all directions of the tap.  One
/// gain serves all taps; else each tap has its own.
pub proof fn law_tap_weight<R: Real>(
    directions: Seq<R>,
    gains: Seq<R>,
    rows: int,
    k: int,
    o: int,
    tap: int,
    squares: Seq<R>,
)
    requires
        0 <= o < rows,
        0 <= tap < k,
        squares.len() == rows,
        forall|r: int|
            0 <= r < rows ==> #[trigger] squares[r] == directions[r * k + tap].times_of(
                directions[r * k + tap],
            ),
    ensures
        gains.len() == 1 ==> tap_weight(directions, gains, rows, k, o, tap) == directions[o * k
            + tap].times_of(gains[0]).times_of(
            sum_from(R::zero_of(), squares).root_of().recip_of(),
        ),
        gains.len() != 1 ==> tap_weight(directions, gains, rows, k, o, tap) == directions[o * k
            + tap].times_of(gains[tap]).times_of(
            sum_from(R::zero_of(), squares).root_of().recip_of(),
        ),
{
    let all = tap_squares(directions, rows, k, tap);
    assert forall|r: int| 0 <= r < rows implies squares[r] == all[r] by {
        assert(cell(r, k, tap) == r * k + tap);
    }
    assert(squares =~= all);
}

/// The transpose of a matrix holds each entry at its column and row.
pub proof fn law_transpose_entry<R>(m: Seq<R>, rows: int, cols: int, i: int, j: int)
    requires
        0 <= i < rows,
        0 <= j < cols,
    ensures
        transposed(m, rows, cols).len() == cols * rows,
        transposed(m, rows, cols)[j * rows + i] == m[i * cols + j],
{
    let f = |j: int, i: int| m[cell(i, cols, j)];
    lemma_matrix_entry(cols, rows, f, j, i);
    assert(cell(j, rows, i) == j * rows + i);
    assert(cell(i, cols, j) == i * cols + j);
    lemma_cell_fits(j, cols, rows, i);
}

/// For integers the product of two matrices is the one matrix that holds, for
/// each row of the first and each row of the second, the sum over their columns
/// of the products of the entries.
pub proof fn law_integer_product(
    x: Vec<i64>,
    w: Vec<i64>,
    made: Vec<i64>,
    rows: usize,
    inn: usize,
    out: usize,
)
    requires
        made@.len() == rows * out,
        forall|a: int, b: int|
            0 <= a < rows && 0 <= b < out ==> made@[#[trigger] cell(a, out as int, b)] == sum_from(
                0i64,
                Seq::new(inn as nat, |d: int| x@[a * inn + d].wrapping_mul(w@[b * inn + d])),
            ),
    ensures
        product(x@, w@, rows as int, inn as int, out as int) == made@,
{
    let f = |i: int, j: int| sum_from(0i64, dot_terms(x@, w@, inn as int, i, j));
    assert(is_matrix(made@, rows as int, out as int, f)) by {
        assert forall|a: int, b: int| 0 <= a < rows && 0 <= b < out implies made@[#[trigger] cell(
            a,
            out as int,
            b,
        )] == f(a, b) by {
            let terms = Seq::new(
                inn as nat,
                |d: int| x@[a * inn + d].wrapping_mul(w@[b * inn + d]),
            );
            let all = dot_terms(x@, w@, inn as int, a, b);
            assert forall|d: int| 0 <= d < inn implies terms[d] == all[d] by {
                assert(cell(a, inn as int, d) == a * inn + d);
                assert(cell(b, inn as int, d) == b * inn + d);
            }
            assert(terms =~= all);
        }
    }
    lemma_one_matrix(made@, rows as int, out as int, f);
    let (xs, ws) = (vec_of(x@), vec_of(w@));
    assert(xs@ == x@ && ws@ == w@);
    let g = |i: int, j: int| sum_from(0i64, dot_terms(xs@, ws@, inn as int, i, j));
    assert(matrix(rows as int, out as int, g) =~= made@);
    assert(vec_of(made@)@ == made@);
}

/// An engine that holds the numbers of a model holds those of every part: each
/// convolution and each encoder layer has the numbers of the model's of the same
/// place, however many there are.
pub proof fn law_engine_holds_every_weight<R: Weight>(
    net: CpuEngine<R>,
    v: CheckpointView,
    eps: R,
    i: int,
)
    requires
        is_engine(net, v, eps),
    ensures
        net.config == v.config,
        net.n_heads == v.n_heads,
        net.head_dim == v.head_dim,
        net.convs@.len() == v.conv_layers.len(),
        net.blocks@.len() == v.layers.len(),
        0 <= i < v.conv_layers.len() ==> {
            let (c, l) = (net.convs@[i], v.conv_layers[i]);
            &&& c.w@ == numbers_of::<R>(l.w)
            &&& c.b@ == numbers_of::<R>(l.b)
            &&& c.shape.out_ch == l.out_ch
            &&& c.shape.in_ch == l.in_ch
            &&& c.shape.k == l.k
            &&& c.shape.stride == l.stride
            &&& c.ln is Some <==> l.ln is Some
            &&& c.ln matches Some(n) ==> n.w@ == numbers_of::<R>(l.ln->0.w) && n.b@ == numbers_of::<
                R,
            >(l.ln->0.b) && n.eps == eps
        },
        0 <= i < v.layers.len() ==> {
            let (b, l) = (net.blocks@[i], v.layers[i]);
            &&& b.ln_attn.w@ == numbers_of::<R>(l.ln_attn.w)
            &&& b.ln_attn.b@ == numbers_of::<R>(l.ln_attn.b)
            &&& b.ln_ff.w@ == numbers_of::<R>(l.ln_ff.w)
            &&& b.ln_ff.b@ == numbers_of::<R>(l.ln_ff.b)
            &&& b.ln_attn.eps == eps && b.ln_ff.eps == eps
            &&& b.q.w@ == numbers_of::<R>(l.q.w) && b.q.b@ == numbers_of::<R>(l.q.b)
            &&& b.k.w@ == numbers_of::<R>(l.k.w) && b.k.b@ == numbers_of::<R>(l.k.b)
            &&& b.v.w@ == numbers_of::<R>(l.v.w) && b.v.b@ == numbers_of::<R>(l.v.b)
            &&& b.out.w@ == numbers_of::<R>(l.out.w) && b.out.b@ == numbers_of::<R>(l.out.b)
            &&& b.ff_inter.w@ == numbers_of::<R>(l.ff_inter.w)
            &&& b.ff_inter.b@ == numbers_of::<R>(l.ff_inter.b)
            &&& b.ff_out.w@ == numbers_of::<R>(l.ff_out.w)
            &&& b.ff_out.b@ == numbers_of::<R>(l.ff_out.b)
            &&& b.q.out == l.q.out && b.q.inn == l.q.inn
            &&& b.k.out == l.k.out && b.k.inn == l.k.inn
            &&& b.v.out == l.v.out && b.v.inn == l.v.inn
            &&& b.out.out == l.out.out && b.out.inn == l.out.inn
            &&& b.ff_inter.out == l.ff_inter.out && b.ff_inter.inn == l.ff_inter.inn
            &&& b.ff_out.out == l.ff_out.out && b.ff_out.inn == l.ff_out.inn
        },
        net.feat_ln.w@ == numbers_of::<R>(v.feat_proj_ln.w),
        net.feat_ln.b@ == numbers_of::<R>(v.feat_proj_ln.b),
        net.feat_ln.eps == eps,
        net.feat.w@ == numbers_of::<R>(v.feat_proj.w),
        net.feat.b@ == numbers_of::<R>(v.feat_proj.b),
        net.feat.out == v.feat_proj.out && net.feat.inn == v.feat_proj.inn,
        net.final_ln.w@ == numbers_of::<R>(v.encoder_ln.w),
        net.final_ln.b@ == numbers_of::<R>(v.encoder_ln.b),
        net.final_ln.eps == eps,
        net.lm_head.w@ == numbers_of::<R>(v.lm_head.w),
        net.lm_head.b@ == numbers_of::<R>(v.lm_head.b),
        net.lm_head.out == v.lm_head.out && net.lm_head.inn == v.lm_head.inn,
        net.pos.b@ == numbers_of::<R>(v.pos_conv.bias),
        net.pos.k == v.pos_conv.k,
        net.pos.width == v.pos_conv.group_width,
{
    if 0 <= i < v.conv_layers.len() {
        assert(is_conv(net.convs@[i], v.conv_layers[i], eps));
    }
    if 0 <= i < v.layers.len() {
        assert(is_block(net.blocks@[i], v.layers[i], eps));
    }
}

/// The weights of the positional convolution are those that the gains and the
/// directions of the model come to, tap by tap.
pub proof fn law_engine_normalises_taps<R: Weight>(
    net: CpuEngine<R>,
    v: CheckpointView,
    eps: R,
    o: int,
    tap: int,
)
    requires
        is_engine(net, v, eps),
        v.pos_conv.group_width >= 0,
        0 <= o < v.config.hidden_size * v.pos_conv.group_width,
        0 <= tap < v.pos_conv.k,
    ensures
        net.pos.w@.len() == v.config.hidden_size * v.pos_conv.group_width * v.pos_conv.k,
        net.pos.w@[o * v.pos_conv.k + tap] == tap_weight(
            numbers_of::<R>(v.pos_conv.directions),
            numbers_of::<R>(v.pos_conv.gains),
            v.config.hidden_size * v.pos_conv.group_width,
            v.pos_conv.k,
            o,
            tap,
        ),
{
    let k = v.pos_conv.k;
    assert(cell(o, k, tap) == o * k + tap);
    assert(net.pos.w@[cell(o, k, tap)] == net.pos.w@[o * k + tap]);
}

/// The parts of a network fit together exactly where each has as many weights as
/// its sizes ask for, takes what the part before it gives, and the heads are no
/// wider together than a frame.
pub proof fn law_network_fits_iff<R: Weight>(net: CpuEngine<R>, c: int)
    requires
        c == (if net.convs@.len() == 0 {
            1
        } else {
            net.convs@[net.convs@.len() - 1].shape.out_ch as int
        }),
    ensures
        ({
            let h = net.config.hidden_size as int;
            net.fits() <==> {
                &&& forall|i: int|
                    0 <= i < net.convs@.len() ==> {
                        let l = #[trigger] net.convs@[i];
                        &&& l.shape.stride > 0
                        &&& l.w@.len() == l.shape.out_ch * (l.shape.in_ch * l.shape.k)
                        &&& l.b@.len() >= l.shape.out_ch
                        &&& l.ln matches Some(n) ==> n.w@.len() == l.shape.out_ch && n.b@.len()
                            >= l.shape.out_ch
                    }
                &&& net.feat_ln.w@.len() == c && net.feat_ln.b@.len() >= c
                &&& net.feat.inn == c && net.feat.out == h
                &&& net.feat.w@.len() == h * c && net.feat.b@.len() >= h
                &&& net.pos.width > 0 && h % net.pos.width as int == 0
                &&& net.pos.w@.len() == h * (net.pos.width * net.pos.k) && net.pos.b@.len() >= h
                &&& forall|i: int|
                    0 <= i < net.blocks@.len() ==> (#[trigger] net.blocks@[i]).fits(h)
                &&& net.n_heads * net.head_dim <= h
                &&& net.final_ln.w@.len() == h && net.final_ln.b@.len() >= h
                &&& net.lm_head.inn == h
                &&& net.lm_head.w@.len() == net.lm_head.out * h
                &&& net.lm_head.b@.len() >= net.lm_head.out
            }
        }),
{
    let h = net.config.hidden_size as int;
    assert(features_of(net.convs@) == c);
    if net.fits() {
        assert forall|i: int| 0 <= i < net.convs@.len() implies {
            let l = #[trigger] net.convs@[i];
            &&& l.shape.stride > 0
            &&& l.w@.len() == l.shape.out_ch * (l.shape.in_ch * l.shape.k)
            &&& l.b@.len() >= l.shape.out_ch
            &&& l.ln matches Some(n) ==> n.w@.len() == l.shape.out_ch && n.b@.len()
                >= l.shape.out_ch
        } by {
            assert(net.convs@[i].fits());
        }
    }
}

/// An encoder layer fits frames of `h` features exactly where its parts have the
/// weights that `h`, and the width of its intermediate part, ask for.
pub proof fn law_block_fits_iff<R: Weight>(block: Block<R>, h: int)
    ensures
        ({
            let m = block.ff_inter.out as int;
            block.fits(h) <==> {
                &&& block.ln_attn.w@.len() == h && block.ln_attn.b@.len() >= h
                &&& block.q.inn == h && block.q.out == h && block.q.w@.len() == h * h
                    && block.q.b@.len() >= h
                &&& block.k.inn == h && block.k.out == h && block.k.w@.len() == h * h
                    && block.k.b@.len() >= h
                &&& block.v.inn == h && block.v.out == h && block.v.w@.len() == h * h
                    && block.v.b@.len() >= h
                &&& block.out.inn == h && block.out.out == h && block.out.w@.len() == h * h
                    && block.out.b@.len() >= h
                &&& block.ln_ff.w@.len() == h && block.ln_ff.b@.len() >= h
                &&& block.ff_inter.inn == h && block.ff_inter.w@.len() == m * h
                    && block.ff_inter.b@.len() >= m
                &&& block.ff_out.inn == m && block.ff_out.out == h && block.ff_out.w@.len() == h * m
                    && block.ff_out.b@.len() >= h
            }
        }),
{
}

/// Integers as numbers of a network add, subtract and multiply as numbers do, as
/// long as the result fits; the error linear unit keeps what is positive and
/// nothing else; and the bits of an element are its number.
pub proof fn law_integers_are_exact(a: i64, b: i64, single: u32, half: u16)
    ensures
        i64::MIN <= a + b <= i64::MAX ==> a.plus_of(b) == a + b,
        i64::MIN <= a - b <= i64::MAX ==> a.minus_of(b) == a - b,
        i64::MIN <= a * b <= i64::MAX ==> a.times_of(b) == a * b,
        a >= 0 ==> a.gelu_of() == a,
        a <= 0 ==> a.gelu_of() == 0,
        i64::of_single(single) == single,
        i64::of_half(half) == half,
{
}

/// A convolution refuses an input exactly where the samples are not those of its
/// channels, or a channel is shorter than its kernel; the first goes before the
/// second.
pub proof fn law_conv_refuses_iff(shape: ConvShape, len: usize, in_len: usize)
    ensures
        conv_error(shape, len, in_len) is None <==> len == shape.in_ch * in_len && in_len
            >= shape.k,
        len != shape.in_ch * in_len ==> conv_error(shape, len, in_len) == Some(
            ConvError::InputSize { len, in_ch: shape.in_ch, in_len },
        ),
        len == shape.in_ch * in_len && in_len < shape.k ==> conv_error(shape, len, in_len) == Some(
            ConvError::ShorterThanKernel { in_len, k: shape.k },
        ),
{
}

} // verus!
