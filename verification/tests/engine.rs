use ctc_forced_aligner_rs::config::{
    default_conv_kernel, default_feat_extract_norm, ModelConfig,
};
use ctc_forced_aligner_rs::cpu_engine::{
    attend, Block, Conv, CpuEngine, Dense, Norm, PosEmbed, Weight,
};
use ctc_forced_aligner_rs::emissions::{
    emissions_of, generate_emissions, generate_emissions_logits, Cutting, EmissionError,
};
use ctc_forced_aligner_rs::kernels::{ConvError, ConvShape, Number, StackError};
use ctc_forced_aligner_rs::raw_tensor::Decode;
use ctc_forced_aligner_rs::rows::Real;

/// A single-precision number.
#[derive(Debug, Clone, Copy, PartialEq)]
struct F32(f32);

impl Number for F32 {
    fn zero_of() -> Self {
        F32(0.0)
    }

    fn plus_of(self, rhs: Self) -> Self {
        F32(self.0 + rhs.0)
    }

    fn times_of(self, rhs: Self) -> Self {
        F32(self.0 * rhs.0)
    }

    fn zero() -> Self {
        F32(0.0)
    }

    fn plus(self, rhs: Self) -> Self {
        F32(self.0 + rhs.0)
    }

    fn times(self, rhs: Self) -> Self {
        F32(self.0 * rhs.0)
    }
}

impl Real for F32 {
    fn minus_of(self, rhs: Self) -> Self {
        F32(self.0 - rhs.0)
    }

    fn over_of(self, rhs: Self) -> Self {
        F32(self.0 / rhs.0)
    }

    fn recip_of(self) -> Self {
        F32(self.0.recip())
    }

    fn root_of(self) -> Self {
        F32(self.0.sqrt())
    }

    fn exp_of(self) -> Self {
        F32(self.0.exp())
    }

    fn ln_of(self) -> Self {
        F32(self.0.ln())
    }

    fn greater_of(self, rhs: Self) -> Self {
        F32(self.0.max(rhs.0))
    }

    fn least_of() -> Self {
        F32(f32::NEG_INFINITY)
    }

    fn count_of(n: usize) -> Self {
        F32(n as f32)
    }

    fn minus(self, rhs: Self) -> Self {
        F32(self.0 - rhs.0)
    }

    fn over(self, rhs: Self) -> Self {
        F32(self.0 / rhs.0)
    }

    fn recip(self) -> Self {
        F32(self.0.recip())
    }

    fn root(self) -> Self {
        F32(self.0.sqrt())
    }

    fn exponential(self) -> Self {
        F32(self.0.exp())
    }

    fn logarithm(self) -> Self {
        F32(self.0.ln())
    }

    fn greater(self, rhs: Self) -> Self {
        F32(self.0.max(rhs.0))
    }

    fn least() -> Self {
        F32(f32::NEG_INFINITY)
    }

    fn count(n: usize) -> Self {
        F32(n as f32)
    }
}

impl Decode for F32 {
    fn of_single(bits: u32) -> Self {
        F32(f32::from_bits(bits))
    }

    fn of_half(bits: u16) -> Self {
        F32(half::f16::from_bits(bits).to_f32())
    }

    fn from_single(bits: u32) -> Self {
        F32(f32::from_bits(bits))
    }

    fn from_half(bits: u16) -> Self {
        F32(half::f16::from_bits(bits).to_f32())
    }
}

impl Weight for F32 {
    fn gelu_of(self) -> Self {
        self.gelu()
    }

    fn product_of(x: Vec<Self>, w: Vec<Self>, rows: usize, inn: usize, out: usize) -> Vec<Self> {
        Self::product(&x, &w, rows, inn, out)
    }

    fn gelu(self) -> Self {
        F32(gelu(self.0))
    }

    fn product(x: &[Self], w: &[Self], rows: usize, inn: usize, out: usize) -> Vec<Self> {
        let mut r = Vec::new();
        for i in 0..rows {
            for j in 0..out {
                r.push(F32((0..inn).map(|d| x[i * inn + d].0 * w[j * inn + d].0).sum()));
            }
        }
        r
    }
}

fn gelu(x: f32) -> f32 {
    0.5 * x * (1.0 + libm::erff(x / std::f32::consts::SQRT_2))
}

/// Numbers between -1 and 1, always the same.
struct Source(u64);

impl Source {
    fn next(&mut self) -> f32 {
        self.0 = self.0.wrapping_mul(6364136223846793005).wrapping_add(1442695040888963407);
        ((self.0 >> 40) as f32 / (1u64 << 23) as f32) - 1.0
    }

    fn list(&mut self, n: usize) -> Vec<F32> {
        (0..n).map(|_| F32(self.next())).collect()
    }

    fn dense(&mut self, inn: usize, out: usize) -> Dense<F32> {
        Dense { w: self.list(out * inn), b: self.list(out), out, inn }
    }

    fn norm(&mut self, dim: usize) -> Norm<F32> {
        Norm { w: self.list(dim), b: self.list(dim), eps: F32(1e-5) }
    }

    fn conv(&mut self, in_ch: usize, out_ch: usize, k: usize, stride: usize, ln: bool) -> Conv<F32> {
        Conv {
            w: self.list(out_ch * in_ch * k),
            b: self.list(out_ch),
            shape: ConvShape { out_ch, in_ch, k, stride },
            ln: if ln { Some(self.norm(out_ch)) } else { None },
        }
    }
}

fn config(hidden_size: usize) -> ModelConfig {
    ModelConfig {
        hidden_size,
        num_hidden_layers: 2,
        num_attention_heads: 2,
        intermediate_size: 5,
        vocab_size: 3,
        conv_dim: vec![3, 4],
        conv_kernel: default_conv_kernel(),
        conv_stride: vec![2, 2],
        conv_bias: true,
        do_stable_layer_norm: true,
        feat_extract_norm: default_feat_extract_norm(),
        num_conv_pos_embeddings: 4,
        num_conv_pos_embedding_groups: 2,
        pad_token_id: None,
    }
}

/// An engine of two convolutions and two layers, six features to a frame.
fn engine() -> CpuEngine<F32> {
    let mut s = Source(11);
    let h = 6;
    let mut blocks = Vec::new();
    for _ in 0..2 {
        blocks.push(Block {
            ln_attn: s.norm(h),
            q: s.dense(h, h),
            k: s.dense(h, h),
            v: s.dense(h, h),
            out: s.dense(h, h),
            ln_ff: s.norm(h),
            ff_inter: s.dense(h, 5),
            ff_out: s.dense(5, h),
        });
    }
    CpuEngine {
        config: config(h),
        convs: vec![s.conv(1, 3, 3, 2, true), s.conv(3, 4, 2, 2, false)],
        feat_ln: s.norm(4),
        feat: s.dense(4, h),
        pos: PosEmbed { w: s.list(h * 3 * 4), b: s.list(h), k: 4, width: 3 },
        blocks,
        n_heads: 2,
        head_dim: 3,
        final_ln: s.norm(h),
        lm_head: s.dense(h, 3),
    }
}

// The same forward pass, written out over frames of plain numbers.

type Frames = Vec<Vec<f32>>;

fn linear(d: &Dense<F32>, x: &Frames) -> Frames {
    x.iter()
        .map(|row| {
            (0..d.out)
                .map(|o| {
                    let dot: f32 = (0..d.inn).map(|i| row[i] * d.w[o * d.inn + i].0).sum();
                    dot + d.b[o].0
                })
                .collect()
        })
        .collect()
}

fn layer_norm(n: &Norm<F32>, x: &Frames) -> Frames {
    x.iter()
        .map(|row| {
            let dim = row.len() as f32;
            let mean = row.iter().sum::<f32>() / dim;
            let var = row.iter().map(|v| (v - mean) * (v - mean)).sum::<f32>() / dim;
            let inv = 1.0 / (var + n.eps.0).sqrt();
            (0..row.len()).map(|j| (row[j] - mean) * inv * n.w[j].0 + n.b[j].0).collect()
        })
        .collect()
}

fn conv1d(c: &Conv<F32>, x: &Frames) -> Frames {
    let s = &c.shape;
    let t = (x.len() - s.k) / s.stride + 1;
    let mut y: Frames = Vec::new();
    for at in 0..t {
        let mut row = Vec::new();
        for oc in 0..s.out_ch {
            let mut acc = c.b[oc].0;
            for ic in 0..s.in_ch {
                for kk in 0..s.k {
                    acc += x[at * s.stride + kk][ic] * c.w[(oc * s.in_ch + ic) * s.k + kk].0;
                }
            }
            row.push(acc);
        }
        y.push(row);
    }
    if let Some(ln) = &c.ln {
        y = layer_norm(ln, &y);
    }
    y.iter().map(|row| row.iter().map(|v| gelu(*v)).collect()).collect()
}

fn pos_embed(p: &PosEmbed<F32>, x: &Frames) -> Frames {
    let h = x[0].len();
    let pad = (p.k / 2) as i64;
    let mut y: Frames = Vec::new();
    for at in 0..x.len() as i64 {
        let mut row = Vec::new();
        for oc in 0..h {
            let mut acc = p.b[oc].0;
            for local in 0..p.width {
                let ic = oc / p.width * p.width + local;
                for kk in 0..p.k {
                    let from = at + kk as i64 - pad;
                    if from >= 0 && (from as usize) < x.len() {
                        acc += x[from as usize][ic] * p.w[(oc * p.width + local) * p.k + kk].0;
                    }
                }
            }
            row.push(gelu(acc));
        }
        y.push(row);
    }
    y
}

fn attention(b: &Block<F32>, x: &Frames, n_heads: usize, head_dim: usize) -> Frames {
    let (q, k, v) = (linear(&b.q, x), linear(&b.k, x), linear(&b.v, x));
    let mut ctx: Frames = vec![vec![0.0; x[0].len()]; x.len()];
    for head in 0..n_heads {
        let from = head * head_dim;
        for i in 0..x.len() {
            let scores: Vec<f32> = (0..x.len())
                .map(|j| {
                    let dot: f32 = (from..from + head_dim).map(|d| q[i][d] * k[j][d]).sum();
                    (dot / (head_dim as f32).sqrt()).exp()
                })
                .collect();
            let sum: f32 = scores.iter().sum();
            for d in from..from + head_dim {
                ctx[i][d] = (0..x.len()).map(|j| scores[j] / sum * v[j][d]).sum();
            }
        }
    }
    linear(&b.out, &ctx)
}

fn plus(x: &Frames, y: &Frames) -> Frames {
    x.iter()
        .zip(y)
        .map(|(a, b)| a.iter().zip(b).map(|(p, q)| p + q).collect())
        .collect()
}

fn by_hand(e: &CpuEngine<F32>, waveform: &[F32]) -> Frames {
    let mut x: Frames = waveform.iter().map(|v| vec![v.0]).collect();
    for c in &e.convs {
        x = conv1d(c, &x);
    }
    x = linear(&e.feat, &layer_norm(&e.feat_ln, &x));
    x = plus(&x, &pos_embed(&e.pos, &x));
    for b in &e.blocks {
        x = plus(&x, &attention(b, &layer_norm(&b.ln_attn, &x), e.n_heads, e.head_dim));
        let inter: Frames = linear(&b.ff_inter, &layer_norm(&b.ln_ff, &x))
            .iter()
            .map(|row| row.iter().map(|v| gelu(*v)).collect())
            .collect();
        x = plus(&x, &linear(&b.ff_out, &inter));
    }
    linear(&e.lm_head, &layer_norm(&e.final_ln, &x))
}

fn close(a: &[F32], b: &Frames) -> bool {
    let flat: Vec<f32> = b.concat();
    a.len() == flat.len() && a.iter().zip(&flat).all(|(x, y)| (x.0 - y).abs() < 1e-3)
}

#[test]
fn the_forward_pass_frame_by_frame() {
    let e = engine();
    assert!(e.check());
    let wave = Source(5).list(29);
    let (logits, t, vocab) = e.forward_logits(&wave).unwrap();
    assert_eq!((t, vocab), (7, 3));
    assert!(close(&logits, &by_hand(&e, &wave)));
}

#[test]
fn an_odd_kernel_of_position() {
    let mut e = engine();
    let mut s = Source(17);
    e.pos = PosEmbed { w: s.list(6 * 2 * 3), b: s.list(6), k: 3, width: 2 };
    assert!(e.check());
    let wave = s.list(20);
    let (logits, _, _) = e.forward_logits(&wave).unwrap();
    assert!(close(&logits, &by_hand(&e, &wave)));
}

#[test]
fn short_waveforms_are_refused_by_the_engine() {
    let e = engine();
    assert_eq!(
        e.forward_logits(&Source(1).list(2)).unwrap_err(),
        StackError::ShorterThanKernel { in_len: 2, k: 3 }
    );
    let mut e = engine();
    e.convs[1].shape.in_ch = 2;
    e.convs[1].w.truncate(4 * 2 * 2);
    assert!(e.check());
    assert_eq!(
        e.forward_logits(&Source(1).list(9)).unwrap_err(),
        StackError::ChannelMismatch { layer: 1, got: 3, expected: 2 }
    );
}

#[test]
fn a_convolution_refuses_what_does_not_fit() {
    let e = engine();
    let conv = &e.convs[0];
    let mut s = Source(31);
    assert_eq!(
        conv.forward(&s.list(8), 9).unwrap_err(),
        ConvError::InputSize { len: 8, in_ch: 1, in_len: 9 }
    );
    assert_eq!(
        conv.forward(&s.list(2), 2).unwrap_err(),
        ConvError::ShorterThanKernel { in_len: 2, k: 3 }
    );
    let (y, n) = conv.forward(&s.list(9), 9).unwrap();
    assert_eq!(n, (9 - 3) / conv.shape.stride + 1);
    assert_eq!(y.len(), conv.shape.out_ch * n);
}

#[test]
fn without_convolutions_each_sample_is_a_frame() {
    let mut e = engine();
    e.convs.clear();
    e.feat_ln = Norm { w: vec![F32(1.0)], b: vec![F32(0.5)], eps: F32(0.1) };
    let mut s = Source(37);
    e.feat = Dense { w: s.list(6), b: s.list(6), out: 6, inn: 1 };
    assert!(e.check());
    let wave = s.list(5);
    let (logits, t, _) = e.forward_logits(&wave).unwrap();
    assert_eq!(t, 5);
    assert!(close(&logits, &by_hand(&e, &wave)));
}

#[test]
fn parts_that_do_not_fit_are_found() {
    let broken: Vec<fn(&mut CpuEngine<F32>)> = vec![
        |e| e.convs[0].shape.stride = 0,
        |e| e.convs[0].w.truncate(2),
        |e| e.convs[1].b.clear(),
        |e| e.convs[0].ln.as_mut().unwrap().w.truncate(1),
        |e| e.feat_ln.b.clear(),
        |e| e.feat.out = 5,
        |e| e.pos.width = 0,
        |e| e.pos.width = 4,
        |e| e.pos.k = 5,
        |e| e.blocks[1].q.inn = 5,
        |e| e.blocks[0].ff_out.w.truncate(1),
        |e| e.n_heads = 3,
        |e| e.final_ln.w.truncate(5),
        |e| e.lm_head.b.truncate(2),
    ];
    for spoil in broken {
        let mut e = engine();
        spoil(&mut e);
        assert!(!e.check());
    }
}

#[test]
fn integers_run_through_an_engine() {
    let e: CpuEngine<i64> = CpuEngine {
        config: config(2),
        convs: vec![Conv {
            w: vec![1, 1],
            b: vec![0],
            shape: ConvShape { out_ch: 1, in_ch: 1, k: 2, stride: 2 },
            ln: None,
        }],
        feat_ln: Norm { w: vec![1], b: vec![5], eps: 0 },
        feat: Dense { w: vec![1, 2], b: vec![0, 1], out: 2, inn: 1 },
        pos: PosEmbed { w: vec![1, 1], b: vec![0, 0], k: 1, width: 1 },
        blocks: vec![],
        n_heads: 1,
        head_dim: 2,
        final_ln: Norm { w: vec![1, 1], b: vec![3, 4], eps: 0 },
        lm_head: Dense { w: vec![1, 0, 0, 1, 1, 1], b: vec![0, 0, 100], out: 3, inn: 2 },
    };
    assert!(e.check());
    let (logits, t, vocab) = e.forward_logits(&[1, 2, 3, 4]).unwrap();
    assert_eq!((t, vocab), (2, 3));
    assert_eq!(logits, vec![3, 4, 107, 3, 4, 107]);
}

#[test]
fn short_audio_goes_whole() {
    let e = engine();
    let wave = Source(3).list(30);
    let cut = Cutting { window: 31, context: 4, context_frames: 1, extension_frames: 9 };
    let whole = e.forward_logits(&wave).unwrap();
    assert_eq!(generate_emissions_logits(&e, &wave, &cut).unwrap(), whole);
    let other = Cutting { window: 99, context: 70, context_frames: 3, extension_frames: 0 };
    assert_eq!(generate_emissions_logits(&e, &wave, &other).unwrap(), whole);
    let huge = Cutting { window: 31, context: usize::MAX, context_frames: 0, extension_frames: 0 };
    assert_eq!(generate_emissions_logits(&e, &wave, &huge).unwrap(), whole);
}

#[test]
fn one_frame_attends_to_itself() {
    let v: Vec<i64> = vec![4, -7, 0, i64::MAX, i64::MIN, 9];
    let q = vec![3, 1, -8, 5, 5, 1];
    let k = vec![-2, 6, 6, 0, 1, 1];
    assert_eq!(attend(&q, &k, &v, 1, 6, 3, 2), v);
    assert_eq!(attend(&k, &v, &v, 1, 6, 2, 3), v);
    let mut s = Source(23);
    let (q, k, v) = (s.list(6), s.list(6), s.list(6));
    assert_eq!(attend(&q, &k, &v, 1, 6, 3, 2), v);
}

#[test]
fn groups_of_channels_are_independent() {
    for k in [3, 4] {
        let mut s = Source(29);
        let pos = PosEmbed { w: s.list(6 * 2 * k), b: s.list(6), k, width: 2 };
        let a = s.list(5 * 6);
        let mut b = a.clone();
        // Only the channels of the middle group change.
        for i in 0..5 {
            b[i * 6 + 2] = F32(b[i * 6 + 2].0 + 1.0);
            b[i * 6 + 3] = F32(b[i * 6 + 3].0 - 2.0);
        }
        let ya = pos.forward(&a, 5, 6);
        let yb = pos.forward(&b, 5, 6);
        assert_eq!((ya.len(), yb.len()), (30, 30));
        for i in 0..5 {
            for c in [0, 1, 4, 5] {
                assert_eq!(ya[i * 6 + c], yb[i * 6 + c]);
            }
        }
        assert!(ya != yb);
    }
}

#[test]
fn long_audio_goes_in_windows() {
    let e = engine();
    let wave = Source(3).list(50);
    let cut = Cutting { window: 20, context: 8, context_frames: 2, extension_frames: 1 };
    let (logits, t, c) = generate_emissions_logits(&e, &wave, &cut).unwrap();
    // Windows of 36 samples give 8 frames, of which frames 2 to 6 stay.
    let mut wanted = Vec::new();
    for w in 0..3i64 {
        let chunk: Vec<F32> = (0..36i64)
            .map(|j| {
                let p = w * 20 - 8 + j;
                if p >= 0 && p < 50 { wave[p as usize] } else { F32(0.0) }
            })
            .collect();
        let (out, frames, _) = e.forward_logits(&chunk).unwrap();
        assert_eq!(frames, 8);
        wanted.extend_from_slice(&out[2 * 3..7 * 3]);
    }
    assert_eq!((t, c), (14, 3));
    assert_eq!(logits, wanted[..14 * 3].to_vec());
}

#[test]
fn emissions_have_a_star_column() {
    let e = engine();
    let wave = Source(3).list(30);
    let cut = Cutting { window: 31, context: 4, context_frames: 1, extension_frames: 0 };
    let (emissions, t, c) = generate_emissions(&e, &wave, &cut).unwrap();
    assert_eq!((t, c), (7, 4));
    for row in emissions.chunks(4) {
        let sum: f32 = row[..3].iter().map(|v| v.0.exp()).sum();
        assert!((sum - 1.0).abs() < 1e-5);
        assert_eq!(row[3], F32(0.0));
    }
    assert_eq!(emissions_of::<i64>(vec![3, 7, 7], 1, 3), vec![-5, -1, -1, 0]);
}

#[test]
fn no_emissions_say_why() {
    let mut e = engine();
    let wave = Source(3).list(50);
    let cut = Cutting { window: 2, context: 0, context_frames: 0, extension_frames: 0 };
    assert_eq!(
        generate_emissions(&e, &wave, &cut).unwrap_err(),
        EmissionError::Refused { error: StackError::ShorterThanKernel { in_len: 2, k: 3 } }
    );
    e.lm_head = Dense { w: vec![], b: vec![], out: 0, inn: 6 };
    let cut = Cutting { window: 20, context: 8, context_frames: 2, extension_frames: 1 };
    assert_eq!(generate_emissions(&e, &wave, &cut).unwrap_err(), EmissionError::NoFrames);
}
