use ctc_forced_aligner_rs::kernels::{
    add_bias, add_rows, conv_out_len, conv_row, head_context, head_scores, pos_conv_row, ConvError,
    ConvShape, Number,
};
use ctc_forced_aligner_rs::layout::{merge_heads, pad_time, split_head, transpose};

fn model_stack() -> Vec<ConvShape> {
    let kernels = [10, 3, 3, 3, 3, 2, 2];
    let strides = [5, 2, 2, 2, 2, 2, 2];
    (0..7)
        .map(|i| ConvShape {
            out_ch: 512,
            in_ch: if i == 0 { 1 } else { 512 },
            k: kernels[i],
            stride: strides[i],
        })
        .collect()
}

#[test]
fn integers_wrap() {
    assert_eq!(<i64 as Number>::zero(), 0);
    assert_eq!(Number::plus(i64::MAX, 1), i64::MIN);
    assert_eq!(Number::times(3i64, -4), -12);
}

#[test]
fn convolution_lengths() {
    let shape = ConvShape { out_ch: 2, in_ch: 2, k: 3, stride: 2 };
    assert_eq!(conv_out_len(&shape, 14, 7), Ok(3));
    assert_eq!(conv_out_len(&shape, 6, 3), Ok(1));
    assert_eq!(
        conv_out_len(&shape, 13, 7),
        Err(ConvError::InputSize { len: 13, in_ch: 2, in_len: 7 })
    );
    assert_eq!(
        conv_out_len(&shape, 4, 2),
        Err(ConvError::ShorterThanKernel { in_len: 2, k: 3 })
    );
}

#[test]
fn a_convolution_channel() {
    let shape = ConvShape { out_ch: 2, in_ch: 2, k: 2, stride: 2 };
    // Channels 1 2 3 4 5 and 10 20 30 40 50.
    let x: Vec<i64> = vec![1, 2, 3, 4, 5, 10, 20, 30, 40, 50];
    let w: Vec<i64> = vec![1, 0, 0, 0, 1, 2, 3, 4];
    let b: Vec<i64> = vec![100, 1000];
    assert_eq!(conv_row(&shape, &x, 5, &w, &b, 0), vec![101, 103]);
    assert_eq!(
        conv_row(&shape, &x, 5, &w, &b, 1),
        vec![1000 + 1 + 4 + 30 + 80, 1000 + 3 + 8 + 90 + 160]
    );
}

/// How many frames the model's convolutions make of `n` samples.
fn model_frames(n: usize) -> Result<usize, ConvError> {
    let mut len = n;
    for shape in model_stack() {
        len = conv_out_len(&shape, shape.in_ch * len, len)?;
    }
    Ok(len)
}

#[test]
fn one_frame_for_each_twenty_milliseconds() {
    for n in [400, 719, 720, 16_000, 480_000, 544_000] {
        assert_eq!(model_frames(n), Ok((n - 400) / 320 + 1), "{n}");
    }
}

#[test]
fn short_waveforms_are_refused() {
    for n in [0, 9, 10, 39, 100, 200, 399] {
        assert!(
            matches!(model_frames(n), Err(ConvError::ShorterThanKernel { .. })),
            "{n}"
        );
    }
    assert_eq!(model_frames(12), Err(ConvError::ShorterThanKernel { in_len: 1, k: 3 }));
}

#[test]
fn a_grouped_convolution_keeps_the_frames() {
    // Two channels, each its own group; a kernel of 2 loses the last frame.
    let (t, h, k) = (3, 2, 2);
    let hidden: Vec<i64> = vec![1, 10, 2, 20, 3, 30];
    let x = pad_time(&hidden, t, h, k / 2, 0);
    assert_eq!(x, vec![0, 1, 2, 3, 0, 0, 10, 20, 30, 0]);
    let w: Vec<i64> = vec![1, 1, 1, -1];
    let b: Vec<i64> = vec![0, 5];
    assert_eq!(pos_conv_row(&x, t + 2, &w, &b, 1, k, 0, t), vec![1, 3, 5]);
    assert_eq!(pos_conv_row(&x, t + 2, &w, &b, 1, k, 1, t), vec![-5, -5, -5]);
    // A kernel of 3, one group of two channels.
    let x = pad_time(&hidden, t, h, 1, 0);
    let w: Vec<i64> = vec![1, 1, 1, 0, 1, 0, 0, 0, 0, 0, 0, 0];
    assert_eq!(pos_conv_row(&x, t + 2, &w, &b, 2, 3, 0, t), vec![13, 26, 35]);
}

#[test]
fn transposing_twice() {
    let m = vec![1, 2, 3, 4, 5, 6];
    let once = transpose(&m, 2, 3);
    assert_eq!(once, vec![1, 4, 2, 5, 3, 6]);
    assert_eq!(transpose(&once, 3, 2), m);
    assert_eq!(transpose::<i32>(&[], 0, 3), Vec::<i32>::new());
}

#[test]
fn heads_side_by_side() {
    let m = vec![1, 2, 3, 4, 5, 6, 7, 8];
    let heads: Vec<Vec<i32>> = (0..2).map(|n| split_head(&m, 2, 4, n, 2)).collect();
    assert_eq!(heads, vec![vec![1, 2, 5, 6], vec![3, 4, 7, 8]]);
    assert_eq!(merge_heads(&heads, 2, 4, 2, 0), m);
    assert_eq!(merge_heads(&heads, 2, 5, 2, 9), vec![1, 2, 3, 4, 9, 5, 6, 7, 8, 9]);
}

#[test]
fn attention_by_hand() {
    // Two frames, heads of two entries.
    let q: Vec<i64> = vec![1, 2, 3, 4];
    let k: Vec<i64> = vec![5, 6, 7, 8];
    assert_eq!(head_scores(&q, &k, 2, 2, 10), vec![170, 230, 390, 530]);
    let weights: Vec<i64> = vec![1, 0, 2, 3];
    let v: Vec<i64> = vec![10, 20, 30, 40];
    assert_eq!(head_context(&weights, &v, 2, 2), vec![10, 20, 110, 160]);
}

#[test]
fn sums_of_rows() {
    let x: Vec<i64> = vec![1, 2, 3, 4];
    assert_eq!(add_rows(&x, &[10, 20, 30, 40]), vec![11, 22, 33, 44]);
    assert_eq!(add_bias(&x, 2, 2, &[100, 200]), vec![101, 202, 103, 204]);
    assert_eq!(add_bias::<i64>(&[], 3, 0, &[]), Vec::<i64>::new());
}
