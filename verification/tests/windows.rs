use ctc_forced_aligner_rs::windows::{
    add_star_column, cut_windows, join_windows, plan_emissions, plan_windows,
};

#[test]
fn windows_are_planned() {
    let plan = plan_windows(1_000_000, 480_000, 32_000);
    assert_eq!((plan.n_windows, plan.extension, plan.chunk_len), (3, 440_000, 544_000));
    let plan = plan_windows(960_000, 480_000, 0);
    assert_eq!((plan.n_windows, plan.extension, plan.chunk_len), (2, 0, 480_000));
    assert_eq!(plan_emissions(479_999, 480_000, 32_000), None);
    assert_eq!(plan_emissions(480_000, 480_000, 32_000).unwrap().n_windows, 1);
}

#[test]
fn windows_carry_their_context() {
    let chunks = cut_windows(&[1, 2, 3, 4, 5], 2, 1, 0);
    assert_eq!(chunks, vec![vec![0, 1, 2, 3], vec![2, 3, 4, 5], vec![4, 5, 0, 0]]);
}

#[test]
fn each_sample_stands_in_one_window() {
    let wave: Vec<usize> = (100..117).collect();
    let (window, context) = (5, 3);
    let chunks = cut_windows(&wave, window, context, 0);
    assert_eq!(chunks.len(), 4);
    for p in 0..wave.len() {
        assert_eq!(chunks[p / window][context + p % window], wave[p]);
    }
}

#[test]
fn windows_are_joined_without_context() {
    // Two windows of 5 frames of 2 scores; one frame of context.
    let first: Vec<i32> = (0..10).collect();
    let second: Vec<i32> = (10..20).collect();
    let outs = vec![(first, 5, 2), (second, 5, 2)];
    let (all, t, c) = join_windows(&outs, 1, 0).unwrap();
    assert_eq!((t, c), (8, 2));
    assert_eq!(all, vec![2, 3, 4, 5, 6, 7, 8, 9, 12, 13, 14, 15, 16, 17, 18, 19]);
    let (all, t, _) = join_windows(&outs, 2, 3).unwrap();
    assert_eq!(t, 1);
    assert_eq!(all, vec![4, 5]);
    let (all, t, _) = join_windows(&outs, 0, 0).unwrap();
    assert_eq!(t, 10);
    assert_eq!(all.len(), 20);
    let (all, t, _) = join_windows(&outs, 9, 0).unwrap();
    assert_eq!((all.len(), t), (0, 0));
}

#[test]
fn no_frames_are_refused() {
    let none: Vec<(Vec<i32>, usize, usize)> = vec![];
    assert!(join_windows(&none, 1, 1).is_err());
    assert!(join_windows(&[(vec![1], 1, 1), (vec![], 0, 0)], 0, 0).is_err());
}

#[test]
fn the_star_column_comes_last() {
    assert_eq!(add_star_column(&[1, 2, 3, 4], 2, 2, 0), vec![1, 2, 0, 3, 4, 0]);
    assert_eq!(add_star_column(&[], 2, 0, 7), vec![7, 7]);
    assert_eq!(add_star_column::<i32>(&[], 0, 3, 7), Vec::<i32>::new());
}

#[test]
fn joined_windows_shift_no_frame() {
    // Windows of 3 frames with 2 frames of context, 320 samples to a frame.
    let (a, b) = (3, 2);
    for n in [960, 961, 1000, 1920, 2000, 5000] {
        let plan = plan_windows(n, 320 * a, 320 * b);
        let t = (plan.chunk_len - 400) / 320 + 1;
        assert_eq!(t, a + 2 * b - 1);
        // Each frame carries its own number, counted from the waveform's start.
        let outs: Vec<(Vec<i64>, usize, usize)> = (0..plan.n_windows)
            .map(|w| ((0..t).map(|i| (w * a + i) as i64 - b as i64).collect(), t, 1))
            .collect();
        let (frames, kept, _) = join_windows(&outs, b, plan.extension / 320).unwrap();
        assert_eq!(kept, (n + 319) / 320);
        assert_eq!(frames, (0..kept as i64).collect::<Vec<i64>>());
    }
}
