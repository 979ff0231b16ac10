use ctc_forced_aligner_rs::ctc::{forced_align, AlignError, Score};

/// A log-probability in single precision.
#[derive(Debug, Clone, Copy, PartialEq)]
struct LogProb(f32);

impl Score for LogProb {
    fn plus_of(self, rhs: Self) -> Self {
        LogProb(self.0 + rhs.0)
    }

    fn above_of(self, rhs: Self) -> bool {
        self.0 > rhs.0
    }

    fn floor_of() -> Self {
        LogProb(f32::NEG_INFINITY)
    }

    fn ordinary(self) -> bool {
        self.0 <= 0.0
    }

    fn floor_is_least(_x: Self) {}

    fn neg_infinity() -> Self {
        LogProb(f32::NEG_INFINITY)
    }

    fn plus(self, rhs: Self) -> Self {
        LogProb(self.0 + rhs.0)
    }

    fn above(self, rhs: Self) -> bool {
        self.0 > rhs.0
    }
}

/// What a path says: runs merge, blanks go.
fn collapse(path: &[usize], blank: usize) -> Vec<usize> {
    let mut said = Vec::new();
    for k in 0..path.len() {
        if path[k] != blank && (k == 0 || path[k - 1] != path[k]) {
            said.push(path[k]);
        }
    }
    said
}

/// Every path of `t` frames over `c` tokens.
fn all_paths(t: usize, c: usize) -> Vec<Vec<usize>> {
    let mut paths = vec![Vec::new()];
    for _ in 0..t {
        let mut longer = Vec::new();
        for p in &paths {
            for v in 0..c {
                let mut q: Vec<usize> = p.clone();
                q.push(v);
                longer.push(q);
            }
        }
        paths = longer;
    }
    paths
}

fn path_score(log_probs: &[i64], c: usize, path: &[usize]) -> i64 {
    let mut sum: i64 = 0;
    for k in 0..path.len() {
        sum += log_probs[k * c + path[k]];
    }
    sum
}

#[test]
fn simple_path_no_repeats() {
    // T=3, C=3 (blank=0, a=1, b=2), targets = [a, b]
    let t = 3usize;
    let c = 3usize;
    let mut log_probs = vec![f32::NEG_INFINITY; t * c];
    // t0 prefers blank, t1 prefers a, t2 prefers b
    log_probs[0 * c + 0] = 0.0;
    log_probs[1 * c + 1] = 0.0;
    log_probs[2 * c + 2] = 0.0;
    // weak alternatives
    for time in 0..t {
        for cls in 0..c {
            if log_probs[time * c + cls].is_infinite() {
                log_probs[time * c + cls] = -10.0;
            }
        }
    }
    let log_probs: Vec<LogProb> = log_probs.into_iter().map(LogProb).collect();
    let (paths, _scores) = forced_align(&log_probs, t, c, &[1, 2], 0).unwrap();
    assert_eq!(paths.len(), 3);
    // Must cover targets a,b somewhere
    assert!(paths.contains(&1));
    assert!(paths.contains(&2));
}

#[test]
fn path_and_scores_frame_by_frame() {
    let log_probs: Vec<i64> = vec![0, -10, -10, -10, 0, -10, -10, -10, 0];
    let (paths, scores) = forced_align(&log_probs, 3, 3, &[1, 2], 0).unwrap();
    assert_eq!(paths, vec![0, 1, 2]);
    assert_eq!(scores, vec![0, 0, 0]);
}

#[test]
fn refuses_what_does_not_fit() {
    let zeros: Vec<i64> = vec![0; 9];
    assert_eq!(
        forced_align(&zeros, 3, 2, &[1], 0).unwrap_err(),
        AlignError::LengthMismatch { len: 9, t: 3, c: 2 }
    );
    assert_eq!(
        forced_align(&zeros, 3, 3, &[1], 3).unwrap_err(),
        AlignError::BlankOutOfRange { blank: 3, c: 3 }
    );
    assert_eq!(
        forced_align(&zeros, 3, 3, &[1, 0], 0).unwrap_err(),
        AlignError::TargetIsBlank { blank: 0 }
    );
    assert_eq!(
        forced_align(&zeros, 3, 3, &[3], 0).unwrap_err(),
        AlignError::TargetOutOfRange { c: 3 }
    );
    assert_eq!(forced_align(&zeros, 3, 3, &[], 0).unwrap_err(), AlignError::EmptyTargets);
    let none: Vec<i64> = Vec::new();
    assert_eq!(forced_align(&none, 0, 3, &[1], 0).unwrap_err(), AlignError::NoFrames);
    assert_eq!(
        forced_align(&zeros, 3, 3, &[1, 1, 2], 0).unwrap_err(),
        AlignError::TargetsTooLong { t: 3, l: 3, repeats: 1 }
    );
}

#[test]
fn repeats_need_a_blank_between_them() {
    let zeros: Vec<i64> = vec![0; 12];
    assert!(forced_align(&zeros, 4, 3, &[1, 1, 2], 0).is_ok());
    let (paths, _) = forced_align(&zeros[..9], 3, 3, &[1, 1], 0).unwrap();
    assert_eq!(paths, vec![1, 0, 1]);
}

#[test]
fn no_alignment_beats_the_one_found() {
    let t = 5;
    let c = 3;
    let mut seed: u64 = 7;
    for _ in 0..40 {
        let mut log_probs: Vec<i64> = Vec::new();
        for _ in 0..t * c {
            seed = seed.wrapping_mul(6364136223846793005).wrapping_add(1442695040888963407);
            log_probs.push(-((seed >> 40) as i64) - 1);
        }
        for targets in [vec![1], vec![1, 2], vec![2, 2], vec![1, 2, 1]] {
            let (paths, scores) = forced_align(&log_probs, t, c, &targets, 0).unwrap();
            assert_eq!(collapse(&paths, 0), targets);
            let found = path_score(&log_probs, c, &paths);
            assert_eq!(found, scores.iter().sum::<i64>());
            let best = all_paths(t, c)
                .iter()
                .filter(|p| collapse(p, 0) == targets)
                .map(|p| path_score(&log_probs, c, p))
                .max()
                .unwrap();
            assert_eq!(found, best);
        }
    }
}

#[test]
fn a_tie_stays_where_it_is() {
    // At the last frame the blank and the first token tie above the second
    // token.  The walk stays on the second token, though both paths through
    // the tie score higher.
    let log_probs: Vec<i64> = vec![-5, 0, -9, -1, -1, -9, -20, -9, 0];
    let (paths, scores) = forced_align(&log_probs, 3, 3, &[1, 2], 0).unwrap();
    assert_eq!(paths, vec![1, 2, 2]);
    assert_eq!(scores, vec![0, -9, 0]);
    assert!(path_score(&log_probs, 3, &[1, 1, 2]) > path_score(&log_probs, 3, &paths));
}

#[test]
fn fixed_point_scores() {
    assert_eq!(<i64 as Score>::neg_infinity(), i64::MIN);
    assert_eq!(i64::MIN.plus(5), i64::MIN);
    assert_eq!(i64::MAX.plus(5), i64::MAX);
    assert_eq!((i64::MIN + 1).plus(-1), i64::MIN + 1);
    assert_eq!(3i64.plus(-4), -1);
    assert!(0i64.above(-1));
    assert!(!(-1i64).above(-1));
}

#[test]
fn ties_do_not_change_what_is_said() {
    let t = 6;
    let c = 3;
    let mut seed: u64 = 3;
    for _ in 0..200 {
        let mut log_probs: Vec<i64> = Vec::new();
        for _ in 0..t * c {
            seed = seed.wrapping_mul(6364136223846793005).wrapping_add(1442695040888963407);
            log_probs.push(-((seed >> 60) as i64 % 2));
        }
        for targets in [vec![1], vec![2, 1], vec![1, 1], vec![1, 2, 1], vec![2, 2, 1]] {
            let (paths, _) = forced_align(&log_probs, t, c, &targets, 0).unwrap();
            assert_eq!(collapse(&paths, 0), targets);
        }
    }
}

#[test]
fn paths_that_say_the_targets_are_walks() {
    // The state at a frame: twice the tokens said so far, less one on a token.
    let targets = vec![1, 2, 2];
    let mut found = 0;
    for path in all_paths(6, 3).iter().filter(|p| collapse(p, 0) == targets) {
        let states: Vec<i64> = (0..6)
            .map(|k| {
                let said = collapse(&path[..k + 1], 0).len() as i64;
                if path[k] == 0 { 2 * said } else { 2 * said - 1 }
            })
            .collect();
        assert!(states[0] == 0 || states[0] == 1);
        assert!(states[5] == 5 || states[5] == 6);
        for k in 1..6 {
            let moved = states[k] - states[k - 1];
            let skips = states[k] % 2 == 1
                && states[k] >= 3
                && targets[states[k] as usize / 2] != targets[states[k] as usize / 2 - 1];
            assert!(moved == 0 || moved == 1 || (moved == 2 && skips));
        }
        found += 1;
    }
    assert!(found > 0);
}

#[test]
fn single_precision_says_the_targets() {
    let (t, c) = (7, 3);
    let mut seed: u64 = 11;
    for _ in 0..60 {
        let mut log_probs: Vec<LogProb> = Vec::new();
        for _ in 0..t * c {
            seed = seed.wrapping_mul(6364136223846793005).wrapping_add(1442695040888963407);
            log_probs.push(LogProb(-((seed >> 61) as f32) / 4.0));
        }
        for targets in [vec![1], vec![2, 2], vec![1, 2, 1]] {
            let (paths, _) = forced_align(&log_probs, t, c, &targets, 0).unwrap();
            assert_eq!(collapse(&paths, 0), targets);
        }
    }
}
