//! CTC forced alignment (Viterbi).
//!
//! A label sequence of `L` tokens is laid out as a chain of `2 * L + 1`
//! states: state `2 * k + 1` emits token `k`, and the even states emit the
//! blank.  An alignment walks this chain, one state per frame.  At each frame
//! it may stay, move one state on, or, between two different tokens, jump over
//! the blank that separates them.

use vstd::prelude::*;

use crate::alignment::{
    collapse, in_order, law_path_and_scores, law_possible_paths_spell, law_request_outcome,
    orderly, ordinary_emissions, possible_paths,
};

verus! {

/// The arithmetic that the Viterbi recurrence needs of a log-probability.
///
/// The recurrence adds scores and asks which of two is greater; nothing else.
/// A score type names the two operations as functions of their operands.
pub trait Score: Copy {
    /// The sum of two scores.
    spec fn plus_of(self, rhs: Self) -> Self;

    /// Whether `self` is strictly greater than `rhs`.
    spec fn above_of(self, rhs: Self) -> bool;

    /// The score of an impossible event.
    spec fn floor_of() -> Self;

    /// The scores on which the order and the sum behave as those of
    /// numbers (a float type keeps to the numbers that are not above zero).
    spec fn ordinary(self) -> bool;

    /// The score of an impossible event is above no other.
    proof fn floor_is_least(x: Self)
        ensures
            !Self::floor_of().above_of(x),
    ;

    /// Negative infinity.
    fn neg_infinity() -> (r: Self)
        ensures
            r == Self::floor_of(),
    ;

    /// Adds two scores.
    fn plus(self, rhs: Self) -> (r: Self)
        ensures
            r == self.plus_of(rhs),
    ;

    /// Whether `self > rhs`.
    fn above(self, rhs: Self) -> (r: bool)
        ensures
            r == self.above_of(rhs),
    ;
}

/// Fixed-point scores: `i64::MIN` is negative infinity, sums saturate.
impl Score for i64 {
    open spec fn plus_of(self, rhs: Self) -> Self {
        if self == i64::MIN || rhs == i64::MIN {
            i64::MIN
        } else if self + rhs > i64::MAX {
            i64::MAX
        } else if self + rhs <= i64::MIN {
            (i64::MIN + 1) as i64
        } else {
            (self + rhs) as i64
        }
    }

    open spec fn above_of(self, rhs: Self) -> bool {
        self > rhs
    }

    open spec fn floor_of() -> Self {
        i64::MIN
    }

    open spec fn ordinary(self) -> bool {
        true
    }

    proof fn floor_is_least(x: Self) {
    }

    fn neg_infinity() -> (r: Self) {
        i64::MIN
    }

    fn plus(self, rhs: Self) -> (r: Self) {
        if self == i64::MIN || rhs == i64::MIN {
            i64::MIN
        } else {
            match self.checked_add(rhs) {
                Some(sum) => if sum == i64::MIN {
                    i64::MIN + 1
                } else {
                    sum
                },
                None => if self > 0 {
                    i64::MAX
                } else {
                    i64::MIN + 1
                },
            }
        }
    }

    fn above(self, rhs: Self) -> (r: bool) {
        self > rhs
    }
}

/// Why an alignment request is refused.
#[derive(Debug, Clone, Copy, PartialEq, Eq, Structural)]
pub enum AlignError {
    /// The matrix does not hold `t * c` scores.
    LengthMismatch { len: usize, t: usize, c: usize },
    /// The blank id is not a column of the matrix.
    BlankOutOfRange { blank: usize, c: usize },
    /// The targets name the blank.
    TargetIsBlank { blank: usize },
    /// A target is not a column of the matrix.
    TargetOutOfRange { c: usize },
    /// There is nothing to align.
    EmptyTargets,
    /// There is no frame to align to.
    NoFrames,
    /// The frames are too few for the targets and the blanks between repeats.
    TargetsTooLong { t: usize, l: usize, repeats: usize },
}

/// How many of the first `k` targets equal the target before them.
pub open spec fn repeats_upto(targets: Seq<usize>, k: int) -> int
    decreases k,
{
    if k <= 1 {
        0
    } else {
        repeats_upto(targets, k - 1) + if k <= targets.len() && targets[k - 1] == targets[k - 2] {
            1int
        } else {
            0
        }
    }
}

/// How many targets equal the target before them.
pub open spec fn repeats(targets: Seq<usize>) -> int {
    repeats_upto(targets, targets.len() as int)
}

/// An alignment problem: a `(t, c)` matrix of scores, row by row, the target
/// tokens, and the blank token.
pub struct Lattice<S> {
    pub log_probs: Seq<S>,
    pub t: int,
    pub c: int,
    pub targets: Seq<usize>,
    pub blank: usize,
}

impl<S: Score> Lattice<S> {
    /// The number of states of the chain.
    pub open spec fn states(self) -> int {
        2 * (self.targets.len() as int) + 1
    }

    /// The token that state `i` emits.
    pub open spec fn label(self, i: int) -> usize {
        if i % 2 == 0 {
            self.blank
        } else {
            self.targets[i / 2]
        }
    }

    /// The score of token `v` at frame `time`.
    pub open spec fn emission(self, time: int, v: usize) -> S {
        self.log_probs[time * self.c + v]
    }

    /// Whether an alignment may jump from state `i - 2` to state `i`: both
    /// emit tokens, and the tokens differ.
    pub open spec fn skips(self, i: int) -> bool {
        i % 2 == 1 && i >= 3 && self.targets[i / 2] != self.targets[i / 2 - 1]
    }

    /// The least number of frames that lead from the beginning into state
    /// `i`, its own frame included.
    pub open spec fn fewest(self, i: int) -> int {
        i / 2 + 1 + repeats_upto(
            self.targets,
            if i % 2 == 1 {
                i / 2 + 1
            } else {
                i / 2
            },
        )
    }

    /// The least number of frames that lead from state `i` to the end, its
    /// own frame included.
    pub open spec fn remaining(self, i: int) -> int {
        self.targets.len() - i / 2 + repeats(self.targets) - repeats_upto(self.targets, i / 2 + 1)
            + if i % 2 == 1 {
            0int
        } else {
            1
        }
    }

    /// Whether state `i` can be visited at frame `time` by an alignment that
    /// begins at frame 0 and ends at the last frame.
    pub open spec fn alive(self, time: int, i: int) -> bool {
        &&& 0 <= i < self.states()
        &&& self.fewest(i) <= time + 1
        &&& self.remaining(i) <= self.t - time
    }

    /// The score of the best walk into state `i` at frame `time`, as the
    /// recurrence finds it; negative infinity where no alignment passes.
    pub open spec fn alpha(self, time: int, i: int) -> S
        decreases time,
    {
        if time < 0 || !self.alive(time, i) {
            S::floor_of()
        } else if time == 0 {
            self.emission(0, self.label(i))
        } else {
            let x0 = self.alpha(time - 1, i);
            let x1 = self.alpha(time - 1, i - 1);
            let x2 = if self.skips(i) {
                self.alpha(time - 1, i - 2)
            } else {
                S::floor_of()
            };
            let from = if i == 0 {
                x0
            } else {
                pick(x0, x1, x2)
            };
            from.plus_of(self.emission(time, self.label(i)))
        }
    }

    /// The score of jumping into state `i` from two states before it.
    pub open spec fn jump(self, time: int, i: int) -> S {
        if self.skips(i) {
            self.alpha(time, i - 2)
        } else {
            S::floor_of()
        }
    }

    /// How many states the best walk into state `i` at frame `time` moves in
    /// its last step.
    pub open spec fn step(self, time: int, i: int) -> int {
        if time <= 0 || i == 0 || !self.alive(time, i) {
            0
        } else {
            pick_step(
                self.alpha(time - 1, i),
                self.alpha(time - 1, i - 1),
                self.jump(time - 1, i),
            )
        }
    }

    /// The state in which the alignment ends: the final blank or the last
    /// token, whichever scores higher.
    pub open spec fn last_state(self) -> int {
        if self.alpha(self.t - 1, self.states() - 1).above_of(
            self.alpha(self.t - 1, self.states() - 2),
        ) {
            self.states() - 1
        } else {
            self.states() - 2
        }
    }

    /// The state that the alignment visits at frame `time`, traced back from
    /// the last frame.
    pub open spec fn state_at(self, time: int) -> int
        decreases self.t - time,
    {
        if time >= self.t - 1 {
            self.last_state()
        } else {
            let next = self.state_at(time + 1);
            next - self.step(time + 1, next)
        }
    }
}

/// Which of three predecessors wins: the one two states back only if it beats
/// both others, the one before only if it beats both others, else staying.
pub open spec fn pick_step<S: Score>(x0: S, x1: S, x2: S) -> int {
    if x2.above_of(x1) && x2.above_of(x0) {
        2
    } else if x1.above_of(x0) && x1.above_of(x2) {
        1
    } else {
        0
    }
}

/// The score of the winning predecessor.
pub open spec fn pick<S: Score>(x0: S, x1: S, x2: S) -> S {
    if pick_step(x0, x1, x2) == 2 {
        x2
    } else if pick_step(x0, x1, x2) == 1 {
        x1
    } else {
        x0
    }
}

/// Why the request is refused, if it is: the first check that fails.
pub open spec fn align_error(
    len: nat,
    t: usize,
    c: usize,
    targets: Seq<usize>,
    blank: usize,
) -> Option<AlignError> {
    if len != t * c {
        Some(AlignError::LengthMismatch { len: len as usize, t, c })
    } else if blank >= c {
        Some(AlignError::BlankOutOfRange { blank, c })
    } else if targets.contains(blank) {
        Some(AlignError::TargetIsBlank { blank })
    } else if exists|k: int| 0 <= k < targets.len() && targets[k] >= c {
        Some(AlignError::TargetOutOfRange { c })
    } else if targets.len() == 0 {
        Some(AlignError::EmptyTargets)
    } else if t == 0 {
        Some(AlignError::NoFrames)
    } else if t < targets.len() + repeats(targets) {
        Some(
            AlignError::TargetsTooLong {
                t,
                l: targets.len() as usize,
                repeats: repeats(targets) as usize,
            },
        )
    } else {
        None
    }
}

/// The counts of repeats never fall, and grow by at most one per target.
pub proof fn lemma_repeats_step(targets: Seq<usize>, j: int, k: int)
    requires
        0 <= j <= k,
    ensures
        0 <= repeats_upto(targets, j) <= repeats_upto(targets, k) <= repeats_upto(targets, j) + (k
            - j),
        repeats_upto(targets, k) <= k,
    decreases k,
{
    if k <= 1 {
    } else if j < k {
        lemma_repeats_step(targets, j, k - 1);
    } else {
        lemma_repeats_step(targets, k - 1, k - 1);
    }
}

/// Row `time` of a `(t, c)` matrix lies within it.
pub proof fn lemma_row_fits(time: int, v: int, t: int, c: int)
    requires
        0 <= time < t,
        0 <= v < c,
    ensures
        0 <= time * c <= time * c + v < t * c,
{
    assert(time * c + c <= t * c) by (nonlinear_arith)
        requires
            0 <= time < t,
            0 < c,
    ;
    assert(0 <= time * c) by (nonlinear_arith)
        requires
            0 <= time,
            0 < c,
    ;
}

impl<S: Score> Lattice<S> {
    /// How the two frame counts change from one state to the next.
    pub proof fn lemma_counts_step(self, i: int)
        requires
            0 <= i < self.states() - 1,
        ensures
            i % 2 == 0 ==> self.remaining(i + 1) == self.remaining(i) - 1,
            i % 2 == 1 && i < self.states() - 2 ==> self.remaining(i + 1) == self.remaining(i) - (
            if self.skips(i + 2) {
                0int
            } else {
                1
            }),
            i == self.states() - 2 ==> self.remaining(i) == 1 && self.remaining(i + 1) == 1,
            i % 2 == 1 ==> self.fewest(i + 1) == self.fewest(i) + 1,
            i % 2 == 0 && i > 0 ==> self.fewest(i + 1) == self.fewest(i) + (if self.skips(i + 1) {
                0int
            } else {
                1
            }),
            i == 0 ==> self.fewest(0) == 1 && self.fewest(1) == 1,
            1 <= self.fewest(i) <= self.fewest(i + 1) <= self.fewest(i) + 1,
            1 <= self.remaining(i + 1) <= self.remaining(i) <= self.remaining(i + 1) + 1,
    {
        let k = i / 2;
        let l = self.targets.len() as int;
        lemma_repeats_step(self.targets, k, k + 1);
        lemma_repeats_step(self.targets, k + 1, k + 2);
        lemma_repeats_step(self.targets, k + 1, l);
        if k + 2 <= l {
            lemma_repeats_step(self.targets, k + 2, l);
        } else {
            lemma_repeats_step(self.targets, l, k + 2);
        }
        if i % 2 == 1 {
            assert((i + 1) / 2 == k + 1 && (i + 2) / 2 == k + 1);
        } else {
            assert((i + 1) / 2 == k);
        }
    }

    /// Later states take at least as long to reach, and leave no more to do.
    pub proof fn lemma_counts_ordered(self, i: int, j: int)
        requires
            0 <= i <= j < self.states(),
        ensures
            self.fewest(i) <= self.fewest(j),
            self.remaining(j) <= self.remaining(i),
        decreases j - i,
    {
        if i < j {
            self.lemma_counts_step(i);
            self.lemma_counts_ordered(i + 1, j);
        }
    }

    /// The states that are alive at a frame are those from `start` up to
    /// `end`.
    pub open spec fn band(self, time: int, start: int, end: int) -> bool {
        &&& 0 <= start <= self.states() - 2
        &&& 2 <= end <= self.states()
        &&& self.remaining(start) <= self.t - time
        &&& start > 0 ==> self.remaining(start - 1) > self.t - time
        &&& start > 0 ==> self.remaining(start) == self.t - time
        &&& self.fewest(end - 1) <= time + 1
        &&& end < self.states() ==> self.fewest(end) == time + 2
    }

    /// A band holds exactly the live states.
    pub proof fn lemma_band_alive(self, time: int, start: int, end: int, i: int)
        requires
            self.band(time, start, end),
            0 <= i < self.states(),
        ensures
            self.alive(time, i) <==> start <= i < end,
    {
        if i < end {
            self.lemma_counts_ordered(i, end - 1);
        } else {
            self.lemma_counts_ordered(end, i);
        }
        if i < start {
            self.lemma_counts_ordered(i, start - 1);
        } else {
            self.lemma_counts_ordered(start, i);
        }
    }

    /// The first band: the first blank, if a frame can be spared for it, and
    /// the first token.
    pub proof fn lemma_band_first(self)
        requires
            self.targets.len() > 0,
            self.t >= self.targets.len() + repeats(self.targets),
        ensures
            self.band(
                0,
                if self.t > self.targets.len() + repeats(self.targets) {
                    0
                } else {
                    1
                },
                2,
            ),
    {
        self.lemma_counts_step(0);
        self.lemma_counts_step(1);
        assert(repeats_upto(self.targets, 1) == 0);
        lemma_repeats_step(self.targets, 1, self.targets.len() as int);
    }

    /// Where the next band begins.
    pub open spec fn next_start(self, time: int, start: int) -> int {
        if self.t - time <= self.targets.len() + repeats(self.targets) {
            if start % 2 == 1 && self.skips(start + 2) {
                start + 2
            } else {
                start + 1
            }
        } else {
            start
        }
    }

    /// Where the next band ends.
    pub open spec fn next_end(self, time: int, end: int) -> int {
        if time <= self.targets.len() + repeats(self.targets) {
            if end % 2 == 0 && end < self.states() - 1 && self.skips(end + 1) {
                end + 2
            } else {
                end + 1
            }
        } else {
            end
        }
    }

    /// From one band to the next.
    pub proof fn lemma_band_next(self, time: int, start: int, end: int)
        requires
            1 <= time < self.t,
            self.targets.len() > 0,
            self.t >= self.targets.len() + repeats(self.targets),
            self.band(time - 1, start, end),
        ensures
            self.t - time <= self.targets.len() + repeats(self.targets) ==> start < self.states()
                - 2,
            self.band(time, self.next_start(time, start), self.next_end(time, end)),
    {
        let l = self.targets.len() as int;
        let r = repeats(self.targets);
        self.lemma_counts_step(0);
        assert(repeats_upto(self.targets, 1) == 0);
        assert(self.remaining(0) == l + r + 1);
        self.lemma_counts_step(self.states() - 2);
        self.lemma_counts_ordered(0, start);
        if self.t - time <= l + r {
            assert(self.remaining(start) == self.t - time + 1);
            self.lemma_counts_step(start);
            if start + 1 < self.states() - 1 {
                self.lemma_counts_step(start + 1);
            }
        }
        assert(repeats_upto(self.targets, l + 1) == r);
        assert(self.fewest(self.states() - 1) == l + r + 1);
        if end < self.states() {
            self.lemma_counts_ordered(end, self.states() - 1);
        }
        if time <= l + r {
            self.lemma_counts_step(end - 1);
            if end < self.states() - 1 {
                self.lemma_counts_step(end);
            }
            if end + 1 < self.states() - 1 {
                self.lemma_counts_step(end + 1);
            }
        }
    }
}

/// The problem that a call of [`forced_align`] poses.
pub open spec fn lattice_of<S>(
    log_probs: Seq<S>,
    t: usize,
    c: usize,
    targets: Seq<usize>,
    blank: usize,
) -> Lattice<S> {
    Lattice { log_probs, t: t as int, c: c as int, targets, blank }
}

/// Counts the targets that equal the target before them.
fn count_repeats(targets: &[usize]) -> (r: usize)
    requires
        targets@.len() <= usize::MAX,
    ensures
        r == repeats(targets@),
        r <= targets@.len(),
{
    let mut r: usize = 0;
    let mut i: usize = 1;
    while i < targets.len()
        invariant
            1 <= i,
            i <= targets@.len() || (i == 1 && targets@.len() == 0),
            r == repeats_upto(targets@, i as int),
            r < i,
        decreases targets@.len() - i,
    {
        if targets[i] == targets[i - 1] {
            r += 1;
        }
        i += 1;
    }
    r
}

/// Checks an alignment request; the number of repeated targets if it stands.
fn check_request<S: Score>(
    log_probs: &[S],
    t: usize,
    c: usize,
    targets: &[usize],
    blank: usize,
) -> (r: Result<usize, AlignError>)
    requires
        2 * targets@.len() + 1 <= usize::MAX,
    ensures
        match r {
            Ok(n) => align_error(log_probs@.len(), t, c, targets@, blank) is None && n == repeats(
                targets@,
            ),
            Err(e) => align_error(log_probs@.len(), t, c, targets@, blank) == Some(e),
        },
{
    let ghost len = log_probs@.len();
    match t.checked_mul(c) {
        Some(product) => {
            if log_probs.len() != product {
                return Err(AlignError::LengthMismatch { len: log_probs.len(), t, c });
            }
        },
        None => {
            return Err(AlignError::LengthMismatch { len: log_probs.len(), t, c });
        },
    }
    if blank >= c {
        return Err(AlignError::BlankOutOfRange { blank, c });
    }
    let mut i: usize = 0;
    while i < targets.len()
        invariant
            i <= targets@.len(),
            forall|k: int| 0 <= k < i ==> targets@[k] != blank,
            len == log_probs@.len(),
            len == t * c,
            blank < c,
        decreases targets@.len() - i,
    {
        if targets[i] == blank {
            assert(targets@.contains(blank));
            return Err(AlignError::TargetIsBlank { blank });
        }
        i += 1;
    }
    let mut i: usize = 0;
    while i < targets.len()
        invariant
            i <= targets@.len(),
            forall|k: int| 0 <= k < targets@.len() ==> targets@[k] != blank,
            forall|k: int| 0 <= k < i ==> targets@[k] < c,
            len == log_probs@.len(),
            len == t * c,
            blank < c,
        decreases targets@.len() - i,
    {
        if targets[i] >= c {
            return Err(AlignError::TargetOutOfRange { c });
        }
        i += 1;
    }
    let l = targets.len();
    if l == 0 {
        return Err(AlignError::EmptyTargets);
    }
    if t == 0 {
        return Err(AlignError::NoFrames);
    }
    let repeats = count_repeats(targets);
    if t < l + repeats {
        return Err(AlignError::TargetsTooLong { t, l, repeats });
    }
    Ok(repeats)
}

/// The token of state `i`.
fn state_label(targets: &[usize], blank: usize, i: usize) -> (v: usize)
    requires
        i < 2 * targets@.len() + 1,
    ensures
        v == (if i % 2 == 0 {
            blank
        } else {
            targets@[i as int / 2]
        }),
{
    if i % 2 == 0 {
        blank
    } else {
        targets[i / 2]
    }
}

/// Whether a vector holds one row of the trellis.
pub open spec fn is_alpha_row<S: Score>(lattice: Lattice<S>, row: Seq<S>, time: int) -> bool {
    &&& row.len() == lattice.states()
    &&& forall|i: int| 0 <= i < lattice.states() ==> #[trigger] row[i] == lattice.alpha(time, i)
}

/// Whether a vector holds the back steps of one row of the trellis.
pub open spec fn is_step_row<S: Score>(lattice: Lattice<S>, row: Seq<u8>, time: int) -> bool {
    &&& row.len() == lattice.states()
    &&& forall|i: int| 0 <= i < lattice.states() ==> #[trigger] row[i] == lattice.step(time, i)
}

/// The trellis at frame 0.
fn first_row<S: Score>(
    log_probs: &[S],
    t: usize,
    c: usize,
    targets: &[usize],
    blank: usize,
    start: usize,
    end: usize,
) -> (row: Vec<S>)
    requires
        2 * targets@.len() + 1 <= usize::MAX,
        align_error(log_probs@.len(), t, c, targets@, blank) is None,
        lattice_of(log_probs@, t, c, targets@, blank).band(0, start as int, end as int),
    ensures
        is_alpha_row(lattice_of(log_probs@, t, c, targets@, blank), row@, 0),
{
    let ghost lattice = lattice_of(log_probs@, t, c, targets@, blank);
    let s = 2 * targets.len() + 1;
    let neg_inf = S::neg_infinity();
    let mut row: Vec<S> = Vec::new();
    let mut i: usize = 0;
    while i < s
        invariant
            i <= s,
            s == 2 * targets@.len() + 1,
            s == lattice.states(),
            row@.len() == i,
            neg_inf == S::floor_of(),
            lattice == lattice_of(log_probs@, t, c, targets@, blank),
            align_error(log_probs@.len(), t, c, targets@, blank) is None,
            lattice.band(0, start as int, end as int),
            forall|k: int| 0 <= k < i ==> #[trigger] row@[k] == lattice.alpha(0, k),
        decreases s - i,
    {
        proof {
            lattice.lemma_band_alive(0, start as int, end as int, i as int);
        }
        if i < start || i >= end {
            row.push(neg_inf);
        } else {
            let v = state_label(targets, blank, i);
            proof {
                assert(v < c);
                lemma_row_fits(0, v as int, t as int, c as int);
            }
            row.push(log_probs[v]);
        }
        i += 1;
    }
    row
}

/// The trellis at frame `time`, from the one before, with the step that led
/// into each state.
fn next_row<S: Score>(
    log_probs: &[S],
    t: usize,
    c: usize,
    targets: &[usize],
    blank: usize,
    prev: &Vec<S>,
    time: usize,
    start: usize,
    end: usize,
) -> (r: (Vec<S>, Vec<u8>))
    requires
        2 * targets@.len() + 1 <= usize::MAX,
        align_error(log_probs@.len(), t, c, targets@, blank) is None,
        1 <= time < t,
        is_alpha_row(lattice_of(log_probs@, t, c, targets@, blank), prev@, time - 1),
        lattice_of(log_probs@, t, c, targets@, blank).band(time as int, start as int, end as int),
    ensures
        is_alpha_row(lattice_of(log_probs@, t, c, targets@, blank), r.0@, time as int),
        is_step_row(lattice_of(log_probs@, t, c, targets@, blank), r.1@, time as int),
{
    let ghost lattice = lattice_of(log_probs@, t, c, targets@, blank);
    let s = 2 * targets.len() + 1;
    let neg_inf = S::neg_infinity();
    let mut row: Vec<S> = Vec::new();
    let mut steps: Vec<u8> = Vec::new();
    let mut i: usize = 0;
    while i < s
        invariant
            i <= s,
            s == 2 * targets@.len() + 1,
            s == lattice.states(),
            row@.len() == i,
            steps@.len() == i,
            neg_inf == S::floor_of(),
            lattice == lattice_of(log_probs@, t, c, targets@, blank),
            align_error(log_probs@.len(), t, c, targets@, blank) is None,
            1 <= time < t,
            is_alpha_row(lattice, prev@, time - 1),
            lattice.band(time as int, start as int, end as int),
            forall|k: int| 0 <= k < i ==> #[trigger] row@[k] == lattice.alpha(time as int, k),
            forall|k: int| 0 <= k < i ==> #[trigger] steps@[k] == lattice.step(time as int, k),
        decreases s - i,
    {
        proof {
            lattice.lemma_band_alive(time as int, start as int, end as int, i as int);
        }
        if i < start || i >= end {
            row.push(neg_inf);
            steps.push(0);
        } else {
            let v = state_label(targets, blank, i);
            proof {
                assert(v < c);
                lemma_row_fits(time as int, v as int, t as int, c as int);
                assert(log_probs@.len() == log_probs.len());
            }
            let emission = log_probs[time * c + v];
            let x0 = prev[i];
            if i == 0 {
                row.push(x0.plus(emission));
                steps.push(0);
            } else {
                let x1 = prev[i - 1];
                let mut x2 = neg_inf;
                if i % 2 != 0 && i != 1 && targets[i / 2] != targets[i / 2 - 1] {
                    x2 = prev[i - 2];
                }
                assert(x2 == lattice.jump(time - 1, i as int));
                let (from, step) = if x2.above(x1) && x2.above(x0) {
                    (x2, 2u8)
                } else if x1.above(x0) && x1.above(x2) {
                    (x1, 1u8)
                } else {
                    (x0, 0u8)
                };
                row.push(from.plus(emission));
                steps.push(step);
            }
        }
        i += 1;
    }
    (row, steps)
}

/// The whole trellis: its last row, and the step rows of every frame.
fn fill_trellis<S: Score>(
    log_probs: &[S],
    t: usize,
    c: usize,
    targets: &[usize],
    blank: usize,
    repeats: usize,
) -> (r: (Vec<S>, Vec<Vec<u8>>))
    requires
        2 * targets@.len() + 1 <= usize::MAX,
        align_error(log_probs@.len(), t, c, targets@, blank) is None,
        repeats == self::repeats(targets@),
    ensures
        is_alpha_row(lattice_of(log_probs@, t, c, targets@, blank), r.0@, t - 1),
        r.1@.len() == t,
        forall|k: int|
            0 <= k < t ==> is_step_row(
                lattice_of(log_probs@, t, c, targets@, blank),
                #[trigger] r.1@[k]@,
                k,
            ),
{
    let ghost lattice = lattice_of(log_probs@, t, c, targets@, blank);
    let l = targets.len();
    let s = 2 * l + 1;
    let mut start: usize = if t > l + repeats {
        0
    } else {
        1
    };
    let mut end: usize = 2;
    proof {
        lattice.lemma_band_first();
    }
    let mut row = first_row(log_probs, t, c, targets, blank, start, end);
    let mut stay: Vec<u8> = Vec::new();
    let mut i: usize = 0;
    while i < s
        invariant
            i <= s,
            stay@.len() == i,
            forall|k: int| 0 <= k < i ==> #[trigger] stay@[k] == 0,
        decreases s - i,
    {
        stay.push(0);
        i += 1;
    }
    let mut steps: Vec<Vec<u8>> = Vec::new();
    steps.push(stay);
    assert(is_step_row(lattice, steps@[0]@, 0));
    let mut time: usize = 1;
    while time < t
        invariant
            1 <= time <= t,
            l == targets@.len(),
            s == 2 * l + 1,
            2 * targets@.len() + 1 <= usize::MAX,
            repeats == self::repeats(targets@),
            l + repeats <= t,
            l + repeats <= usize::MAX,
            l > 0,
            lattice == lattice_of(log_probs@, t, c, targets@, blank),
            align_error(log_probs@.len(), t, c, targets@, blank) is None,
            lattice.band(time - 1, start as int, end as int),
            is_alpha_row(lattice, row@, time - 1),
            steps@.len() == time,
            forall|k: int| 0 <= k < time ==> is_step_row(lattice, #[trigger] steps@[k]@, k),
        decreases t - time,
    {
        proof {
            lattice.lemma_band_next(time as int, start as int, end as int);
        }
        let ghost start0 = start as int;
        let ghost end0 = end as int;
        if t - time <= l + repeats {
            if start % 2 == 1 && targets[start / 2] != targets[start / 2 + 1] {
                start += 1;
            }
            start += 1;
        }
        assert(start == lattice.next_start(time as int, start0));
        if time <= l + repeats {
            if end % 2 == 0 && end < 2 * l && targets[end / 2 - 1] != targets[end / 2] {
                end += 1;
            }
            end += 1;
        }
        assert(end == lattice.next_end(time as int, end0));
        let (next, step_row) = next_row(log_probs, t, c, targets, blank, &row, time, start, end);
        row = next;
        steps.push(step_row);
        time += 1;
    }
    (row, steps)
}

/// A step is at most two states, jumps only where a jump is allowed, and
/// never leads before the first state.
pub proof fn lemma_step_bounds<S: Score>(lattice: Lattice<S>, time: int, i: int)
    requires
        0 <= i < lattice.states(),
    ensures
        0 <= lattice.step(time, i) <= 2,
        lattice.step(time, i) <= i,
        lattice.step(time, i) == 2 ==> lattice.skips(i),
{
    S::floor_is_least(lattice.alpha(time - 1, i - 1));
}

/// The trace stays within the chain.
pub proof fn lemma_state_bounds<S: Score>(lattice: Lattice<S>, time: int)
    requires
        lattice.targets.len() > 0,
        0 <= time < lattice.t,
    ensures
        0 <= lattice.state_at(time) < lattice.states(),
    decreases lattice.t - time,
{
    if time < lattice.t - 1 {
        lemma_state_bounds(lattice, time + 1);
        lemma_step_bounds(lattice, time + 1, lattice.state_at(time + 1));
    }
}

/// The tokens that the alignment visits, frame by frame.
pub open spec fn aligned_path<S: Score>(lattice: Lattice<S>) -> Seq<usize> {
    Seq::new(lattice.t as nat, |time: int| lattice.label(lattice.state_at(time)))
}

/// The score of each frame of the alignment.
pub open spec fn aligned_scores<S: Score>(lattice: Lattice<S>) -> Seq<S> {
    Seq::new(
        lattice.t as nat,
        |time: int| lattice.emission(time, lattice.label(lattice.state_at(time))),
    )
}

/// Follows the steps back from the last frame.
fn trace_back<S: Score>(
    log_probs: &[S],
    t: usize,
    c: usize,
    targets: &[usize],
    blank: usize,
    last: &Vec<S>,
    steps: &Vec<Vec<u8>>,
) -> (paths: Vec<usize>)
    requires
        2 * targets@.len() + 1 <= usize::MAX,
        align_error(log_probs@.len(), t, c, targets@, blank) is None,
        is_alpha_row(lattice_of(log_probs@, t, c, targets@, blank), last@, t - 1),
        steps@.len() == t,
        forall|k: int|
            0 <= k < t ==> is_step_row(
                lattice_of(log_probs@, t, c, targets@, blank),
                #[trigger] steps@[k]@,
                k,
            ),
    ensures
        paths@ == aligned_path(lattice_of(log_probs@, t, c, targets@, blank)),
{
    let ghost lattice = lattice_of(log_probs@, t, c, targets@, blank);
    let s = 2 * targets.len() + 1;
    let mut state: usize = if last[s - 1].above(last[s - 2]) {
        s - 1
    } else {
        s - 2
    };
    let mut reversed: Vec<usize> = Vec::new();
    let mut left: usize = t;
    while left > 0
        invariant
            left <= t,
            1 <= t,
            s == 2 * targets@.len() + 1,
            s == lattice.states(),
            targets@.len() > 0,
            2 * targets@.len() + 1 <= usize::MAX,
            state < s,
            lattice == lattice_of(log_probs@, t, c, targets@, blank),
            left > 0 ==> state == lattice.state_at(left - 1),
            steps@.len() == t,
            forall|k: int| 0 <= k < t ==> is_step_row(lattice, #[trigger] steps@[k]@, k),
            reversed@.len() == t - left,
            forall|k: int|
                0 <= k < t - left ==> #[trigger] reversed@[k] == lattice.label(
                    lattice.state_at(t - 1 - k),
                ),
        decreases left,
    {
        let time = left - 1;
        reversed.push(state_label(targets, blank, state));
        proof {
            assert(is_step_row(lattice, steps@[time as int]@, time as int));
            lemma_step_bounds(lattice, time as int, state as int);
        }
        let step = steps[time][state] as usize;
        state = state - step;
        left = time;
    }
    let mut paths: Vec<usize> = Vec::new();
    let mut time: usize = 0;
    while time < t
        invariant
            time <= t,
            reversed@.len() == t,
            lattice == lattice_of(log_probs@, t, c, targets@, blank),
            forall|k: int|
                0 <= k < t ==> #[trigger] reversed@[k] == lattice.label(
                    lattice.state_at(t - 1 - k),
                ),
            paths@.len() == time,
            forall|k: int|
                0 <= k < time ==> #[trigger] paths@[k] == lattice.label(lattice.state_at(k)),
        decreases t - time,
    {
        paths.push(reversed[t - 1 - time]);
        time += 1;
    }
    assert(paths@ =~= aligned_path(lattice));
    paths
}

/// Aligns a CTC label sequence to frame-wise log-probabilities.
///
/// * `log_probs`: shape `(t, c)`, row by row
/// * `targets`: the non-blank token ids
/// * `blank`: the blank token id (usually 0)
///
/// Returns the token of each frame, and `scores[k] = log_probs[k, paths[k]]`.
/// Two predecessors that tie leave the walk where it is.
pub fn forced_align<S: Score>(
    log_probs: &[S],
    t: usize,
    c: usize,
    targets: &[usize],
    blank: usize,
) -> (r: Result<(Vec<usize>, Vec<S>), AlignError>)
    requires
        2 * targets@.len() + 1 <= usize::MAX,
    ensures
        match r {
            Ok((paths, scores)) => {
                &&& align_error(log_probs@.len(), t, c, targets@, blank) is None
                &&& paths@ == aligned_path(lattice_of(log_probs@, t, c, targets@, blank))
                &&& scores@ == aligned_scores(lattice_of(log_probs@, t, c, targets@, blank))
            },
            Err(e) => align_error(log_probs@.len(), t, c, targets@, blank) == Some(e),
        },
        r is Ok <==> in_order(
            log_probs@.len() as int,
            t as int,
            c as int,
            targets@,
            blank,
        ) && exists|path: Seq<usize>|
            path.len() == t && #[trigger] collapse(path, blank) == targets@,
        r matches Ok((paths, scores)) ==> {
            &&& paths@.len() == t
            &&& scores@.len() == t
            &&& forall|k: int|
                0 <= k < t ==> (#[trigger] paths@[k]) < c && scores@[k] == log_probs@[k * c
                    + paths@[k]]
        },
        orderly::<S>() && ordinary_emissions(lattice_of(log_probs@, t, c, targets@, blank))
            && possible_paths(lattice_of(log_probs@, t, c, targets@, blank)) ==> (r matches Ok(
            (paths, _),
        ) ==> collapse(paths@, blank) == targets@),
{
    proof {
        assert(log_probs@.len() == log_probs.len());
        assert(targets@.len() == targets.len());
        law_request_outcome(log_probs@.len(), t, c, targets@, blank);
    }
    let repeats = match check_request(log_probs, t, c, targets, blank) {
        Ok(n) => n,
        Err(e) => return Err(e),
    };
    let ghost lattice = lattice_of(log_probs@, t, c, targets@, blank);
    let (last, steps) = fill_trellis(log_probs, t, c, targets, blank, repeats);
    let paths = trace_back(log_probs, t, c, targets, blank, &last, &steps);
    let mut scores: Vec<S> = Vec::new();
    let mut time: usize = 0;
    while time < t
        invariant
            time <= t,
            lattice == lattice_of(log_probs@, t, c, targets@, blank),
            align_error(log_probs@.len(), t, c, targets@, blank) is None,
            paths@ == aligned_path(lattice),
            scores@.len() == time,
            forall|k: int|
                0 <= k < time ==> #[trigger] scores@[k] == lattice.emission(
                    k,
                    lattice.label(lattice.state_at(k)),
                ),
        decreases t - time,
    {
        let v = paths[time];
        proof {
            lemma_state_bounds(lattice, time as int);
            assert(v == lattice.label(lattice.state_at(time as int)));
            lemma_row_fits(time as int, v as int, t as int, c as int);
            assert(log_probs@.len() == log_probs.len());
        }
        scores.push(log_probs[time * c + v]);
        time += 1;
    }
    assert(scores@ =~= aligned_scores(lattice));
    proof {
        assert forall|k: int| 0 <= k < t implies (#[trigger] paths@[k]) < c && scores@[k]
            == log_probs@[k * c + paths@[k]] by {
            law_path_and_scores(lattice, k);
        }
        if orderly::<S>() && ordinary_emissions(lattice) && possible_paths(lattice) {
            law_possible_paths_spell(lattice);
        }
    }
    Ok((paths, scores))
}

} // verus!
