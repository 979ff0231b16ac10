//! What the alignment found by [`crate::ctc::forced_align`] is worth: it spells
//! the targets, and where no cell is tied nothing that spells them scores
//! higher.

use vstd::prelude::*;

use crate::ctc::{
    align_error, aligned_path, aligned_scores, lattice_of, lemma_repeats_step, lemma_row_fits,
    lemma_state_bounds, lemma_step_bounds, pick, pick_step, repeats, repeats_upto, AlignError,
    Lattice, Score,
};

verus! {

/// Whether the chain allows a walk from state `from` to state `to` in one
/// frame.
pub open spec fn moves<S: Score>(lattice: Lattice<S>, from: int, to: int) -> bool {
    to == from || to == from + 1 || (to == from + 2 && lattice.skips(to))
}

/// Whether `walk` is an alignment: one state per frame, from the first blank
/// or the first token to the last token or the last blank.
pub open spec fn is_alignment<S: Score>(lattice: Lattice<S>, walk: Seq<int>) -> bool {
    &&& walk.len() == lattice.t
    &&& lattice.t > 0
    &&& 0 <= walk[0] <= 1
    &&& lattice.states() - 2 <= walk[lattice.t - 1]
    &&& forall|k: int| 0 <= k < lattice.t ==> 0 <= #[trigger] walk[k] < lattice.states()
    &&& forall|k: int|
        1 <= k < lattice.t ==> moves(lattice, walk[k - 1], #[trigger] walk[k])
}

/// The tokens that a walk emits.
pub open spec fn labels_of<S: Score>(lattice: Lattice<S>, walk: Seq<int>) -> Seq<usize> {
    Seq::new(walk.len(), |k: int| lattice.label(walk[k]))
}

/// What a path of tokens says: runs of one token merge, then blanks go.
pub open spec fn collapse(path: Seq<usize>, blank: usize) -> Seq<usize>
    decreases path.len(),
{
    if path.len() == 0 {
        Seq::empty()
    } else {
        let said = collapse(path.drop_last(), blank);
        let v = path.last();
        if v == blank || (path.len() >= 2 && path[path.len() - 2] == v) {
            said
        } else {
            said.push(v)
        }
    }
}

/// Whether a path of tokens, one for each frame, says exactly the targets.
pub open spec fn spells<S: Score>(lattice: Lattice<S>, path: Seq<usize>) -> bool {
    path.len() == lattice.t && collapse(path, lattice.blank) == lattice.targets
}

/// The states that a path of tokens visits: the blank before the next token, or
/// the token said last.
pub open spec fn walk_of(path: Seq<usize>, blank: usize) -> Seq<int> {
    Seq::new(
        path.len(),
        |k: int|
            {
                let count = collapse(path.take(k + 1), blank).len() as int;
                if path[k] == blank {
                    2 * count
                } else {
                    2 * count - 1
                }
            },
    )
}

/// The score of the first `k + 1` frames of a path of tokens, summed from the
/// first.
pub open spec fn path_score<S: Score>(lattice: Lattice<S>, path: Seq<usize>, k: int) -> S
    decreases k,
{
    let here = lattice.emission(k, path[k]);
    if k <= 0 {
        here
    } else {
        path_score(lattice, path, k - 1).plus_of(here)
    }
}

/// The score of the first `k + 1` frames of a walk, summed from the first.
pub open spec fn walk_score<S: Score>(lattice: Lattice<S>, walk: Seq<int>, k: int) -> S
    decreases k,
{
    let here = lattice.emission(k, lattice.label(walk[k]));
    if k <= 0 {
        here
    } else {
        walk_score(lattice, walk, k - 1).plus_of(here)
    }
}

/// The states that the trace of the best walk visits.
pub open spec fn trace<S: Score>(lattice: Lattice<S>) -> Seq<int> {
    Seq::new(lattice.t as nat, |k: int| lattice.state_at(k))
}

/// Whether the two predecessors of a cell that move on tie, above the one
/// that stays.  The recurrence then stays, and takes the lowest of the three.
pub open spec fn tied<S: Score>(lattice: Lattice<S>, time: int, i: int) -> bool {
    let x0 = lattice.alpha(time - 1, i);
    let x1 = lattice.alpha(time - 1, i - 1);
    let x2 = lattice.jump(time - 1, i);
    i > 0 && x1.above_of(x0) && !x1.above_of(x2) && !x2.above_of(x1)
}

/// Whether a walk passes through no tied cell.
pub open spec fn untied<S: Score>(lattice: Lattice<S>, walk: Seq<int>) -> bool {
    forall|k: int| 1 <= k < lattice.t ==> !tied(lattice, k, #[trigger] walk[k])
}

/// The order and the sum of ordinary scores behave as those of numbers: the
/// order is a weak one with negative infinity at its bottom, and adding a
/// score to both sides keeps it.
pub open spec fn orderly<S: Score>() -> bool {
    &&& S::floor_of().ordinary()
    &&& forall|a: S, b: S|
        a.ordinary() && b.ordinary() ==> (#[trigger] a.plus_of(b)).ordinary()
    &&& forall|a: S, b: S|
        a.ordinary() && b.ordinary() && #[trigger] a.above_of(b) ==> !b.above_of(a)
    &&& forall|a: S, b: S, c: S|
        #![trigger a.above_of(b), b.above_of(c)]
        a.ordinary() && b.ordinary() && c.ordinary() && !a.above_of(b) && !b.above_of(c)
            ==> !a.above_of(c)
    &&& forall|a: S, b: S, c: S|
        #![trigger a.plus_of(c), b.plus_of(c)]
        a.ordinary() && b.ordinary() && c.ordinary() && !a.above_of(b) ==> !a.plus_of(
            c,
        ).above_of(b.plus_of(c))
    &&& forall|a: S| a.ordinary() ==> #[trigger] S::floor_of().plus_of(a) == S::floor_of()
    &&& forall|a: S|
        a.ordinary() && a != S::floor_of() ==> #[trigger] a.above_of(S::floor_of())
}

/// Whether every score of the matrix is ordinary.
pub open spec fn ordinary_emissions<S: Score>(lattice: Lattice<S>) -> bool {
    forall|k: int| 0 <= k < lattice.log_probs.len() ==> (#[trigger] lattice.log_probs[k]).ordinary()
}

/// Whether the problem is one that [`crate::ctc::forced_align`] accepts.
pub open spec fn accepted<S: Score>(lattice: Lattice<S>) -> bool {
    &&& 0 <= lattice.t <= usize::MAX
    &&& 0 <= lattice.c <= usize::MAX
    &&& align_error(
        lattice.log_probs.len(),
        lattice.t as usize,
        lattice.c as usize,
        lattice.targets,
        lattice.blank,
    ) is None
}

/// Fixed-point scores are orderly.
pub proof fn law_fixed_point_is_orderly()
    ensures
        orderly::<i64>(),
{
}

/// An alignment says exactly the targets.
pub proof fn law_alignment_spells_targets<S: Score>(lattice: Lattice<S>, walk: Seq<int>)
    requires
        is_alignment(lattice, walk),
        !lattice.targets.contains(lattice.blank),
    ensures
        collapse(labels_of(lattice, walk), lattice.blank) == lattice.targets,
{
    lemma_spells_prefix(lattice, walk, lattice.t);
    assert(labels_of(lattice, walk).take(lattice.t) =~= labels_of(lattice, walk));
    let n = (walk[lattice.t - 1] + 1) / 2;
    assert(lattice.targets.take(n) =~= lattice.targets);
}

/// The first `n` frames of an alignment say the tokens up to its state.
proof fn lemma_spells_prefix<S: Score>(lattice: Lattice<S>, walk: Seq<int>, n: int)
    requires
        is_alignment(lattice, walk),
        !lattice.targets.contains(lattice.blank),
        1 <= n <= lattice.t,
    ensures
        collapse(labels_of(lattice, walk).take(n), lattice.blank) == lattice.targets.take(
            (walk[n - 1] + 1) / 2,
        ),
    decreases n,
{
    let labels = labels_of(lattice, walk);
    let head = labels.take(n);
    let i = walk[n - 1];
    assert(head.drop_last() =~= labels.take(n - 1));
    assert(head.last() == lattice.label(i));
    if i % 2 == 1 {
        assert(lattice.targets.contains(lattice.targets[i / 2]));
    }
    if n == 1 {
        assert(collapse(labels.take(0), lattice.blank) =~= Seq::<usize>::empty());
        if i == 1 {
            assert(lattice.targets.take(1) =~= Seq::<usize>::empty().push(lattice.targets[0]));
        } else {
            assert(lattice.targets.take(0) =~= Seq::<usize>::empty());
        }
    } else {
        lemma_spells_prefix(lattice, walk, n - 1);
        let j = walk[n - 2];
        assert(moves(lattice, walk[n - 2], walk[n - 1]));
        assert(head[n - 2] == lattice.label(j));
        if i == j {
        } else if i == j + 1 && i % 2 == 0 {
            assert((i + 1) / 2 == (j + 1) / 2);
        } else {
            let k = i / 2;
            assert((i + 1) / 2 == k + 1);
            assert((j + 1) / 2 == k);
            assert(lattice.targets.take(k + 1) =~= lattice.targets.take(k).push(
                lattice.targets[k],
            ));
        }
    }
}

/// What the first frames of a path say is where the whole begins.
proof fn lemma_said_prefix(path: Seq<usize>, blank: usize, n: int)
    requires
        0 <= n <= path.len(),
    ensures
        collapse(path.take(n), blank).len() <= collapse(path, blank).len(),
        forall|i: int|
            0 <= i < collapse(path.take(n), blank).len() ==> #[trigger] collapse(path, blank)[i]
                == collapse(path.take(n), blank)[i],
    decreases path.len(),
{
    if n == path.len() {
        assert(path.take(n) =~= path);
    } else {
        lemma_said_prefix(path.drop_last(), blank, n);
        assert(path.drop_last().take(n) =~= path.take(n));
    }
}

/// A path that ends in a token has said it last.
proof fn lemma_said_last(path: Seq<usize>, blank: usize)
    requires
        path.len() > 0,
        path.last() != blank,
    ensures
        collapse(path, blank).len() > 0,
        collapse(path, blank).last() == path.last(),
    decreases path.len(),
{
    if path.len() >= 2 && path[path.len() - 2] == path.last() {
        lemma_said_last(path.drop_last(), blank);
    }
}

/// Every path of tokens that says the targets comes of an alignment: the one
/// that visits its states.
pub proof fn law_spelling_is_alignment<S: Score>(lattice: Lattice<S>, path: Seq<usize>)
    requires
        lattice.t > 0,
        spells(lattice, path),
    ensures
        is_alignment(lattice, walk_of(path, lattice.blank)),
        labels_of(lattice, walk_of(path, lattice.blank)) == path,
{
    let blank = lattice.blank;
    let walk = walk_of(path, blank);
    let last = lattice.t - 1;
    assert forall|k: int| 0 <= k < lattice.t implies {
        &&& 0 <= #[trigger] walk[k] < lattice.states()
        &&& lattice.label(walk[k]) == path[k]
    } by {
        let head = path.take(k + 1);
        lemma_said_prefix(path, blank, k + 1);
        if path[k] != blank {
            lemma_said_last(head, blank);
            let at = collapse(head, blank).len() - 1;
            assert(lattice.targets[at] == path[k]);
            assert((2 * at + 1) / 2 == at);
        }
    }
    assert forall|k: int| 1 <= k < lattice.t implies moves(
        lattice,
        walk[k - 1],
        #[trigger] walk[k],
    ) by {
        let head = path.take(k + 1);
        assert(head.drop_last() =~= path.take(k));
        lemma_said_prefix(path, blank, k + 1);
        lemma_said_prefix(path, blank, k);
        if path[k] != blank && path[k - 1] != blank && path[k] != path[k - 1] {
            lemma_said_last(head, blank);
            lemma_said_last(path.take(k), blank);
            let at = collapse(head, blank).len() - 1;
            assert(lattice.targets[at] == path[k]);
            assert(lattice.targets[at - 1] == path[k - 1]);
            assert((2 * at + 1) / 2 == at);
        }
    }
    assert(path.take(1).drop_last() =~= Seq::<usize>::empty());
    assert(collapse(path.take(1).drop_last(), blank).len() == 0);
    assert(path.take(last + 1) =~= path);
    assert(labels_of(lattice, walk) =~= path);
}

/// The paths that say the targets are those of the alignments.
pub proof fn law_spells_iff_alignment<S: Score>(lattice: Lattice<S>, path: Seq<usize>)
    requires
        lattice.t > 0,
        !lattice.targets.contains(lattice.blank),
    ensures
        spells(lattice, path) <==> exists|walk: Seq<int>| #[trigger]
            is_alignment(lattice, walk) && labels_of(lattice, walk) == path,
{
    if spells(lattice, path) {
        law_spelling_is_alignment(lattice, path);
    }
    if exists|walk: Seq<int>| #[trigger]
        is_alignment(lattice, walk) && labels_of(lattice, walk) == path {
        let walk = choose|walk: Seq<int>| #[trigger]
            is_alignment(lattice, walk) && labels_of(lattice, walk) == path;
        law_alignment_spells_targets(lattice, walk);
    }
}

/// A walk scores what its tokens score.
pub proof fn law_walk_scores_its_tokens<S: Score>(lattice: Lattice<S>, walk: Seq<int>, k: int)
    requires
        0 <= k < walk.len(),
    ensures
        walk_score(lattice, walk, k) == path_score(lattice, labels_of(lattice, walk), k),
    decreases k,
{
    if k > 0 {
        law_walk_scores_its_tokens(lattice, walk, k - 1);
    }
}

/// An alignment visits live states only.
pub proof fn law_alignment_is_alive<S: Score>(lattice: Lattice<S>, walk: Seq<int>, k: int)
    requires
        is_alignment(lattice, walk),
        lattice.targets.len() > 0,
        0 <= k < lattice.t,
    ensures
        lattice.alive(k, walk[k]),
{
    lemma_reached(lattice, walk, k);
    lemma_finishes(lattice, walk, k);
}

proof fn lemma_reached<S: Score>(lattice: Lattice<S>, walk: Seq<int>, k: int)
    requires
        is_alignment(lattice, walk),
        lattice.targets.len() > 0,
        0 <= k < lattice.t,
    ensures
        lattice.fewest(walk[k]) <= k + 1,
    decreases k,
{
    if k == 0 {
        lattice.lemma_counts_step(0);
    } else {
        lemma_reached(lattice, walk, k - 1);
        assert(moves(lattice, walk[k - 1], walk[k]));
        if walk[k - 1] < walk[k] {
            lattice.lemma_counts_step(walk[k - 1]);
        }
        if walk[k - 1] + 2 == walk[k] {
            lattice.lemma_counts_step(walk[k] - 1);
        }
    }
}

proof fn lemma_finishes<S: Score>(lattice: Lattice<S>, walk: Seq<int>, k: int)
    requires
        is_alignment(lattice, walk),
        lattice.targets.len() > 0,
        0 <= k < lattice.t,
    ensures
        lattice.remaining(walk[k]) <= lattice.t - k,
    decreases lattice.t - k,
{
    if k == lattice.t - 1 {
        lattice.lemma_counts_step(lattice.states() - 2);
    } else {
        lemma_finishes(lattice, walk, k + 1);
        assert(moves(lattice, walk[k + 1 - 1], walk[k + 1]));
        if walk[k] < walk[k + 1] {
            lattice.lemma_counts_step(walk[k]);
        }
        if walk[k] + 2 == walk[k + 1] {
            lattice.lemma_counts_step(walk[k] + 1);
        }
    }
}

/// A problem whose tokens are in order is refused for too few frames exactly
/// when no alignment exists.
pub proof fn law_refused_iff_no_alignment<S: Score>(lattice: Lattice<S>)
    requires
        lattice.targets.len() > 0,
        lattice.t > 0,
    ensures
        lattice.t >= lattice.targets.len() + repeats(lattice.targets) <==> exists|walk: Seq<int>|
            is_alignment(lattice, walk),
{
    if lattice.t >= lattice.targets.len() + repeats(lattice.targets) {
        lemma_eager_is_alignment(lattice);
    }
    if exists|walk: Seq<int>| is_alignment(lattice, walk) {
        let walk = choose|walk: Seq<int>| is_alignment(lattice, walk);
        let last = lattice.t - 1;
        lemma_reached(lattice, walk, last);
        lattice.lemma_counts_ordered(lattice.states() - 2, walk[last]);
    }
}

/// The walk that moves on as fast as it can, and waits at the last token.
spec fn eager<S: Score>(lattice: Lattice<S>, k: int) -> int
    decreases k,
{
    if k <= 0 {
        1
    } else {
        let i = eager(lattice, k - 1);
        if i >= lattice.states() - 2 {
            i
        } else if lattice.skips(i + 2) {
            i + 2
        } else {
            i + 1
        }
    }
}

proof fn lemma_eager_state<S: Score>(lattice: Lattice<S>, k: int)
    requires
        lattice.targets.len() > 0,
        0 <= k,
    ensures
        1 <= eager(lattice, k) <= lattice.states() - 2,
        eager(lattice, k) == lattice.states() - 2 || lattice.fewest(eager(lattice, k)) == k + 1,
        k > 0 ==> moves(lattice, eager(lattice, k - 1), eager(lattice, k)),
    decreases k,
{
    if k == 0 {
        lattice.lemma_counts_step(0);
    } else {
        lemma_eager_state(lattice, k - 1);
        let i = eager(lattice, k - 1);
        if i < lattice.states() - 2 {
            lattice.lemma_counts_step(i);
            lattice.lemma_counts_step(i + 1);
        }
    }
}

proof fn lemma_eager_is_alignment<S: Score>(lattice: Lattice<S>)
    requires
        lattice.targets.len() > 0,
        lattice.t > 0,
        lattice.t >= lattice.targets.len() + repeats(lattice.targets),
    ensures
        exists|walk: Seq<int>| is_alignment(lattice, walk),
{
    let walk = Seq::new(lattice.t as nat, |k: int| eager(lattice, k));
    assert forall|k: int| 0 <= k < lattice.t implies 0 <= #[trigger] walk[k]
        < lattice.states() by {
        lemma_eager_state(lattice, k);
    }
    assert forall|k: int| 1 <= k < lattice.t implies moves(
        lattice,
        walk[k - 1],
        #[trigger] walk[k],
    ) by {
        lemma_eager_state(lattice, k);
    }
    let last = lattice.t - 1;
    assert(lattice.states() - 2 <= walk[last]) by {
        lemma_eager_state(lattice, last);
        if walk[last] < lattice.states() - 2 {
            lattice.lemma_counts_step(walk[last]);
            lattice.lemma_counts_ordered(walk[last], lattice.states() - 2);
            lattice.lemma_counts_ordered(walk[last] + 1, lattice.states() - 2);
        }
    }
    assert(walk[0] == 1);
    assert(is_alignment(lattice, walk));
}

/// Every score of the trellis is ordinary.
proof fn lemma_alpha_ordinary<S: Score>(lattice: Lattice<S>, time: int, i: int)
    requires
        orderly::<S>(),
        accepted(lattice),
        ordinary_emissions(lattice),
        time < lattice.t,
    ensures
        lattice.alpha(time, i).ordinary(),
    decreases time,
{
    if 0 <= time && lattice.alive(time, i) {
        lemma_emission_ordinary(lattice, time, i);
        if time > 0 {
            lemma_alpha_ordinary(lattice, time - 1, i);
            lemma_alpha_ordinary(lattice, time - 1, i - 1);
            lemma_alpha_ordinary(lattice, time - 1, i - 2);
        }
    }
}

proof fn lemma_emission_ordinary<S: Score>(lattice: Lattice<S>, time: int, i: int)
    requires
        accepted(lattice),
        ordinary_emissions(lattice),
        0 <= time < lattice.t,
        0 <= i < lattice.states(),
    ensures
        lattice.emission(time, lattice.label(i)).ordinary(),
{
    let v = lattice.label(i);
    assert(v < lattice.c);
    lemma_row_fits(time, v as int, lattice.t, lattice.c);
}

/// Unless two predecessors tie above the one that stays, the recurrence
/// takes the greatest of the three.
proof fn lemma_pick_is_greatest<S: Score>(x0: S, x1: S, x2: S)
    requires
        orderly::<S>(),
        x0.ordinary(),
        x1.ordinary(),
        x2.ordinary(),
        !(x1.above_of(x0) && !x1.above_of(x2) && !x2.above_of(x1)),
    ensures
        !x0.above_of(pick(x0, x1, x2)),
        !x1.above_of(pick(x0, x1, x2)),
        !x2.above_of(pick(x0, x1, x2)),
{
    assert(!x0.above_of(x0)) by {
        if x0.above_of(x0) {
        }
    }
    assert(!x1.above_of(x1)) by {
        if x1.above_of(x1) {
        }
    }
    assert(!x2.above_of(x2)) by {
        if x2.above_of(x2) {
        }
    }
    if pick_step(x0, x1, x2) == 0 {
        if x1.above_of(x0) {
            assert(x2.above_of(x1));
            assert(!x2.above_of(x0));
            assert(!x1.above_of(x2));
            assert(!x1.above_of(x0));
        }
        if x2.above_of(x0) {
            assert(!x2.above_of(x1));
            assert(!x1.above_of(x0));
            assert(!x2.above_of(x0));
        }
    }
}

/// What is not above a score is not above a third that the score is not above,
/// with the same added to both.
proof fn lemma_sum_stays_below<S: Score>(low: S, middle: S, high: S, added: S)
    requires
        orderly::<S>(),
        low.ordinary(),
        middle.ordinary(),
        high.ordinary(),
        added.ordinary(),
        !low.above_of(middle),
        !middle.above_of(high),
    ensures
        !low.plus_of(added).above_of(high.plus_of(added)),
{
    assert(!low.above_of(high));
}

/// The trellis scores each cell of an untied alignment at least as high as
/// the alignment does.
#[verifier::rlimit(60)]
#[verifier::spinoff_prover]
proof fn lemma_alpha_covers<S: Score>(lattice: Lattice<S>, walk: Seq<int>, k: int)
    requires
        orderly::<S>(),
        accepted(lattice),
        ordinary_emissions(lattice),
        is_alignment(lattice, walk),
        untied(lattice, walk),
        0 <= k < lattice.t,
    ensures
        !walk_score(lattice, walk, k).above_of(lattice.alpha(k, walk[k])),
        walk_score(lattice, walk, k).ordinary(),
    decreases k,
{
    let i = walk[k];
    let here = lattice.emission(k, lattice.label(i));
    lemma_emission_ordinary(lattice, k, i);
    law_alignment_is_alive(lattice, walk, k);
    if k == 0 {
        assert(!here.above_of(here)) by {
            if here.above_of(here) {
            }
        }
    } else {
        lemma_alpha_covers(lattice, walk, k - 1);
        let j = walk[k - 1];
        assert(moves(lattice, walk[k - 1], walk[k]));
        let x0 = lattice.alpha(k - 1, i);
        let x1 = lattice.alpha(k - 1, i - 1);
        let x2 = lattice.jump(k - 1, i);
        lemma_alpha_ordinary(lattice, k - 1, i);
        lemma_alpha_ordinary(lattice, k - 1, i - 1);
        lemma_alpha_ordinary(lattice, k - 1, i - 2);
        assert(!tied(lattice, k, walk[k]));
        let before = walk_score(lattice, walk, k - 1);
        let from = if i == 0 {
            x0
        } else {
            pick(x0, x1, x2)
        };
        let prev = lattice.alpha(k - 1, j);
        assert(!prev.above_of(from)) by {
            if i == 0 {
                if x0.above_of(x0) {
                }
            } else {
                lemma_pick_is_greatest(x0, x1, x2);
            }
        }
        assert(from.ordinary());
        lemma_sum_stays_below(before, prev, from, here);
        assert(lattice.alpha(k, i) == from.plus_of(here));
    }
}

/// Every cell of the trace is possible if its last cell is, and the trace
/// scores there what the trellis says.
proof fn lemma_trace_possible<S: Score>(lattice: Lattice<S>, k: int)
    requires
        orderly::<S>(),
        accepted(lattice),
        ordinary_emissions(lattice),
        lattice.alpha(lattice.t - 1, lattice.last_state()) != S::floor_of(),
        0 <= k < lattice.t,
    ensures
        lattice.alpha(k, lattice.state_at(k)) != S::floor_of(),
        lattice.alive(k, lattice.state_at(k)),
    decreases lattice.t - k,
{
    if k < lattice.t - 1 {
        lemma_trace_possible(lattice, k + 1);
        let i = lattice.state_at(k + 1);
        lemma_step_bounds(lattice, k + 1, i);
        lemma_emission_ordinary(lattice, k + 1, i);
    }
}

proof fn lemma_trace_score<S: Score>(lattice: Lattice<S>, k: int)
    requires
        orderly::<S>(),
        accepted(lattice),
        ordinary_emissions(lattice),
        lattice.alpha(lattice.t - 1, lattice.last_state()) != S::floor_of(),
        0 <= k < lattice.t,
    ensures
        walk_score(lattice, trace(lattice), k) == lattice.alpha(k, lattice.state_at(k)),
    decreases k,
{
    lemma_trace_possible(lattice, k);
    if k > 0 {
        lemma_trace_score(lattice, k - 1);
        lemma_step_bounds(lattice, k, lattice.state_at(k));
    }
}

/// If the best final score is possible at all, the trace is an alignment
/// with that score.
pub proof fn law_trace_is_alignment<S: Score>(lattice: Lattice<S>)
    requires
        orderly::<S>(),
        accepted(lattice),
        ordinary_emissions(lattice),
        lattice.alpha(lattice.t - 1, lattice.last_state()) != S::floor_of(),
    ensures
        is_alignment(lattice, trace(lattice)),
        walk_score(lattice, trace(lattice), lattice.t - 1) == lattice.alpha(
            lattice.t - 1,
            lattice.last_state(),
        ),
        aligned_path(lattice) == labels_of(lattice, trace(lattice)),
{
    let walk = trace(lattice);
    assert forall|k: int| 0 <= k < lattice.t implies 0 <= #[trigger] walk[k]
        < lattice.states() by {
        lemma_state_bounds(lattice, k);
    }
    assert forall|k: int| 1 <= k < lattice.t implies moves(
        lattice,
        walk[k - 1],
        #[trigger] walk[k],
    ) by {
        lemma_state_bounds(lattice, k);
        lemma_step_bounds(lattice, k, lattice.state_at(k));
    }
    lemma_trace_possible(lattice, 0);
    if walk[0] > 1 {
        lattice.lemma_counts_step(1);
        lattice.lemma_counts_ordered(2, walk[0]);
    }
    lemma_trace_score(lattice, lattice.t - 1);
    assert(aligned_path(lattice) =~= labels_of(lattice, walk));
}

/// The alignment that is found scores at least as high as any alignment that
/// passes through no tie, and says the targets.  Sums are taken from the
/// first frame on, as the recurrence takes them.
pub proof fn law_no_alignment_scores_higher<S: Score>(lattice: Lattice<S>, walk: Seq<int>)
    requires
        orderly::<S>(),
        accepted(lattice),
        ordinary_emissions(lattice),
        is_alignment(lattice, walk),
        untied(lattice, walk),
        walk_score(lattice, walk, lattice.t - 1) != S::floor_of(),
    ensures
        is_alignment(lattice, trace(lattice)),
        !walk_score(lattice, walk, lattice.t - 1).above_of(
            walk_score(lattice, trace(lattice), lattice.t - 1),
        ),
        collapse(aligned_path(lattice), lattice.blank) == lattice.targets,
{
    let last = lattice.t - 1;
    let score = walk_score(lattice, walk, last);
    lemma_alpha_covers(lattice, walk, last);
    let s1 = lattice.states() - 1;
    let s2 = lattice.states() - 2;
    lemma_alpha_ordinary(lattice, last, s1);
    lemma_alpha_ordinary(lattice, last, s2);
    let best = lattice.alpha(last, lattice.last_state());
    assert(!lattice.alpha(last, walk[last]).above_of(best)) by {
        if lattice.alpha(last, s1).above_of(lattice.alpha(last, s1)) {
        }
        if lattice.alpha(last, s2).above_of(lattice.alpha(last, s2)) {
        }
        assert(walk[last] == s1 || walk[last] == s2);
    }
    assert(!score.above_of(best));
    assert(best != S::floor_of()) by {
        if best == S::floor_of() {
            assert(score.above_of(S::floor_of()));
        }
    }
    law_trace_is_alignment(lattice);
    law_alignment_spells_targets(lattice, trace(lattice));
}

/// The path that is found scores at least as high as any path of tokens that
/// says the targets and passes through no tie.
pub proof fn law_no_path_scores_higher<S: Score>(lattice: Lattice<S>, path: Seq<usize>)
    requires
        orderly::<S>(),
        accepted(lattice),
        ordinary_emissions(lattice),
        spells(lattice, path),
        untied(lattice, walk_of(path, lattice.blank)),
        path_score(lattice, path, lattice.t - 1) != S::floor_of(),
    ensures
        spells(lattice, aligned_path(lattice)),
        !path_score(lattice, path, lattice.t - 1).above_of(
            path_score(lattice, aligned_path(lattice), lattice.t - 1),
        ),
{
    let walk = walk_of(path, lattice.blank);
    let last = lattice.t - 1;
    law_spelling_is_alignment(lattice, path);
    law_walk_scores_its_tokens(lattice, walk, last);
    law_no_alignment_scores_higher(lattice, walk);
    law_walk_scores_its_tokens(lattice, trace(lattice), last);
    assert(labels_of(lattice, trace(lattice)) =~= aligned_path(lattice));
}

/// Whether a path has one token of the problem for each frame.
pub open spec fn is_path<S: Score>(lattice: Lattice<S>, path: Seq<usize>) -> bool {
    &&& path.len() == lattice.t
    &&& forall|j: int| 0 <= j < path.len() ==> #[trigger] path[j] < lattice.c
}

/// Whether no path of tokens sums up to negative infinity, at any frame.
pub open spec fn possible_paths<S: Score>(lattice: Lattice<S>) -> bool {
    forall|path: Seq<usize>, k: int|
        is_path(lattice, path) && 0 <= k < lattice.t ==> #[trigger] path_score(lattice, path, k)
            != S::floor_of()
}

/// Whether the sum of two possible scores is possible.
pub open spec fn possible_sums<S: Score>() -> bool {
    forall|a: S, b: S|
        a.ordinary() && b.ordinary() && a != S::floor_of() && b != S::floor_of()
            ==> #[trigger] a.plus_of(b) != S::floor_of()
}

/// Whether no score of the matrix is negative infinity.
pub open spec fn possible_emissions<S: Score>(lattice: Lattice<S>) -> bool {
    forall|k: int|
        0 <= k < lattice.log_probs.len() ==> #[trigger] lattice.log_probs[k] != S::floor_of()
}

/// Fixed-point sums stay above negative infinity.
pub proof fn law_fixed_point_sums_are_possible()
    ensures
        possible_sums::<i64>(),
{
}

/// Where no sum of possible scores is negative infinity, it is enough that no
/// score of the matrix is.
pub proof fn law_possible_sums_make_paths<S: Score>(lattice: Lattice<S>)
    requires
        orderly::<S>(),
        possible_sums::<S>(),
        accepted(lattice),
        ordinary_emissions(lattice),
        possible_emissions(lattice),
    ensures
        possible_paths(lattice),
{
    assert forall|path: Seq<usize>, k: int|
        is_path(lattice, path) && 0 <= k < lattice.t implies #[trigger] path_score(
        lattice,
        path,
        k,
    ) != S::floor_of() by {
        lemma_sum_is_possible(lattice, path, k);
    }
}

proof fn lemma_sum_is_possible<S: Score>(lattice: Lattice<S>, path: Seq<usize>, k: int)
    requires
        orderly::<S>(),
        possible_sums::<S>(),
        accepted(lattice),
        ordinary_emissions(lattice),
        possible_emissions(lattice),
        is_path(lattice, path),
        0 <= k < lattice.t,
    ensures
        path_score(lattice, path, k) != S::floor_of(),
        path_score(lattice, path, k).ordinary(),
    decreases k,
{
    assert(path[k] < lattice.c);
    lemma_row_fits(k, path[k] as int, lattice.t, lattice.c);
    if k > 0 {
        lemma_sum_is_possible(lattice, path, k - 1);
    }
}

/// The score of the first frames depends on their tokens alone.
proof fn lemma_score_of_prefix<S: Score>(
    lattice: Lattice<S>,
    a: Seq<usize>,
    b: Seq<usize>,
    k: int,
)
    requires
        0 <= k,
        forall|j: int| 0 <= j <= k ==> #[trigger] a[j] == b[j],
    ensures
        path_score(lattice, a, k) == path_score(lattice, b, k),
    decreases k,
{
    assert(a[k] == b[k]);
    if k > 0 {
        lemma_score_of_prefix(lattice, a, b, k - 1);
    }
}

/// The score of a live cell is that of some path, up to its frame, however its
/// predecessors tie.
proof fn lemma_cell_has_path<S: Score>(lattice: Lattice<S>, time: int, i: int) -> (path: Seq<usize>)
    requires
        orderly::<S>(),
        accepted(lattice),
        ordinary_emissions(lattice),
        possible_paths(lattice),
        0 <= time < lattice.t,
        lattice.alive(time, i),
    ensures
        is_path(lattice, path),
        path_score(lattice, path, time) == lattice.alpha(time, i),
        lattice.alpha(time, i) != S::floor_of(),
    decreases time,
{
    let v = lattice.label(i);
    assert(v < lattice.c);
    if time == 0 {
        let path = Seq::new(lattice.t as nat, |k: int| v);
        assert(path_score(lattice, path, 0) == lattice.alpha(0, i));
        path
    } else {
        let x0 = lattice.alpha(time - 1, i);
        let x1 = lattice.alpha(time - 1, i - 1);
        let x2 = lattice.jump(time - 1, i);
        lemma_alpha_ordinary(lattice, time - 1, i);
        lemma_alpha_ordinary(lattice, time - 1, i - 1);
        lemma_alpha_ordinary(lattice, time - 1, i - 2);
        if lattice.fewest(i) <= time {
            let stayed = lemma_cell_has_path(lattice, time - 1, i);
            assert(x0.above_of(S::floor_of()));
        } else {
            if i > 0 {
                lattice.lemma_counts_step(i - 1);
            }
            if i == 0 {
                lattice.lemma_counts_step(0);
            } else if lattice.skips(i) {
                lattice.lemma_counts_step(i - 2);
                let jumped = lemma_cell_has_path(lattice, time - 1, i - 2);
                assert(x2.above_of(S::floor_of()));
            } else {
                let moved = lemma_cell_has_path(lattice, time - 1, i - 1);
                assert(x1.above_of(S::floor_of()));
            }
        }
        let j = i - lattice.step(time, i);
        assert(lattice.alpha(time - 1, j) != S::floor_of());
        let before = lemma_cell_has_path(lattice, time - 1, j);
        let path = before.update(time, v);
        lemma_score_of_prefix(lattice, path, before, time - 1);
        assert(path_score(lattice, path, time) == lattice.alpha(time, i));
        path
    }
}

/// Where no path of tokens sums up to negative infinity, the trace is an
/// alignment and the path that is found says the targets, however cells tie.
pub proof fn law_possible_paths_spell<S: Score>(lattice: Lattice<S>)
    requires
        orderly::<S>(),
        accepted(lattice),
        ordinary_emissions(lattice),
        possible_paths(lattice),
    ensures
        is_alignment(lattice, trace(lattice)),
        collapse(aligned_path(lattice), lattice.blank) == lattice.targets,
{
    let last = lattice.t - 1;
    let token = lattice.states() - 2;
    lattice.lemma_counts_step(token);
    let path = lemma_cell_has_path(lattice, last, token);
    lemma_alpha_ordinary(lattice, last, token);
    lemma_alpha_ordinary(lattice, last, token + 1);
    assert(lattice.alpha(last, token).above_of(S::floor_of()));
    law_trace_is_alignment(lattice);
    law_alignment_spells_targets(lattice, trace(lattice));
}

/// Where no path of tokens sums up to negative infinity and no live cell is
/// tied, no alignment scores higher than the trace, and no path of tokens that
/// says the targets scores higher than the path that is found.
pub proof fn law_possible_paths_align<S: Score>(lattice: Lattice<S>)
    requires
        orderly::<S>(),
        accepted(lattice),
        ordinary_emissions(lattice),
        possible_paths(lattice),
        forall|time: int, i: int|
            1 <= time < lattice.t && lattice.alive(time, i) ==> !#[trigger] tied(lattice, time, i),
    ensures
        forall|walk: Seq<int>| #[trigger]
            is_alignment(lattice, walk) ==> !walk_score(lattice, walk, lattice.t - 1).above_of(
                walk_score(lattice, trace(lattice), lattice.t - 1),
            ),
        forall|path: Seq<usize>| #[trigger]
            spells(lattice, path) ==> !path_score(lattice, path, lattice.t - 1).above_of(
                path_score(lattice, aligned_path(lattice), lattice.t - 1),
            ),
{
    assert forall|walk: Seq<int>| #[trigger] is_alignment(lattice, walk) implies !walk_score(
        lattice,
        walk,
        lattice.t - 1,
    ).above_of(walk_score(lattice, trace(lattice), lattice.t - 1)) by {
        lemma_walk_possible(lattice, walk);
        lemma_alignment_untied(lattice, walk);
        law_no_alignment_scores_higher(lattice, walk);
    }
    assert forall|path: Seq<usize>| #[trigger] spells(lattice, path) implies !path_score(
        lattice,
        path,
        lattice.t - 1,
    ).above_of(path_score(lattice, aligned_path(lattice), lattice.t - 1)) by {
        let walk = walk_of(path, lattice.blank);
        law_spelling_is_alignment(lattice, path);
        law_walk_scores_its_tokens(lattice, walk, lattice.t - 1);
        lemma_walk_possible(lattice, walk);
        lemma_alignment_untied(lattice, walk);
        law_no_path_scores_higher(lattice, path);
    }
}

proof fn lemma_alignment_untied<S: Score>(lattice: Lattice<S>, walk: Seq<int>)
    requires
        accepted(lattice),
        is_alignment(lattice, walk),
        forall|time: int, i: int|
            1 <= time < lattice.t && lattice.alive(time, i) ==> !#[trigger] tied(lattice, time, i),
    ensures
        untied(lattice, walk),
{
    assert forall|k: int| 1 <= k < lattice.t implies !tied(lattice, k, #[trigger] walk[k]) by {
        law_alignment_is_alive(lattice, walk, k);
    }
}

/// The tokens of an alignment are a path, so their sum is possible.
proof fn lemma_walk_possible<S: Score>(lattice: Lattice<S>, walk: Seq<int>)
    requires
        accepted(lattice),
        possible_paths(lattice),
        is_alignment(lattice, walk),
    ensures
        walk_score(lattice, walk, lattice.t - 1) != S::floor_of(),
{
    let path = labels_of(lattice, walk);
    assert forall|j: int| 0 <= j < path.len() implies #[trigger] path[j] < lattice.c by {
        let i = walk[j];
        assert(0 <= i < lattice.states());
        assert(path[j] == lattice.label(i));
    }
    law_walk_scores_its_tokens(lattice, walk, lattice.t - 1);
}

/// A path says the tokens at the heads of its runs that are not blank, all of
/// them and in order.
pub proof fn law_collapse_says_run_heads(path: Seq<usize>, blank: usize) -> (ks: Seq<int>)
    ensures
        ks.len() == collapse(path, blank).len(),
        forall|i: int|
            0 <= i < ks.len() ==> 0 <= #[trigger] ks[i] < path.len() && path[ks[i]] != blank && (
            ks[i] == 0 || path[ks[i] - 1] != path[ks[i]]) && collapse(path, blank)[i]
                == path[ks[i]],
        forall|i: int, j: int| 0 <= i < j < ks.len() ==> #[trigger] ks[i] < #[trigger] ks[j],
        forall|k: int|
            0 <= k < path.len() && #[trigger] path[k] != blank && (k == 0 || path[k - 1]
                != path[k]) ==> ks.contains(k),
    decreases path.len(),
{
    if path.len() == 0 {
        Seq::empty()
    } else {
        let before = path.drop_last();
        let n = before.len() as int;
        let old_ks = law_collapse_says_run_heads(before, blank);
        let head = path[n] != blank && (n == 0 || path[n - 1] != path[n]);
        let ks = if head {
            old_ks.push(n)
        } else {
            old_ks
        };
        assert forall|i: int| 0 <= i < ks.len() implies 0 <= #[trigger] ks[i] < path.len()
            && path[ks[i]] != blank && (ks[i] == 0 || path[ks[i] - 1] != path[ks[i]]) && collapse(
            path,
            blank,
        )[i] == path[ks[i]] by {
            if i < old_ks.len() {
                let k = old_ks[i];
                assert(before[k] == path[k]);
                if k > 0 {
                    assert(before[k - 1] == path[k - 1]);
                }
            }
        }
        assert forall|k: int|
            0 <= k < path.len() && #[trigger] path[k] != blank && (k == 0 || path[k - 1]
                != path[k]) implies ks.contains(k) by {
            if k < n {
                assert(before[k] == path[k]);
                let i = choose|i: int| 0 <= i < old_ks.len() && old_ks[i] == k;
                assert(ks[i] == k);
            } else {
                assert(ks[ks.len() - 1] == n);
            }
        }
        ks
    }
}

/// The places, up to `k`, at which a target equals the one before it.
pub open spec fn repeat_places(targets: Seq<usize>, k: int) -> Set<int> {
    Set::new(|j: int| 1 <= j < k && targets[j] == targets[j - 1])
}

/// The repeats are as many as the places at which a target equals the one before
/// it.
pub proof fn law_repeats_count_places(targets: Seq<usize>)
    ensures
        repeat_places(targets, targets.len() as int).finite(),
        repeats(targets) == repeat_places(targets, targets.len() as int).len(),
{
    lemma_repeats_count(targets, targets.len() as int);
}

proof fn lemma_repeats_count(targets: Seq<usize>, k: int)
    requires
        0 <= k <= targets.len(),
    ensures
        repeat_places(targets, k).finite(),
        repeats_upto(targets, k) == repeat_places(targets, k).len(),
    decreases k,
{
    if k <= 1 {
        assert(repeat_places(targets, k) =~= Set::<int>::empty());
    } else {
        lemma_repeats_count(targets, k - 1);
        let before = repeat_places(targets, k - 1);
        if targets[k - 1] == targets[k - 2] {
            assert(repeat_places(targets, k) =~= before.insert(k - 1));
        } else {
            assert(repeat_places(targets, k) =~= before);
        }
    }
}

/// Whether a request is in order but for its length: the matrix has its size,
/// there are frames and targets, and the blank and the targets are columns that
/// differ.
pub open spec fn in_order(len: int, t: int, c: int, targets: Seq<usize>, blank: usize) -> bool {
    &&& len == t * c
    &&& t > 0
    &&& blank < c
    &&& targets.len() > 0
    &&& forall|k: int| 0 <= k < targets.len() ==> #[trigger] targets[k] < c && targets[k] != blank
}

/// A request that is in order is accepted exactly where some path of as many
/// tokens as there are frames says the targets.
pub proof fn law_accepted_iff_some_path(
    len: nat,
    t: usize,
    c: usize,
    targets: Seq<usize>,
    blank: usize,
)
    requires
        in_order(len as int, t as int, c as int, targets, blank),
    ensures
        align_error(len, t, c, targets, blank) is None <==> exists|path: Seq<usize>|
            path.len() == t && #[trigger] collapse(path, blank) == targets,
{
    let lattice = lattice_of(Seq::new(len, |k: int| 0i64), t, c, targets, blank);
    assert(!targets.contains(blank));
    law_refused_iff_no_alignment(lattice);
    if align_error(len, t, c, targets, blank) is None {
        let walk = choose|walk: Seq<int>| is_alignment(lattice, walk);
        law_alignment_spells_targets(lattice, walk);
        assert(labels_of(lattice, walk).len() == t);
    }
    if exists|path: Seq<usize>| path.len() == t && #[trigger] collapse(path, blank) == targets {
        let path = choose|path: Seq<usize>|
            path.len() == t && #[trigger] collapse(path, blank) == targets;
        assert(spells(lattice, path));
        law_spelling_is_alignment(lattice, path);
    }
}

/// What a request comes to, and why it is refused: the first of its faults, in
/// the order matrix, blank, blank among the targets, target out of range, no
/// target, no frame, and, with all in order, no path that says the targets.
pub proof fn law_request_outcome(
    len: nat,
    t: usize,
    c: usize,
    targets: Seq<usize>,
    blank: usize,
)
    requires
        len <= usize::MAX,
        targets.len() <= usize::MAX,
    ensures
        match align_error(len, t, c, targets, blank) {
            None => in_order(len as int, t as int, c as int, targets, blank) && exists|
                path: Seq<usize>,
            |
                path.len() == t && #[trigger] collapse(path, blank) == targets,
            Some(AlignError::LengthMismatch { len: l, t: a, c: b }) => len != t * c && l == len
                && a == t && b == c,
            Some(AlignError::BlankOutOfRange { blank: b, c: n }) => len == t * c && blank >= c
                && b == blank && n == c,
            Some(AlignError::TargetIsBlank { blank: b }) => len == t * c && blank < c && b == blank
                && exists|k: int| 0 <= k < targets.len() && #[trigger] targets[k] == blank,
            Some(AlignError::TargetOutOfRange { c: n }) => len == t * c && blank < c && n == c
                && (forall|k: int| 0 <= k < targets.len() ==> #[trigger] targets[k] != blank)
                && exists|k: int| 0 <= k < targets.len() && #[trigger] targets[k] >= c,
            Some(AlignError::EmptyTargets) => len == t * c && blank < c && targets.len() == 0,
            Some(AlignError::NoFrames) => len == t * c && blank < c && targets.len() > 0 && t == 0
                && forall|k: int|
                0 <= k < targets.len() ==> #[trigger] targets[k] < c && targets[k] != blank,
            Some(AlignError::TargetsTooLong { t: a, l, repeats: n }) => in_order(
                len as int,
                t as int,
                c as int,
                targets,
                blank,
            ) && a == t && l == targets.len() && n == repeat_places(
                targets,
                targets.len() as int,
            ).len() && forall|path: Seq<usize>|
                path.len() == t ==> #[trigger] collapse(path, blank) != targets,
        },
{
    assert forall|k: int|
        !targets.contains(blank) && 0 <= k < targets.len() implies #[trigger] targets[k]
        != blank by {}
    if in_order(len as int, t as int, c as int, targets, blank) {
        law_accepted_iff_some_path(len, t, c, targets, blank);
        law_repeats_count_places(targets);
        lemma_repeats_step(targets, 0, targets.len() as int);
    }
}

/// What the trellis scores a live cell: the frame's own score of the cell's token,
/// added to the best of the cells that lead there.  A jump over a blank counts
/// between different tokens only, and wins only over both others; so does the
/// cell before; else the walk stays.
pub proof fn law_cell_adds_to_its_best<S: Score>(lattice: Lattice<S>, time: int, i: int)
    requires
        1 <= time < lattice.t,
        lattice.alive(time, i),
    ensures
        ({
            let stay = lattice.alpha(time - 1, i);
            let next = lattice.alpha(time - 1, i - 1);
            let jump = if i % 2 == 1 && i >= 3 && lattice.targets[i / 2] != lattice.targets[i / 2
                - 1] {
                lattice.alpha(time - 1, i - 2)
            } else {
                S::floor_of()
            };
            let token = if i % 2 == 0 {
                lattice.blank
            } else {
                lattice.targets[i / 2]
            };
            let best = if i > 0 && jump.above_of(next) && jump.above_of(stay) {
                jump
            } else if i > 0 && next.above_of(stay) && next.above_of(jump) {
                next
            } else {
                stay
            };
            lattice.alpha(time, i) == best.plus_of(lattice.log_probs[time * lattice.c + token])
        }),
{
}

/// The walk that is traced back: it ends on the last blank only if that scores
/// above the last token, and each step back goes to the cell that won.
pub proof fn law_trace_goes_to_the_winner<S: Score>(lattice: Lattice<S>, time: int)
    requires
        1 <= time < lattice.t,
        lattice.alive(time, lattice.state_at(time)),
    ensures
        ({
            let n = 2 * (lattice.targets.len() as int);
            let end = lattice.alpha(lattice.t - 1, n).above_of(
                lattice.alpha(lattice.t - 1, n - 1),
            );
            lattice.state_at(lattice.t - 1) == (if end {
                n
            } else {
                n - 1
            })
        }),
        ({
            let i = lattice.state_at(time);
            let stay = lattice.alpha(time - 1, i);
            let next = lattice.alpha(time - 1, i - 1);
            let jump = if i % 2 == 1 && i >= 3 && lattice.targets[i / 2] != lattice.targets[i / 2
                - 1] {
                lattice.alpha(time - 1, i - 2)
            } else {
                S::floor_of()
            };
            lattice.state_at(time - 1) == (if i > 0 && jump.above_of(next) && jump.above_of(stay) {
                i - 2
            } else if i > 0 && next.above_of(stay) && next.above_of(jump) {
                i - 1
            } else {
                i
            })
        }),
{
}

/// The first row of the trellis: the scores of the first blank and of the first
/// token, where they can begin an alignment; no other cell can.
pub proof fn law_trellis_begins<S: Score>(lattice: Lattice<S>, i: int)
    requires
        lattice.t > 0,
        lattice.targets.len() > 0,
    ensures
        lattice.alive(0, i) ==> 0 <= i <= 1,
        lattice.alive(0, 0) ==> lattice.alpha(0, 0) == lattice.log_probs[lattice.blank as int],
        lattice.alive(0, 1) ==> lattice.alpha(0, 1) == lattice.log_probs[lattice.targets[0] as int],
        !lattice.alive(0, i) ==> lattice.alpha(0, i) == S::floor_of(),
{
    if lattice.alive(0, i) && i > 1 {
        lattice.lemma_counts_step(1);
        lattice.lemma_counts_ordered(2, i);
    }
}

/// The path has one token for each frame, the blank or a target, and beside each
/// the frame's own score of it.
pub proof fn law_path_and_scores<S: Score>(lattice: Lattice<S>, k: int)
    requires
        accepted(lattice),
        0 <= k < lattice.t,
    ensures
        aligned_path(lattice).len() == lattice.t,
        aligned_scores(lattice).len() == lattice.t,
        aligned_path(lattice)[k] == lattice.blank || lattice.targets.contains(
            aligned_path(lattice)[k],
        ),
        aligned_scores(lattice)[k] == lattice.log_probs[k * lattice.c + aligned_path(lattice)[k]],
{
    lemma_state_bounds(lattice, k);
    let i = lattice.state_at(k);
    if i % 2 == 1 {
        assert(lattice.targets.contains(lattice.targets[i / 2]));
    }
}

/// The score of a path is the sum of its frames' scores, from the first on.
pub proof fn law_path_score_adds_up<S: Score>(lattice: Lattice<S>, path: Seq<usize>, k: int)
    requires
        0 <= k,
    ensures
        path_score(lattice, path, 0) == lattice.log_probs[path[0] as int],
        path_score(lattice, path, k + 1) == path_score(lattice, path, k).plus_of(
            lattice.log_probs[(k + 1) * lattice.c + path[k + 1]],
        ),
{
    assert(0 * lattice.c == 0) by (nonlinear_arith);
}

/// Fixed-point scores add as numbers do, as long as the sum fits; nothing that is
/// impossible becomes possible by a sum; and the greater of two is above the
/// other.
pub proof fn law_fixed_point_adds(a: i64, b: i64)
    ensures
        a != i64::MIN && b != i64::MIN && i64::MIN < a + b <= i64::MAX ==> a.plus_of(b) == a + b,
        a == i64::MIN || b == i64::MIN ==> a.plus_of(b) == i64::MIN,
        a != i64::MIN && b != i64::MIN ==> a.plus_of(b) != i64::MIN,
        a.above_of(b) <==> a > b,
        <i64 as Score>::floor_of() == i64::MIN,
{
}

} // verus!
