//! What the pipeline promises as a whole: an alignment that says the targets
//! times every piece of the transcript, in order.

use vstd::arithmetic::div_mod::{lemma_div_by_multiple, lemma_fundamental_div_mod};
use vstd::prelude::*;

use crate::alignment::{
    accepted, collapse, law_possible_paths_spell, orderly, ordinary_emissions, possible_paths,
};
use crate::chars::{joined, lemma_split_has_part, non_empty, split_by, split_spaces};
use crate::ctc::{align_error, aligned_path, lattice_of, lemma_state_bounds, Score};
use crate::inference::{
    all_fit, blank_name, covered_count, is_told, run_labels, timed, token_frames, AlignFailure,
    Alignment,
};
use crate::kernels::{default_stack, law_default_stack_frames, stack_after, StackError};
use crate::postprocess::{
    are_spans, covered, expected, interval, is_run, is_span, item_views, labels,
    law_runs_partition, lemma_expected_prefix, lemma_spoken_prefix, letters, runs, span_error,
    spoken, token_name, Segment, SpanErrorView,
};
use crate::text::{
    are_names, lowercase, spelled, spelled_pieces, star_each, token_parts, with_stars,
    STAR,
};
use crate::windows::{all_kept, joined_frames, kept_from, kept_to, windows_for};

verus! {

/// The labels that are not blank, in order.
pub open spec fn said(labels: Seq<Seq<char>>, blank: Seq<char>) -> Seq<Seq<char>> {
    spoken(labels, blank, labels.len() as int).map_values(|i: int| labels[i])
}

/// The names of ids.
pub open spec fn names_of(ids: Seq<usize>, names: Map<usize, String>) -> Seq<Seq<char>> {
    ids.map_values(|v: usize| token_name(names, v))
}

/// Whether, on a path, exactly the blank has the name of the blank.
pub open spec fn blank_is_apart(
    path: Seq<usize>,
    names: Map<usize, String>,
    blank: usize,
    label: Seq<char>,
) -> bool {
    forall|k: int|
        0 <= k < path.len() ==> ((token_name(names, #[trigger] path[k]) == label) <==> path[k]
            == blank)
}

/// The positions of the labels that are not blank depend on the labels alone.
proof fn lemma_spoken_agrees(a: Seq<Seq<char>>, b: Seq<Seq<char>>, blank: Seq<char>, n: int)
    requires
        0 <= n <= a.len(),
        n <= b.len(),
        forall|k: int| 0 <= k < n ==> #[trigger] a[k] == b[k],
    ensures
        spoken(a, blank, n) == spoken(b, blank, n),
    decreases n,
{
    if n > 0 {
        lemma_spoken_agrees(a, b, blank, n - 1);
        assert(a[n - 1] == b[n - 1]);
    }
}

/// The runs of a path that are not blank say what the path says.
pub proof fn law_runs_say_path(
    path: Seq<usize>,
    names: Map<usize, String>,
    blank: usize,
    label: Seq<char>,
)
    requires
        blank_is_apart(path, names, blank, label),
    ensures
        said(run_labels(path, names), label) == names_of(collapse(path, blank), names),
    decreases path.len(),
{
    let labs = run_labels(path, names);
    if path.len() == 0 {
        assert(said(labs, label) =~= names_of(collapse(path, blank), names));
    } else {
        let n = path.len() - 1;
        let shorter = path.drop_last();
        let labs0 = run_labels(shorter, names);
        assert(blank_is_apart(shorter, names, blank, label)) by {
            assert forall|k: int| 0 <= k < shorter.len() implies ((token_name(
                names,
                #[trigger] shorter[k],
            ) == label) <==> shorter[k] == blank) by {
                assert(shorter[k] == path[k]);
            }
        }
        law_runs_say_path(shorter, names, blank, label);
        if n > 0 {
            law_runs_partition(shorter);
            assert forall|k: int| 0 <= k < labs0.len() implies #[trigger] labs0[k] == token_name(
                names,
                path[runs(shorter)[k].0],
            ) by {
                assert(is_run(shorter, runs(shorter), k));
            }
        }
        if n > 0 && path[n - 1] == path[n] {
            assert(labs =~= labs0);
        } else {
            let m = labs0.len() as int;
            assert(labs =~= labs0.push(token_name(names, path[n])));
            lemma_spoken_agrees(labs, labs0, label, m);
            lemma_spoken_prefix(labs0, label, 0, m);
            let before = spoken(labs0, label, m);
            let now = spoken(labs, label, m + 1);
            assert((token_name(names, path[n]) == label) <==> path[n] == blank);
            assert forall|i: int| 0 <= i < before.len() implies labs[#[trigger] before[i]]
                == labs0[before[i]] by {
                assert(0 <= before[i] < m);
            }
            if path[n] == blank {
                assert(now == before);
                assert(said(labs, label) =~= said(labs0, label));
            } else {
                assert(now == before.push(m));
                assert(said(labs, label) =~= said(labs0, label).push(labs[m]));
                assert(names_of(collapse(path, blank), names) =~= names_of(
                    collapse(shorter, blank),
                    names,
                ).push(token_name(names, path[n])));
            }
        }
    }
}

/// A path that says the letters of the tokens fits them: every run is the
/// letter that is waited for, or a blank, and every token is covered.
pub proof fn law_spelled_path_fits(
    tokens: Seq<Seq<char>>,
    path: Seq<usize>,
    names: Map<usize, String>,
    blank: usize,
    label: Seq<char>,
)
    requires
        blank_is_apart(path, names, blank, label),
        names_of(collapse(path, blank), names) == expected(tokens, tokens.len() as int),
    ensures
        all_fit(tokens, run_labels(path, names), label),
        covered_count(tokens, run_labels(path, names), label, tokens.len() as int)
            == tokens.len(),
{
    let labs = run_labels(path, names);
    let n = labs.len() as int;
    let all = expected(tokens, tokens.len() as int);
    let at = spoken(labs, label, n);
    law_runs_say_path(path, names, blank, label);
    assert(at.len() == all.len());
    assert forall|k: int| 0 <= k < n implies #[trigger] span_error(tokens, labs, label, k)
        is None by {
        let have = spoken(labs, label, k).len() as int;
        lemma_spoken_prefix(labs, label, k + 1, n);
        lemma_spoken_prefix(labs, label, k, n);
        if have >= all.len() {
            assert(labs[k] == label);
            if k < n - 1 {
                lemma_spoken_prefix(labs, label, k + 2, n);
                assert(labs[k + 1] == label);
                law_runs_partition(path);
                let rs = runs(path);
                assert(is_run(path, rs, k));
                assert(is_run(path, rs, k + 1));
                assert(path[rs[k].0] == blank);
                assert(path[rs[k + 1].0] == blank);
            }
        } else if labs[k] != label {
            assert(spoken(labs, label, k + 1)[have] == k);
            assert(at[have] == k);
            assert(said(labs, label)[have] == labs[k]);
        }
    }
}

/// Splitting two texts with a space between them gives the parts of both.
pub(crate) proof fn lemma_split_at_join(a: Seq<char>, b: Seq<char>)
    ensures
        split_spaces(a.push(' ') + b) == split_spaces(a) + split_spaces(b),
    decreases b.len(),
{
    let cut = |c: char| c == ' ';
    let whole = a.push(' ') + b;
    if b.len() == 0 {
        assert(whole =~= a.push(' '));
        assert(whole.drop_last() =~= a);
        assert(split_by(whole, cut) =~= split_by(a, cut) + split_by(b, cut));
    } else {
        lemma_split_at_join(a, b.drop_last());
        lemma_split_has_part(b.drop_last(), cut);
        assert(whole.drop_last() =~= a.push(' ') + b.drop_last());
        let left = split_by(a, cut);
        let right = split_by(b.drop_last(), cut);
        assert((left + right).drop_last() =~= left + right.drop_last());
        assert(split_by(whole, cut) =~= left + split_by(b, cut));
    }
}

/// The parts of two lists that are not empty.
pub(crate) proof fn lemma_non_empty_of_sum(a: Seq<Seq<char>>, b: Seq<Seq<char>>)
    ensures
        non_empty(a + b) == non_empty(a) + non_empty(b),
    decreases b.len(),
{
    if b.len() == 0 {
        assert(a + b =~= a);
        assert(non_empty(a) + non_empty(b) =~= non_empty(a));
    } else {
        lemma_non_empty_of_sum(a, b.drop_last());
        assert((a + b).drop_last() =~= a + b.drop_last());
        assert(non_empty(a + b) =~= non_empty(a) + non_empty(b));
    }
}

/// Where no part is empty, none is left out.
proof fn lemma_non_empty_of_full(parts: Seq<Seq<char>>)
    requires
        forall|l: int| 0 <= l < parts.len() ==> (#[trigger] parts[l]).len() > 0,
    ensures
        non_empty(parts) == parts,
    decreases parts.len(),
{
    if parts.len() > 0 {
        lemma_non_empty_of_full(parts.drop_last());
        assert(parts.drop_last().push(parts.last()) =~= parts);
    }
}

/// Whether no token waits for an empty letter: the first token is not empty,
/// and there are no spaces but single ones between letters.
pub open spec fn well_spelled(tokens: Seq<Seq<char>>) -> bool {
    forall|j: int, l: int|
        0 <= j < tokens.len() && 0 <= l < letters(tokens, j).len() ==> (#[trigger] letters(
            tokens,
            j,
        )[l]).len() > 0
}

/// The parts that are looked up in the vocabulary are the letters that the
/// tokens wait for.
pub proof fn law_parts_are_letters(tokens: Seq<Seq<char>>)
    requires
        well_spelled(tokens),
    ensures
        token_parts(tokens) == expected(tokens, tokens.len() as int),
{
    let n = tokens.len() as int;
    if n == 0 {
        reveal_with_fuel(non_empty, 2);
        let empty = joined(tokens);
        assert(split_spaces(empty) =~= seq![Seq::<char>::empty()]);
        assert(split_spaces(empty).drop_last() =~= Seq::<Seq<char>>::empty());
    } else {
        lemma_parts_of_first(tokens, n);
        assert(tokens.take(n) =~= tokens);
    }
}

/// The same, for the first `n` tokens.
proof fn lemma_parts_of_first(tokens: Seq<Seq<char>>, n: int)
    requires
        well_spelled(tokens),
        1 <= n <= tokens.len(),
    ensures
        token_parts(tokens.take(n)) == expected(tokens, n),
    decreases n,
{
    let head = tokens.take(n);
    let last = tokens[n - 1];
    let parts = letters(tokens, n - 1);
    assert(head.last() == last);
    assert forall|l: int| 0 <= l < parts.len() implies (#[trigger] parts[l]).len() > 0 by {
        assert(letters(tokens, n - 1)[l].len() > 0);
    }
    lemma_non_empty_of_full(parts);
    if n == 1 {
        reveal_with_fuel(expected, 2);
        assert(expected(tokens, 1) =~= parts);
    } else {
        lemma_parts_of_first(tokens, n - 1);
        assert(head.drop_last() =~= tokens.take(n - 1));
        let before = joined(tokens.take(n - 1));
        lemma_split_at_join(before, last);
        lemma_non_empty_of_sum(split_spaces(before), split_spaces(last));
        if last.len() == 0 {
            assert(split_spaces(last) =~= seq![Seq::<char>::empty()]);
            assert(split_spaces(last).drop_last() =~= Seq::<Seq<char>>::empty());
            assert(non_empty(split_spaces(last)) =~= parts);
        }
        assert(non_empty(split_spaces(last)) == parts);
    }
}

/// Whether no id stands for two tokens.
pub open spec fn distinct_ids(vocab: Map<Seq<char>, usize>) -> bool {
    forall|a: Seq<char>, b: Seq<char>| #[trigger]
        vocab.contains_key(a) && #[trigger] vocab.contains_key(b) && vocab[a] == vocab[b] ==> a == b
}

/// Whether `targets` are the ids of the tokens' letters, which are in
/// lowercase.
pub open spec fn are_targets(
    targets: Seq<usize>,
    tokens: Seq<Seq<char>>,
    vocab: Map<Seq<char>, usize>,
) -> bool {
    let parts = token_parts(tokens);
    &&& targets.len() == parts.len()
    &&& forall|i: int|
        0 <= i < parts.len() ==> lowercase(#[trigger] parts[i]) == parts[i] && vocab.contains_key(
            parts[i],
        ) && targets[i] == vocab[parts[i]]
}

/// Under a vocabulary without shared ids, the names of the targets are the
/// letters.
pub proof fn law_targets_name_letters(
    targets: Seq<usize>,
    tokens: Seq<Seq<char>>,
    vocab: Map<Seq<char>, usize>,
    names: Map<usize, String>,
)
    requires
        distinct_ids(vocab),
        are_names(names, vocab),
        are_targets(targets, tokens, vocab),
    ensures
        names_of(targets, names) == token_parts(tokens),
{
    let parts = token_parts(tokens);
    assert forall|i: int| 0 <= i < parts.len() implies #[trigger] names_of(targets, names)[i]
        == parts[i] by {
        assert(vocab.contains_key(parts[i]));
        assert(names.contains_key(vocab[parts[i]]));
        assert(vocab.contains_key(names[targets[i]]@));
    }
    assert(names_of(targets, names) =~= parts);
}

/// Where the path that [`crate::ctc::forced_align`] finds says the targets, the
/// runs of the path fit the tokens and every token is covered: every piece of
/// the transcript gets its frames.
///
/// The vocabulary names the blank, and no id stands for two tokens.
pub proof fn law_every_piece_is_timed<S: Score>(
    emissions: Seq<S>,
    t: usize,
    c: usize,
    tokens: Seq<Seq<char>>,
    targets: Seq<usize>,
    vocab: Map<Seq<char>, usize>,
    names: Map<usize, String>,
    blank: usize,
)
    requires
        align_error(emissions.len(), t, c, targets, blank) is None,
        distinct_ids(vocab),
        are_names(names, vocab),
        names.contains_key(blank),
        well_spelled(tokens),
        are_targets(targets, tokens, vocab),
        collapse(aligned_path(lattice_of(emissions, t, c, targets, blank)), blank) == targets,
    ensures
        ({
            let path = aligned_path(lattice_of(emissions, t, c, targets, blank));
            let labels = run_labels(path, names);
            let label = blank_name(names, blank);
            &&& all_fit(tokens, labels, label)
            &&& covered_count(tokens, labels, label, tokens.len() as int) == tokens.len()
            &&& blank_is_apart(path, names, blank, label)
        }),
{
    let lattice = lattice_of(emissions, t, c, targets, blank);
    let path = aligned_path(lattice);
    let label = blank_name(names, blank);
    assert forall|k: int| 0 <= k < path.len() implies ((token_name(names, #[trigger] path[k])
        == label) <==> path[k] == blank) by {
        lemma_state_bounds(lattice, k);
        let v = path[k];
        if v != blank {
            let i = lattice.state_at(k) / 2;
            assert(v == targets[i]);
            let part = token_parts(tokens)[i];
            assert(vocab.contains_key(part));
            assert(names.contains_key(vocab[part]));
            assert(vocab[names[v]@] == v);
            assert(vocab[names[blank]@] == blank);
        }
    }
    law_targets_name_letters(targets, tokens, vocab, names);
    law_parts_are_letters(tokens);
    law_spelled_path_fits(tokens, path, names, blank, label);
}

/// Runs follow each other.
proof fn lemma_runs_in_order(path: Seq<usize>, a: int, b: int)
    requires
        path.len() > 0,
        0 <= a < b < runs(path).len(),
    ensures
        runs(path)[a].1 < runs(path)[b].0,
    decreases b,
{
    law_runs_partition(path);
    assert(is_run(path, runs(path), b));
    assert(is_run(path, runs(path), b - 1));
    if a < b - 1 {
        lemma_runs_in_order(path, a, b - 1);
    }
}

/// A list of tokens waits for some letter: its first token does, though it is
/// empty.
proof fn lemma_some_letter(tokens: Seq<Seq<char>>, n: int)
    requires
        1 <= n,
    ensures
        expected(tokens, n).len() >= 1,
{
    reveal_with_fuel(expected, 2);
    lemma_split_has_part(tokens[0], |c: char| c == ' ');
    assert(letters(tokens, 0).len() >= 1);
    lemma_expected_prefix(tokens, 1, n);
}

/// The frames of a covered token are some frames of the audio: none begins
/// before the first or ends after the last.
pub proof fn law_token_lies_in_audio(
    tokens: Seq<Seq<char>>,
    path: Seq<usize>,
    names: Map<usize, String>,
    label: Seq<char>,
    j: int,
)
    requires
        0 <= j < tokens.len(),
        covered(tokens, run_labels(path, names), label, j + 1),
    ensures
        ({
            let frames = token_frames(tokens, path, names, label, j);
            0 <= frames.0 < frames.1 <= path.len()
        }),
{
    let labs = run_labels(path, names);
    let n = labs.len() as int;
    let rs = runs(path);
    lemma_some_letter(tokens, j + 1);
    lemma_expected_prefix(tokens, j, j + 1);
    lemma_spoken_prefix(labs, label, n, n);
    let iv = interval(tokens, labs, label, j);
    assert(0 <= iv.0 <= iv.1 < n);
    law_runs_partition(path);
    assert(is_run(path, rs, iv.0));
    assert(is_run(path, rs, iv.1));
    if iv.0 < iv.1 {
        lemma_runs_in_order(path, iv.0, iv.1);
    }
}

/// The frames of covered tokens come in the order of the tokens: neither their
/// beginnings nor their ends fall.  Those of a later token with letters come
/// after those of an earlier token.
pub proof fn law_tokens_in_order(
    tokens: Seq<Seq<char>>,
    path: Seq<usize>,
    names: Map<usize, String>,
    label: Seq<char>,
    i: int,
    j: int,
)
    requires
        0 <= i <= j < tokens.len(),
        covered(tokens, run_labels(path, names), label, j + 1),
    ensures
        ({
            let earlier = token_frames(tokens, path, names, label, i);
            let later = token_frames(tokens, path, names, label, j);
            &&& 0 <= earlier.0 < earlier.1 <= path.len()
            &&& 0 <= later.0 < later.1 <= path.len()
            &&& earlier.0 <= later.0
            &&& earlier.1 <= later.1
            &&& i < j && letters(tokens, j).len() > 0 ==> earlier.1 <= later.0
        }),
{
    let labs = run_labels(path, names);
    let n = labs.len() as int;
    let rs = runs(path);
    lemma_expected_prefix(tokens, i + 1, j + 1);
    law_token_lies_in_audio(tokens, path, names, label, i);
    law_token_lies_in_audio(tokens, path, names, label, j);
    if i < j {
        lemma_expected_prefix(tokens, i, i + 1);
        lemma_expected_prefix(tokens, i + 1, j);
        lemma_expected_prefix(tokens, j, j + 1);
        lemma_some_letter(tokens, i + 1);
        lemma_spoken_prefix(labs, label, n, n);
        let a = interval(tokens, labs, label, i);
        let b = interval(tokens, labs, label, j);
        assert(0 <= a.0 <= a.1 <= b.1 < n);
        assert(a.1 <= b.0);
        law_runs_partition(path);
        assert(is_run(path, rs, a.0));
        assert(is_run(path, rs, a.1));
        assert(is_run(path, rs, b.0));
        assert(is_run(path, rs, b.1));
        if a.0 < b.0 {
            lemma_runs_in_order(path, a.0, b.0);
        }
        if a.1 < b.1 {
            lemma_runs_in_order(path, a.1, b.1);
        }
        if letters(tokens, j).len() > 0 {
            assert(a.1 < b.0);
            lemma_runs_in_order(path, a.1, b.0);
        }
    }
}

/// The runs of a covered token that are not blank spell it.
pub proof fn law_span_spells_token(
    tokens: Seq<Seq<char>>,
    labels: Seq<Seq<char>>,
    label: Seq<char>,
    j: int,
    l: int,
)
    requires
        0 <= j < tokens.len(),
        0 <= l < letters(tokens, j).len(),
        covered(tokens, labels, label, j + 1),
        all_fit(tokens, labels, label),
    ensures
        ({
            let at = spoken(labels, label, labels.len() as int)[expected(tokens, j).len() + l];
            let iv = interval(tokens, labels, label, j);
            &&& iv.0 <= at <= iv.1
            &&& labels[at] == letters(tokens, j)[l]
        }),
{
    let n = labels.len() as int;
    let all = spoken(labels, label, n);
    let k = expected(tokens, j).len() + l;
    lemma_spoken_prefix(labels, label, n, n);
    lemma_expected_prefix(tokens, j + 1, tokens.len() as int);
    let here = expected(tokens, j + 1);
    assert(here[k] == letters(tokens, j)[l]);
    let at = all[k];
    assert(0 <= at < n);
    lemma_spoken_count(labels, label, n, k);
    assert(span_error(tokens, labels, label, at) is None);
    assert(labels[at] != label);
}

/// How many labels that are not blank come before the one at position `k` among
/// them.
proof fn lemma_spoken_count(labels: Seq<Seq<char>>, blank: Seq<char>, n: int, k: int)
    requires
        0 <= n,
        0 <= k < spoken(labels, blank, n).len(),
    ensures
        spoken(labels, blank, spoken(labels, blank, n)[k]).len() == k,
    decreases n,
{
    lemma_spoken_prefix(labels, blank, n - 1, n);
    if k < spoken(labels, blank, n - 1).len() {
        lemma_spoken_count(labels, blank, n - 1, k);
    }
}

/// A spelled word is split into its characters again.
pub proof fn law_spelling_round_trip(word: Seq<char>)
    requires
        word.len() > 0,
        !word.contains(' '),
    ensures
        split_spaces(spelled(word)) == word.map_values(|c: char| seq![c]),
{
    let singles = word.map_values(|c: char| seq![c]);
    lemma_spelled_first(word, word.len() as int);
    assert(singles.take(word.len() as int) =~= singles);
}

/// The same, for the first `n` characters.
proof fn lemma_spelled_first(word: Seq<char>, n: int)
    requires
        1 <= n <= word.len(),
        !word.contains(' '),
    ensures
        split_spaces(joined(word.map_values(|c: char| seq![c]).take(n))) == word.map_values(
            |c: char| seq![c],
        ).take(n),
    decreases n,
{
    let singles = word.map_values(|c: char| seq![c]);
    let head = singles.take(n);
    let last = seq![word[n - 1]];
    assert(word.contains(word[n - 1]));
    assert(split_spaces(last) =~= seq![last]) by {
        reveal_with_fuel(split_by, 2);
        assert(last.drop_last() =~= Seq::<char>::empty());
    }
    assert(head.last() == last);
    if n == 1 {
        assert(head =~= seq![last]);
    } else {
        lemma_spelled_first(word, n - 1);
        assert(head.drop_last() =~= singles.take(n - 1));
        lemma_split_at_join(joined(singles.take(n - 1)), last);
        assert(head =~= singles.take(n - 1) + seq![last]);
    }
}

/// Each token stands beside its piece: the two lists are equally long, and a
/// star stands beside a star.
pub proof fn law_stars_side_by_side(pieces: Seq<Seq<char>>, frequency: Seq<char>)
    ensures
        with_stars(spelled_pieces(pieces), frequency).len() == with_stars(pieces, frequency).len(),
        forall|i: int|
            0 <= i < with_stars(pieces, frequency).len() ==> {
                let text = #[trigger] with_stars(pieces, frequency)[i];
                let token = with_stars(spelled_pieces(pieces), frequency)[i];
                token == spelled(lowercase(text)) || (text == STAR@ && token
                    == STAR@)
            },
{
    if frequency == "segment"@ {
        lemma_star_each(pieces);
    }
}

/// The same, for a star before each piece.
proof fn lemma_star_each(pieces: Seq<Seq<char>>)
    ensures
        star_each(spelled_pieces(pieces)).len() == star_each(pieces).len(),
        forall|i: int|
            0 <= i < star_each(pieces).len() ==> {
                let text = #[trigger] star_each(pieces)[i];
                let token = star_each(spelled_pieces(pieces))[i];
                token == spelled(lowercase(text)) || (text == STAR@ && token
                    == STAR@)
            },
    decreases pieces.len(),
{
    if pieces.len() > 0 {
        lemma_star_each(pieces.drop_last());
        assert(spelled_pieces(pieces).drop_last() =~= spelled_pieces(pieces.drop_last()));
        let before = star_each(pieces.drop_last());
        let now = star_each(pieces);
        assert forall|i: int| 0 <= i < now.len() implies {
            let text = #[trigger] now[i];
            let token = star_each(spelled_pieces(pieces))[i];
            token == spelled(lowercase(text)) || (text == STAR@ && token
                == STAR@)
        } by {
            if i < before.len() {
                assert(before[i] == now[i]);
            }
        }
    }
}

/// What an alignment that fits comes to: every token gets its frames, and the
/// pieces that are no stars are timed.
pub proof fn law_fitting_path_is_told<S>(
    r: Result<Alignment<S>, AlignFailure>,
    path: Seq<usize>,
    tokens: Seq<Seq<char>>,
    pieces: Seq<Seq<char>>,
    names: Map<usize, String>,
    label: Seq<char>,
)
    requires
        is_told(r, path, tokens, pieces, names, label),
        all_fit(tokens, run_labels(path, names), label),
        covered_count(tokens, run_labels(path, names), label, tokens.len() as int)
            == tokens.len(),
    ensures
        r matches Ok(alignment) && item_views(alignment.items@) == timed(
            pieces,
            tokens,
            path,
            names,
            label,
            tokens.len() as int,
        ),
{
}

/// Where no path of tokens sums up to negative infinity, every piece of the
/// transcript is timed, however cells tie.
pub proof fn law_possible_paths_time_every_piece<S: Score>(
    emissions: Seq<S>,
    t: usize,
    c: usize,
    tokens: Seq<Seq<char>>,
    targets: Seq<usize>,
    vocab: Map<Seq<char>, usize>,
    names: Map<usize, String>,
    blank: usize,
)
    requires
        orderly::<S>(),
        align_error(emissions.len(), t, c, targets, blank) is None,
        ordinary_emissions(lattice_of(emissions, t, c, targets, blank)),
        possible_paths(lattice_of(emissions, t, c, targets, blank)),
        distinct_ids(vocab),
        are_names(names, vocab),
        names.contains_key(blank),
        well_spelled(tokens),
        are_targets(targets, tokens, vocab),
    ensures
        ({
            let path = aligned_path(lattice_of(emissions, t, c, targets, blank));
            let labels = run_labels(path, names);
            let label = blank_name(names, blank);
            &&& all_fit(tokens, labels, label)
            &&& covered_count(tokens, labels, label, tokens.len() as int) == tokens.len()
            &&& blank_is_apart(path, names, blank, label)
        }),
{
    let lattice = lattice_of(emissions, t, c, targets, blank);
    assert(accepted(lattice));
    law_possible_paths_spell(lattice);
    law_every_piece_is_timed(emissions, t, c, tokens, targets, vocab, names, blank);
}

/// A window of `a` frames with a context of `b` frames on both sides, each frame
/// of 320 samples, keeps exactly `a` frames of what the model makes of it.
pub proof fn law_window_keeps_its_frames(a: int, b: int)
    requires
        a >= 1,
        b >= 1,
    ensures
        stack_after(default_stack(), 320 * (a + 2 * b), 7) == Ok::<(int, int), StackError>(
            (512int, a + 2 * b - 1),
        ),
        kept_from(a + 2 * b - 1, b) == b,
        kept_to(a + 2 * b - 1, b) == b + a,
{
    law_default_stack_frames(320 * (a + 2 * b));
    assert((320 * (a + 2 * b) - 400) / 320 + 1 == a + 2 * b - 1);
}

/// The scores of windows that keep `a` frames each.
proof fn lemma_all_kept_len<T>(
    outs: Seq<(Vec<T>, usize, usize)>,
    a: int,
    b: int,
    c: int,
    n: int,
)
    requires
        a >= 1,
        b >= 1,
        c >= 0,
        0 <= n <= outs.len(),
        forall|w: int|
            0 <= w < outs.len() ==> (#[trigger] outs[w]).1 == a + 2 * b - 1 && outs[w].2 == c
                && outs[w].0@.len() == outs[w].1 * outs[w].2,
    ensures
        all_kept(outs, b, n).len() == n * a * c,
    decreases n,
{
    if n > 0 {
        lemma_all_kept_len(outs, a, b, c, n - 1);
        let out = outs[n - 1];
        assert(0 <= b * c <= (b + a) * c <= out.1 * c) by (nonlinear_arith)
            requires
                a >= 1,
                b >= 1,
                c >= 0,
                out.1 == a + 2 * b - 1,
        ;
        assert((b + a) * c - b * c == a * c) by (nonlinear_arith);
        assert(n * a * c == (n - 1) * a * c + a * c) by (nonlinear_arith);
    } else {
        assert(n * a * c == 0) by (nonlinear_arith)
            requires
                n == 0,
        ;
    }
}

/// The joined windows of a waveform of `n` samples have one frame for each 320
/// samples, the last maybe begun only: windows shift no frame.
pub proof fn law_joined_windows_cover<T>(
    outs: Seq<(Vec<T>, usize, usize)>,
    n: int,
    a: int,
    b: int,
    c: int,
)
    requires
        n >= 1,
        a >= 1,
        b >= 1,
        c >= 1,
        outs.len() == windows_for(n, 320 * a),
        forall|w: int|
            0 <= w < outs.len() ==> (#[trigger] outs[w]).1 == a + 2 * b - 1 && outs[w].2 == c
                && outs[w].0@.len() == outs[w].1 * outs[w].2,
    ensures
        ({
            let extension = windows_for(n, 320 * a) * (320 * a) - n;
            joined_frames(
                all_kept(outs, b, outs.len() as int).len() as int,
                c,
                extension / 320,
            ) == (n + 319) / 320
        }),
{
    let w = outs.len() as int;
    let window = 320 * a;
    let extension = w * window - n;
    lemma_all_kept_len(outs, a, b, c, w);
    lemma_fundamental_div_mod(n + window - 1, window);
    assert(n <= w * window < n + window) by (nonlinear_arith)
        requires
            n + window - 1 == window * w + (n + window - 1) % window,
            0 <= (n + window - 1) % window < window,
    ;
    let total = w * a;
    assert(w * window == 320 * total) by (nonlinear_arith)
        requires
            window == 320 * a,
            total == w * a,
    ;
    lemma_div_by_multiple(total, c);
    assert(total * c == w * a * c);
    assert(extension / 320 < total);
}

/// The frames of a covered token hold the whole run of each of its letters: they
/// begin with the run of the first and end with the run of the last.
pub proof fn law_frames_hold_every_letter(
    tokens: Seq<Seq<char>>,
    path: Seq<usize>,
    names: Map<usize, String>,
    label: Seq<char>,
    j: int,
    l: int,
)
    requires
        0 <= j < tokens.len(),
        0 <= l < letters(tokens, j).len(),
        covered(tokens, run_labels(path, names), label, j + 1),
    ensures
        ({
            let labs = run_labels(path, names);
            let at = spoken(labs, label, labs.len() as int)[expected(tokens, j).len() + l];
            let run = runs(path)[at];
            let frames = token_frames(tokens, path, names, label, j);
            &&& 0 <= frames.0 <= run.0 <= run.1 < frames.1 <= path.len()
            &&& l == 0 ==> frames.0 == run.0
            &&& l == letters(tokens, j).len() - 1 ==> frames.1 == run.1 + 1
        }),
{
    let labs = run_labels(path, names);
    let n = labs.len() as int;
    let all = spoken(labs, label, n);
    let rs = runs(path);
    law_token_lies_in_audio(tokens, path, names, label, j);
    lemma_spoken_prefix(labs, label, n, n);
    let from = expected(tokens, j).len() as int;
    let to = expected(tokens, j + 1).len() as int;
    assert(to == from + letters(tokens, j).len());
    let at = all[from + l];
    let iv = interval(tokens, labs, label, j);
    assert(0 <= iv.0 <= at <= iv.1 < n);
    law_runs_partition(path);
    assert(is_run(path, rs, iv.0));
    assert(is_run(path, rs, at));
    assert(is_run(path, rs, iv.1));
    if iv.0 < at {
        lemma_runs_in_order(path, iv.0, at);
    }
    if at < iv.1 {
        lemma_runs_in_order(path, at, iv.1);
    }
}

/// A list of runs that partition a path is the list of its runs.
proof fn lemma_runs_unique(path: Seq<usize>, list: Seq<(int, int)>, k: int)
    requires
        path.len() > 0,
        list.len() > 0,
        forall|i: int| 0 <= i < list.len() ==> #[trigger] is_run(path, list, i),
        0 <= k < list.len(),
    ensures
        k < runs(path).len(),
        list[k] == runs(path)[k],
        k == list.len() - 1 ==> list.len() == runs(path).len(),
    decreases k,
{
    let rs = runs(path);
    law_runs_partition(path);
    assert(is_run(path, list, k));
    if k > 0 {
        lemma_runs_unique(path, list, k - 1);
        assert(is_run(path, rs, k - 1));
        assert(is_run(path, list, k - 1));
        assert(list[k - 1].1 < path.len() - 1);
        assert(k < rs.len());
    }
    assert(is_run(path, rs, k));
    assert(list[k].0 == rs[k].0);
    if list[k].1 < rs[k].1 {
        assert(k < list.len() - 1);
        assert(is_run(path, list, k + 1));
        assert(path[list[k].1 + 1] == path[rs[k].0]);
    }
    if rs[k].1 < list[k].1 {
        assert(k < rs.len() - 1);
        assert(is_run(path, rs, k + 1));
        assert(path[rs[k].1 + 1] == path[list[k].0]);
    }
    if k == list.len() - 1 && k < rs.len() - 1 {
        assert(is_run(path, rs, k + 1));
    }
}

/// The runs of a stretch of a path that begins and ends with whole runs.
proof fn lemma_runs_of_stretch(path: Seq<usize>, x: int, y: int)
    requires
        path.len() > 0,
        0 <= x <= y < runs(path).len(),
    ensures
        0 <= runs(path)[x].0 <= runs(path)[y].1 < path.len(),
        ({
            let a = runs(path)[x].0;
            let part = path.subrange(a, runs(path)[y].1 + 1);
            &&& runs(part).len() == y - x + 1
            &&& forall|k: int|
                0 <= k < runs(part).len() ==> #[trigger] runs(part)[k] == (
                    runs(path)[x + k].0 - a,
                    runs(path)[x + k].1 - a,
                )
        }),
{
    let rs = runs(path);
    law_runs_partition(path);
    assert(is_run(path, rs, x));
    assert(is_run(path, rs, y));
    if x < y {
        lemma_runs_in_order(path, x, y);
    }
    let a = rs[x].0;
    let b = rs[y].1 + 1;
    let part = path.subrange(a, b);
    let list = Seq::new((y - x + 1) as nat, |k: int| (rs[x + k].0 - a, rs[x + k].1 - a));
    assert forall|k: int| 0 <= k < list.len() implies #[trigger] is_run(part, list, k) by {
        assert(is_run(path, rs, x + k));
        if k > 0 {
            lemma_runs_in_order(path, x, x + k);
            assert(is_run(path, rs, x + k - 1));
            assert(list[k - 1] == (rs[x + k - 1].0 - a, rs[x + k - 1].1 - a));
            if k > 1 {
                lemma_runs_in_order(path, x, x + k - 1);
            }
        }
        if x + k < y {
            lemma_runs_in_order(path, x + k, y);
        }
        assert forall|m: int| list[k].0 <= m <= list[k].1 implies #[trigger] part[m]
            == part[list[k].0] by {
            assert(path[m + a] == path[rs[x + k].0]);
        }
    }
    assert forall|k: int| 0 <= k < runs(part).len() implies #[trigger] runs(part)[k] == (
        rs[x + k].0 - a,
        rs[x + k].1 - a,
    ) by {
        lemma_runs_unique(part, list, list.len() - 1);
        lemma_runs_unique(part, list, k);
    }
    lemma_runs_unique(part, list, list.len() - 1);
}

/// The positions that are not blank, from position `x` on.
proof fn lemma_spoken_from(labels: Seq<Seq<char>>, blank: Seq<char>, x: int, m: int)
    requires
        0 <= x,
        0 <= m,
        x + m <= labels.len(),
    ensures
        spoken(labels, blank, x + m).len() == spoken(labels, blank, x).len() + spoken(
            labels.subrange(x, x + m),
            blank,
            m,
        ).len(),
        forall|i: int|
            0 <= i < spoken(labels.subrange(x, x + m), blank, m).len() ==> #[trigger] spoken(
                labels.subrange(x, x + m),
                blank,
                m,
            )[i] == spoken(labels, blank, x + m)[spoken(labels, blank, x).len() + i] - x,
    decreases m,
{
    let part = labels.subrange(x, x + m);
    if m > 0 {
        lemma_spoken_from(labels, blank, x, m - 1);
        let shorter = labels.subrange(x, x + m - 1);
        lemma_spoken_agrees(part, shorter, blank, m - 1);
        assert(part[m - 1] == labels[x + m - 1]);
        assert forall|i: int| 0 <= i < spoken(part, blank, m).len() implies #[trigger] spoken(
            part,
            blank,
            m,
        )[i] == spoken(labels, blank, x + m)[spoken(labels, blank, x).len() + i] - x by {
            if i < spoken(shorter, blank, m - 1).len() {
                assert(spoken(shorter, blank, m - 1)[i] == spoken(labels, blank, x + m - 1)[spoken(
                    labels,
                    blank,
                    x,
                ).len() + i] - x);
            }
        }
    }
}

/// Between the first and the last segment of a covered token, those that are not
/// blank are its letters, in order.
proof fn lemma_interval_says_letters(
    tokens: Seq<Seq<char>>,
    labels: Seq<Seq<char>>,
    label: Seq<char>,
    j: int,
)
    requires
        0 <= j < tokens.len(),
        letters(tokens, j).len() > 0,
        covered(tokens, labels, label, j + 1),
        all_fit(tokens, labels, label),
    ensures
        ({
            let iv = interval(tokens, labels, label, j);
            &&& 0 <= iv.0 <= iv.1 < labels.len()
            &&& labels[iv.0] != label
            &&& labels[iv.1] != label
            &&& said(labels.subrange(iv.0, iv.1 + 1), label) == letters(tokens, j)
        }),
{
    let n = labels.len() as int;
    let all = spoken(labels, label, n);
    let from = expected(tokens, j).len() as int;
    let to = expected(tokens, j + 1).len() as int;
    assert(to == from + letters(tokens, j).len());
    lemma_spoken_prefix(labels, label, n, n);
    let (x, y) = interval(tokens, labels, label, j);
    assert(x == all[from] && y == all[to - 1]);
    assert(x <= y);
    let part = labels.subrange(x, y + 1);
    lemma_spoken_count(labels, label, n, from);
    lemma_spoken_count(labels, label, n, to - 1);
    lemma_spoken_prefix(labels, label, y + 1, n);
    lemma_spoken_from(labels, label, x, y + 1 - x);
    assert(spoken(labels, label, y + 1).len() == to);
    let at = spoken(part, label, y + 1 - x);
    assert(at.len() == letters(tokens, j).len());
    assert forall|l: int| 0 <= l < at.len() implies #[trigger] said(part, label)[l] == letters(
        tokens,
        j,
    )[l] by {
        law_span_spells_token(tokens, labels, label, j, l);
        assert(at[l] == spoken(labels, label, y + 1)[from + l] - x);
        assert(spoken(labels, label, y + 1)[from + l] == all[from + l]);
        assert(part[at[l]] == labels[all[from + l]]);
    }
    assert(said(part, label) =~= letters(tokens, j));
}

/// The frames of a covered token, told by the path alone: they begin where the
/// path turns to a letter and end where it turns from one, and what the path says
/// between is the token, letter by letter.
pub proof fn law_frames_say_token(
    tokens: Seq<Seq<char>>,
    path: Seq<usize>,
    names: Map<usize, String>,
    blank: usize,
    label: Seq<char>,
    j: int,
)
    requires
        0 <= j < tokens.len(),
        letters(tokens, j).len() > 0,
        blank_is_apart(path, names, blank, label),
        covered(tokens, run_labels(path, names), label, j + 1),
        all_fit(tokens, run_labels(path, names), label),
    ensures
        ({
            let (a, b) = token_frames(tokens, path, names, label, j);
            &&& 0 <= a < b <= path.len()
            &&& path[a] != blank
            &&& path[b - 1] != blank
            &&& a == 0 || path[a - 1] != path[a]
            &&& b == path.len() || path[b] != path[b - 1]
            &&& names_of(collapse(path.subrange(a, b), blank), names) == letters(tokens, j)
        }),
{
    let labs = run_labels(path, names);
    let rs = runs(path);
    law_token_lies_in_audio(tokens, path, names, label, j);
    lemma_interval_says_letters(tokens, labs, label, j);
    let (x, y) = interval(tokens, labs, label, j);
    let (a, b) = token_frames(tokens, path, names, label, j);
    law_runs_partition(path);
    assert(is_run(path, rs, x));
    assert(is_run(path, rs, y));
    assert(labs[x] == token_name(names, path[a]));
    assert(path[b - 1] == path[rs[y].0]);
    if x > 0 {
        assert(is_run(path, rs, x - 1));
        assert(path[a - 1] == path[rs[x - 1].0]);
    }
    if y < rs.len() - 1 {
        assert(is_run(path, rs, y + 1));
    }
    let part = path.subrange(a, b);
    lemma_runs_of_stretch(path, x, y);
    assert(run_labels(part, names) =~= labs.subrange(x, y + 1)) by {
        assert forall|k: int| 0 <= k <= y - x implies #[trigger] run_labels(part, names)[k]
            == labs[x + k] by {
            assert(runs(part)[k] == (rs[x + k].0 - a, rs[x + k].1 - a));
            assert(is_run(path, rs, x + k));
            if x < x + k {
                lemma_runs_in_order(path, x, x + k);
            }
            if x + k < y {
                lemma_runs_in_order(path, x + k, y);
            }
            assert(part[rs[x + k].0 - a] == path[rs[x + k].0]);
        }
    }
    assert(blank_is_apart(part, names, blank, label)) by {
        assert forall|k: int| 0 <= k < part.len() implies ((token_name(names, #[trigger] part[k])
            == label) <==> part[k] == blank) by {
            assert(part[k] == path[a + k]);
        }
    }
    law_runs_say_path(part, names, blank, label);
}

/// A span holds whole segments in a row; the first and the last are not blank, and
/// those that are not blank are the letters of the span's token, in order.
pub proof fn law_span_says_its_letters(
    span: Seq<Segment>,
    tokens: Seq<Seq<char>>,
    segments: Seq<Segment>,
    label: Seq<char>,
    j: int,
) -> (x: int)
    requires
        0 <= j < tokens.len(),
        letters(tokens, j).len() > 0,
        all_fit(tokens, labels(segments), label),
        is_span(span, tokens, segments, label, j),
    ensures
        0 <= x,
        x + span.len() <= segments.len(),
        span.len() > 0,
        span == segments.subrange(x, x + span.len()),
        span[0].label@ != label,
        span[span.len() - 1].label@ != label,
        said(labels(span), label) == letters(tokens, j),
{
    let labs = labels(segments);
    lemma_interval_says_letters(tokens, labs, label, j);
    let (x, y) = interval(tokens, labs, label, j);
    assert(labels(span) =~= labs.subrange(x, y + 1));
    assert(labs[x] == span[0].label@);
    assert(labs[y] == span[span.len() - 1].label@);
    x
}

/// A scan of segments succeeds exactly where the labels that are not blank are
/// letters of the tokens, from the first on and in order, and at most one segment
/// comes after the last letter of all.
pub proof fn law_scan_succeeds_iff(
    tokens: Seq<Seq<char>>,
    labels: Seq<Seq<char>>,
    label: Seq<char>,
)
    ensures
        ({
            let wanted = expected(tokens, tokens.len() as int);
            let told = said(labels, label);
            all_fit(tokens, labels, label) <==> {
                &&& told.len() <= wanted.len()
                &&& forall|i: int| 0 <= i < told.len() ==> #[trigger] told[i] == wanted[i]
                &&& told.len() == wanted.len() ==> forall|k: int|
                    0 <= k < labels.len() && spoken(labels, label, k).len() >= wanted.len() ==> k
                        >= labels.len() - 1
            }
        }),
{
    let n = labels.len() as int;
    let wanted = expected(tokens, tokens.len() as int);
    let told = said(labels, label);
    let all = spoken(labels, label, n);
    lemma_spoken_prefix(labels, label, n, n);
    if all_fit(tokens, labels, label) {
        assert forall|i: int| 0 <= i < told.len() implies i < wanted.len() && #[trigger] told[i]
            == wanted[i] by {
            let k = all[i];
            assert(0 <= k < n && labels[k] != label);
            lemma_spoken_count(labels, label, n, i);
            assert(span_error(tokens, labels, label, k) is None);
        }
        if told.len() > wanted.len() {
            assert(told[wanted.len() as int] == told[wanted.len() as int]);
        }
        assert forall|k: int|
            0 <= k < labels.len() && spoken(labels, label, k).len() >= wanted.len() implies k
            >= labels.len() - 1 by {
            assert(span_error(tokens, labels, label, k) is None);
        }
    }
    if told.len() <= wanted.len() && (forall|i: int|
        0 <= i < told.len() ==> #[trigger] told[i] == wanted[i]) && (told.len() == wanted.len()
        ==> forall|k: int|
        0 <= k < labels.len() && spoken(labels, label, k).len() >= wanted.len() ==> k
            >= labels.len() - 1) {
        assert forall|k: int| 0 <= k < n implies #[trigger] span_error(
            tokens,
            labels,
            label,
            k,
        ) is None by {
            let have = spoken(labels, label, k).len() as int;
            lemma_spoken_prefix(labels, label, k, n);
            lemma_spoken_prefix(labels, label, k + 1, n);
            if labels[k] != label {
                assert(spoken(labels, label, k + 1)[have] == k);
                assert(all[have] == k);
                assert(told[have] == labels[k]);
            }
        }
    }
}

/// What is wrong with a segment that does not fit, told by the labels before it:
/// it is not the letter whose turn it is, or it comes after all letters.
pub proof fn law_misfit_says_why(
    tokens: Seq<Seq<char>>,
    labels: Seq<Seq<char>>,
    label: Seq<char>,
    i: int,
)
    requires
        0 <= i < labels.len(),
    ensures
        ({
            let wanted = expected(tokens, tokens.len() as int);
            let turn = said(labels.take(i), label).len() as int;
            match span_error(tokens, labels, label, i) {
                None => (turn < wanted.len() && (labels[i] == label || labels[i] == wanted[turn]))
                    || (turn >= wanted.len() && i == labels.len() - 1 && labels[i] == label),
                Some(SpanErrorView::Mismatch { got, expected: letter }) => turn < wanted.len()
                    && got == labels[i] && letter == wanted[turn] && got != letter && got != label,
                Some(SpanErrorView::ExtraSegments) => turn >= wanted.len() && i < labels.len() - 1,
                Some(SpanErrorView::ExpectedBlank { got }) => turn >= wanted.len() && i
                    == labels.len() - 1 && got == labels[i] && got != label,
            }
        }),
{
    lemma_spoken_agrees(labels.take(i), labels, label, i);
}

/// How many tokens get a span: from the first on, as many as have all of their
/// letters among the labels that are not blank.
pub proof fn law_spans_as_far_as_said(
    spans: Seq<Vec<Segment>>,
    tokens: Seq<Seq<char>>,
    segments: Seq<Segment>,
    label: Seq<char>,
)
    requires
        are_spans(spans, tokens, segments, label),
    ensures
        spans.len() <= tokens.len(),
        spans.len() > 0 ==> expected(tokens, spans.len() as int).len() <= said(
            labels(segments),
            label,
        ).len(),
        spans.len() < tokens.len() ==> expected(tokens, spans.len() as int + 1).len() > said(
            labels(segments),
            label,
        ).len(),
{
    let n = spans.len() as int;
    if n > 0 {
        assert(is_span(spans[n - 1]@, tokens, segments, label, n - 1));
    }
}

/// A token without letters has the frames of the last letter before it.
pub proof fn law_letterless_token_shares_frames(
    tokens: Seq<Seq<char>>,
    path: Seq<usize>,
    names: Map<usize, String>,
    label: Seq<char>,
    j: int,
)
    requires
        0 <= j < tokens.len(),
        letters(tokens, j).len() == 0,
        expected(tokens, j).len() > 0,
        covered(tokens, run_labels(path, names), label, j + 1),
    ensures
        ({
            let labs = run_labels(path, names);
            let at = spoken(labs, label, labs.len() as int)[expected(tokens, j).len() - 1];
            token_frames(tokens, path, names, label, j) == (
                runs(path)[at].0,
                runs(path)[at].1 + 1,
            )
        }),
{
    assert(expected(tokens, j + 1).len() == expected(tokens, j).len());
}

} // verus!
