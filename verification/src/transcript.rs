//! What the pipeline promises of a transcript: what is spelled out of it can be
//! aligned, and its pieces come back timed, in order.

use vstd::prelude::*;

use crate::alignment::{collapse, orderly, ordinary_emissions, possible_paths};
use crate::chars::{split_spaces, texts};
use crate::ctc::{align_error, aligned_path, lattice_of, Score};
use crate::guarantees::{
    are_targets, blank_is_apart, distinct_ids, law_fitting_path_is_told,
    law_frames_hold_every_letter, law_frames_say_token, law_parts_are_letters,
    law_possible_paths_time_every_piece, law_scan_succeeds_iff, law_spelling_round_trip,
    law_stars_side_by_side, law_tokens_in_order, names_of, said, well_spelled,
};
use crate::inference::{
    all_fit, blank_name, covered_count, first_misfit, is_prepared, is_told, lemma_segment_labels,
    run_labels, timed, token_frames, AlignFailure, Alignment,
};
use crate::postprocess::{
    are_segments, covered, expected, is_scan, item_views, lemma_expected_prefix, letters, runs,
    span_error, spoken, FrameItemView, Segment, SpanError,
};
use crate::text::{
    are_names, is_lookup, law_lookup_outcome, law_spelled_alternates, lowercase, lowercased,
    spelled, spelled_pieces, star_each, token_parts, with_stars, TokenError, STAR,
};

verus! {

/// Whether each piece, in lowercase, is a word: some characters, and no space.
pub open spec fn are_words(pieces: Seq<Seq<char>>) -> bool {
    forall|i: int|
        0 <= i < pieces.len() ==> lowercase(#[trigger] pieces[i]).len() > 0 && !lowercase(
            pieces[i],
        ).contains(' ')
}

/// Whether the characters of each piece in lowercase, and the star, are their
/// own lowercase.
pub open spec fn are_settled(pieces: Seq<Seq<char>>) -> bool {
    &&& lowercase(STAR@) == STAR@
    &&& forall|i: int, l: int|
        0 <= i < pieces.len() && 0 <= l < lowercase(pieces[i]).len() ==> lowercase(
            seq![#[trigger] lowercase(pieces[i])[l]],
        ) == seq![lowercase(pieces[i])[l]]
}

/// The texts that are no stars.
pub open spec fn without_stars(list: Seq<Seq<char>>) -> Seq<Seq<char>>
    decreases list.len(),
{
    if list.len() == 0 {
        list
    } else if list.last() == STAR@ {
        without_stars(list.drop_last())
    } else {
        without_stars(list.drop_last()).push(list.last())
    }
}

/// The texts of timed pieces.
pub open spec fn texts_of(items: Seq<FrameItemView>) -> Seq<Seq<char>> {
    items.map_values(|item: FrameItemView| item.text)
}

/// A text without spaces is its only part.
proof fn lemma_split_uncut(s: Seq<char>)
    requires
        !s.contains(' '),
    ensures
        split_spaces(s) == seq![s],
    decreases s.len(),
{
    if s.len() == 0 {
        assert(s =~= Seq::<char>::empty());
    } else {
        let before = s.drop_last();
        assert(s.contains(s.last()));
        assert(!before.contains(' ')) by {
            if before.contains(' ') {
                let i = choose|i: int| 0 <= i < before.len() && before[i] == ' ';
                assert(s[i] == ' ');
            }
        }
        lemma_split_uncut(before);
        assert(split_spaces(s) =~= seq![before.push(s.last())]);
        assert(before.push(s.last()) =~= s);
    }
}

/// The star is one letter.
proof fn lemma_star_is_letter()
    ensures
        STAR@.len() > 0,
        split_spaces(STAR@) == seq![STAR@],
{
    reveal_strlit("<star>");
    lemma_split_uncut(STAR@);
}

/// What stands in a list with its stars: the star, or a text of the list.
proof fn lemma_starred_member(list: Seq<Seq<char>>, frequency: Seq<char>, i: int)
    requires
        0 <= i < with_stars(list, frequency).len(),
    ensures
        with_stars(list, frequency)[i] == STAR@ || list.contains(with_stars(list, frequency)[i]),
{
    if frequency == "edges"@ {
        if 0 < i <= list.len() {
            assert(list.contains(list[i - 1]));
        }
    } else if frequency == "segment"@ {
        lemma_star_each_member(list, i);
    } else {
        assert(list.contains(list[i]));
    }
}

proof fn lemma_star_each_member(list: Seq<Seq<char>>, i: int)
    requires
        0 <= i < star_each(list).len(),
    ensures
        star_each(list)[i] == STAR@ || list.contains(star_each(list)[i]),
    decreases list.len(),
{
    if list.len() > 0 {
        let before = list.drop_last();
        if i < star_each(before).len() {
            lemma_star_each_member(before, i);
            if before.contains(star_each(before)[i]) {
                let k = choose|k: int| 0 <= k < before.len() && before[k] == star_each(before)[i];
                assert(list[k] == star_each(list)[i]);
            }
        } else {
            assert(list.contains(list.last()));
        }
    }
}

/// The parts of a token of a transcript: its characters, which are those of one
/// of the pieces in lowercase, or the star.
proof fn lemma_token_letters(pieces: Seq<Seq<char>>, frequency: Seq<char>, j: int)
    requires
        are_words(pieces),
        0 <= j < with_stars(spelled_pieces(pieces), frequency).len(),
    ensures
        ({
            let token = with_stars(spelled_pieces(pieces), frequency)[j];
            ||| split_spaces(token) == seq![STAR@]
            ||| exists|k: int|
                0 <= k < pieces.len() && split_spaces(token) == lowercase(
                    #[trigger] pieces[k],
                ).map_values(|c: char| seq![c])
        }),
{
    let list = spelled_pieces(pieces);
    let token = with_stars(list, frequency)[j];
    lemma_starred_member(list, frequency, j);
    if token == STAR@ {
        lemma_star_is_letter();
    } else {
        let k = choose|k: int| 0 <= k < list.len() && list[k] == token;
        assert(token == spelled(lowercase(pieces[k])));
        law_spelling_round_trip(lowercase(pieces[k]));
    }
}

/// Pieces that are words give tokens that wait for no empty letter.
pub proof fn law_transcript_is_well_spelled(pieces: Seq<Seq<char>>, frequency: Seq<char>)
    requires
        are_words(pieces),
    ensures
        well_spelled(with_stars(spelled_pieces(pieces), frequency)),
{
    let tokens = with_stars(spelled_pieces(pieces), frequency);
    assert forall|j: int, l: int|
        0 <= j < tokens.len() && 0 <= l < letters(tokens, j).len() implies (#[trigger] letters(
        tokens,
        j,
    )[l]).len() > 0 by {
        lemma_star_is_letter();
        lemma_token_letters(pieces, frequency, j);
    }
}

/// The letters of the tokens of a transcript are their own lowercase, if its
/// pieces are settled.
proof fn lemma_letters_settled(
    pieces: Seq<Seq<char>>,
    frequency: Seq<char>,
    n: int,
    i: int,
)
    requires
        are_words(pieces),
        are_settled(pieces),
        0 <= n <= with_stars(spelled_pieces(pieces), frequency).len(),
        0 <= i < expected(with_stars(spelled_pieces(pieces), frequency), n).len(),
    ensures
        ({
            let tokens = with_stars(spelled_pieces(pieces), frequency);
            lowercase(expected(tokens, n)[i]) == expected(tokens, n)[i]
        }),
    decreases n,
{
    let tokens = with_stars(spelled_pieces(pieces), frequency);
    let before = expected(tokens, n - 1);
    if n > 0 {
        if i < before.len() {
            lemma_letters_settled(pieces, frequency, n - 1, i);
        } else {
            let l = i - before.len();
            lemma_token_letters(pieces, frequency, n - 1);
            let parts = split_spaces(tokens[n - 1]);
            assert(expected(tokens, n)[i] == letters(tokens, n - 1)[l]);
            assert(letters(tokens, n - 1)[l] == parts[l]);
            if parts != seq![STAR@] {
                let k = choose|k: int|
                    0 <= k < pieces.len() && parts == lowercase(#[trigger] pieces[k]).map_values(
                        |c: char| seq![c],
                    );
                assert(parts[l] == seq![lowercase(pieces[k])[l]]);
            }
        }
    }
}

/// The ids that are looked up for a transcript are targets of its tokens.
pub proof fn law_lookup_gives_targets(
    ids: Vec<usize>,
    pieces: Seq<Seq<char>>,
    frequency: Seq<char>,
    vocab: Map<Seq<char>, usize>,
)
    requires
        are_words(pieces),
        are_settled(pieces),
        is_lookup(
            Ok::<Vec<usize>, TokenError>(ids),
            token_parts(with_stars(spelled_pieces(pieces), frequency)),
            lowercased(token_parts(with_stars(spelled_pieces(pieces), frequency))),
            vocab,
        ),
    ensures
        are_targets(ids@, with_stars(spelled_pieces(pieces), frequency), vocab),
{
    let tokens = with_stars(spelled_pieces(pieces), frequency);
    let parts = token_parts(tokens);
    law_transcript_is_well_spelled(pieces, frequency);
    law_parts_are_letters(tokens);
    assert forall|i: int| 0 <= i < parts.len() implies lowercase(#[trigger] parts[i]) == parts[i]
        && vocab.contains_key(parts[i]) && ids@[i] == vocab[parts[i]] by {
        lemma_letters_settled(pieces, frequency, tokens.len() as int, i);
        let keys = lowercased(parts);
        assert(keys[i] == parts[i]);
        assert(ids@[i] == vocab[keys[i]]);
    }
}

/// Taking the stars off a list that got stars leaves its texts that are no
/// stars; where none is one, it leaves the list.
pub proof fn law_stars_come_off(list: Seq<Seq<char>>, frequency: Seq<char>)
    ensures
        without_stars(with_stars(list, frequency)) == without_stars(list),
        !list.contains(STAR@) ==> without_stars(with_stars(list, frequency)) == list,
{
    if frequency == "edges"@ {
        let inner = seq![STAR@] + list;
        let whole = with_stars(list, frequency);
        assert(whole.drop_last() =~= inner);
        lemma_first_star_comes_off(list);
    } else if frequency == "segment"@ {
        lemma_each_star_comes_off(list);
    }
    if !list.contains(STAR@) {
        lemma_no_star_to_take(list);
    }
}

proof fn lemma_first_star_comes_off(list: Seq<Seq<char>>)
    ensures
        without_stars(seq![STAR@] + list) == without_stars(list),
    decreases list.len(),
{
    let inner = seq![STAR@] + list;
    if list.len() == 0 {
        assert(inner =~= seq![STAR@]);
        assert(inner.drop_last() =~= list);
    } else {
        lemma_first_star_comes_off(list.drop_last());
        assert(inner.drop_last() =~= seq![STAR@] + list.drop_last());
    }
}

proof fn lemma_each_star_comes_off(list: Seq<Seq<char>>)
    ensures
        without_stars(star_each(list)) == without_stars(list),
    decreases list.len(),
{
    if list.len() > 0 {
        let before = star_each(list.drop_last());
        lemma_each_star_comes_off(list.drop_last());
        assert(before.push(STAR@).drop_last() =~= before);
        assert(without_stars(before.push(STAR@)) == without_stars(before));
        assert(star_each(list).drop_last() =~= before.push(STAR@));
    }
}

proof fn lemma_no_star_to_take(list: Seq<Seq<char>>)
    requires
        !list.contains(STAR@),
    ensures
        without_stars(list) == list,
    decreases list.len(),
{
    if list.len() > 0 {
        let before = list.drop_last();
        assert(list.contains(list.last()));
        assert(!before.contains(STAR@)) by {
            if before.contains(STAR@) {
                let i = choose|i: int| 0 <= i < before.len() && before[i] == STAR@;
                assert(list[i] == STAR@);
            }
        }
        lemma_no_star_to_take(before);
        assert(before.push(list.last()) =~= list);
    }
}

/// The texts of the timed pieces are the pieces that are no stars, in order.
pub proof fn law_items_are_pieces(
    pieces: Seq<Seq<char>>,
    tokens: Seq<Seq<char>>,
    path: Seq<usize>,
    names: Map<usize, String>,
    label: Seq<char>,
    n: int,
)
    requires
        0 <= n <= pieces.len(),
    ensures
        texts_of(timed(pieces, tokens, path, names, label, n)) == without_stars(pieces.take(n)),
    decreases n,
{
    let items = timed(pieces, tokens, path, names, label, n);
    if n == 0 {
        assert(pieces.take(0) =~= Seq::<Seq<char>>::empty());
        assert(texts_of(items) =~= Seq::<Seq<char>>::empty());
    } else {
        let before = timed(pieces, tokens, path, names, label, n - 1);
        law_items_are_pieces(pieces, tokens, path, names, label, n - 1);
        assert(pieces.take(n).drop_last() =~= pieces.take(n - 1));
        if pieces[n - 1] != STAR@ {
            assert(texts_of(items) =~= texts_of(before).push(pieces[n - 1]));
        }
    }
}

/// Each timed piece has the frames of one of the tokens.
proof fn lemma_item_has_token(
    pieces: Seq<Seq<char>>,
    tokens: Seq<Seq<char>>,
    path: Seq<usize>,
    names: Map<usize, String>,
    label: Seq<char>,
    n: int,
    k: int,
) -> (j: int)
    requires
        0 <= k < timed(pieces, tokens, path, names, label, n).len(),
    ensures
        0 <= j < n,
        ({
            let item = timed(pieces, tokens, path, names, label, n)[k];
            (item.start_frame, item.end_frame) == token_frames(tokens, path, names, label, j)
        }),
    decreases n,
{
    if k < timed(pieces, tokens, path, names, label, n - 1).len() {
        lemma_item_has_token(pieces, tokens, path, names, label, n - 1, k)
    } else {
        n - 1
    }
}

/// The frames of the timed pieces are frames of the audio, and come in the order
/// of the pieces: neither their beginnings nor their ends fall.
pub proof fn law_items_in_order(
    pieces: Seq<Seq<char>>,
    tokens: Seq<Seq<char>>,
    path: Seq<usize>,
    names: Map<usize, String>,
    label: Seq<char>,
    n: int,
    a: int,
    b: int,
)
    requires
        0 <= n <= tokens.len(),
        covered(tokens, run_labels(path, names), label, n),
        0 <= a <= b < timed(pieces, tokens, path, names, label, n).len(),
    ensures
        ({
            let items = timed(pieces, tokens, path, names, label, n);
            &&& 0 <= items[a].start_frame < items[a].end_frame <= path.len()
            &&& 0 <= items[b].start_frame < items[b].end_frame <= path.len()
            &&& items[a].start_frame <= items[b].start_frame
            &&& items[a].end_frame <= items[b].end_frame
        }),
    decreases n,
{
    let before = timed(pieces, tokens, path, names, label, n - 1);
    lemma_expected_prefix(tokens, n - 1, n);
    if b < before.len() {
        law_items_in_order(pieces, tokens, path, names, label, n - 1, a, b);
    } else if a < before.len() {
        let j = lemma_item_has_token(pieces, tokens, path, names, label, n - 1, a);
        law_tokens_in_order(tokens, path, names, label, j, n - 1);
    } else {
        law_tokens_in_order(tokens, path, names, label, n - 1, n - 1);
    }
}

/// Where no path of tokens sums up to negative infinity, the scan of the path's
/// segments succeeds and gives one span for each token, however cells tie.
pub proof fn law_possible_paths_give_spans<S: Score>(
    r: Result<Vec<Vec<Segment>>, SpanError>,
    segments: Seq<Segment>,
    emissions: Seq<S>,
    t: usize,
    c: usize,
    tokens: Seq<Seq<char>>,
    targets: Seq<usize>,
    vocab: Map<Seq<char>, usize>,
    names: Map<usize, String>,
    blank: usize,
)
    requires
        orderly::<S>(),
        align_error(emissions.len(), t, c, targets, blank) is None,
        ordinary_emissions(lattice_of(emissions, t, c, targets, blank)),
        possible_paths(lattice_of(emissions, t, c, targets, blank)),
        distinct_ids(vocab),
        are_names(names, vocab),
        names.contains_key(blank),
        well_spelled(tokens),
        are_targets(targets, tokens, vocab),
        are_segments(segments, aligned_path(lattice_of(emissions, t, c, targets, blank)), names),
        is_scan(r, tokens, segments, blank_name(names, blank)),
    ensures
        r matches Ok(spans) && spans@.len() == tokens.len(),
{
    let path = aligned_path(lattice_of(emissions, t, c, targets, blank));
    let label = blank_name(names, blank);
    let labs = run_labels(path, names);
    law_possible_paths_time_every_piece(
        emissions,
        t,
        c,
        tokens,
        targets,
        vocab,
        names,
        blank,
    );
    lemma_segment_labels(segments, path, names);
    match r {
        Ok(spans) => {
            if spans@.len() < tokens.len() {
                lemma_all_covered(tokens, labs, label, tokens.len() as int);
                lemma_expected_prefix(tokens, spans@.len() as int + 1, tokens.len() as int);
            }
        },
        Err(e) => {
            let i = choose|i: int|
                0 <= i < segments.len() && #[trigger] span_error(tokens, labs, label, i)
                    == Some(e@);
            assert(span_error(tokens, labs, label, i) is None);
        },
    }
}

/// A count of all is reached where the last is covered.
proof fn lemma_all_covered(
    tokens: Seq<Seq<char>>,
    labs: Seq<Seq<char>>,
    label: Seq<char>,
    n: int,
)
    requires
        n > 0,
        covered_count(tokens, labs, label, n) == n,
    ensures
        covered(tokens, labs, label, n),
{
    lemma_count_bound(tokens, labs, label, n - 1);
}

proof fn lemma_count_bound(tokens: Seq<Seq<char>>, labs: Seq<Seq<char>>, label: Seq<char>, n: int)
    requires
        n >= 0,
    ensures
        covered_count(tokens, labs, label, n) <= n,
    decreases n,
{
    if n > 0 {
        lemma_count_bound(tokens, labs, label, n - 1);
    }
}

/// The whole way of a transcript: its pieces are spelled, their letters looked
/// up, and the tokens aligned.  Where no path of tokens sums up to negative
/// infinity, the alignment succeeds, and the texts of its items are the pieces,
/// in order.
///
/// The vocabulary names the blank, and no id stands for two tokens.
pub proof fn law_transcript_is_timed<S: Score>(
    r: Result<Alignment<S>, AlignFailure>,
    emissions: Seq<S>,
    t: usize,
    c: usize,
    pieces: Seq<Seq<char>>,
    frequency: Seq<char>,
    targets: Vec<usize>,
    vocab: Map<Seq<char>, usize>,
    names: Map<usize, String>,
    blank: usize,
)
    requires
        orderly::<S>(),
        align_error(emissions.len(), t, c, targets@, blank) is None,
        ordinary_emissions(lattice_of(emissions, t, c, targets@, blank)),
        possible_paths(lattice_of(emissions, t, c, targets@, blank)),
        distinct_ids(vocab),
        are_names(names, vocab),
        names.contains_key(blank),
        are_words(pieces),
        are_settled(pieces),
        !pieces.contains(STAR@),
        is_lookup(
            Ok::<Vec<usize>, TokenError>(targets),
            token_parts(with_stars(spelled_pieces(pieces), frequency)),
            lowercased(token_parts(with_stars(spelled_pieces(pieces), frequency))),
            vocab,
        ),
        is_told(
            r,
            aligned_path(lattice_of(emissions, t, c, targets@, blank)),
            with_stars(spelled_pieces(pieces), frequency),
            with_stars(pieces, frequency),
            names,
            blank_name(names, blank),
        ),
    ensures
        r matches Ok(alignment) && texts_of(item_views(alignment.items@)) == pieces,
{
    let path = aligned_path(lattice_of(emissions, t, c, targets@, blank));
    let tokens = with_stars(spelled_pieces(pieces), frequency);
    let starred = with_stars(pieces, frequency);
    let label = blank_name(names, blank);
    law_transcript_is_well_spelled(pieces, frequency);
    law_lookup_gives_targets(targets, pieces, frequency, vocab);
    law_possible_paths_time_every_piece(
        emissions,
        t,
        c,
        tokens,
        targets@,
        vocab,
        names,
        blank,
    );
    law_fitting_path_is_told(r, path, tokens, starred, names, label);
    law_stars_side_by_side(pieces, frequency);
    law_items_are_pieces(starred, tokens, path, names, label, tokens.len() as int);
    assert(starred.take(tokens.len() as int) =~= starred);
    law_stars_come_off(pieces, frequency);
}

/// The timed pieces, one by one: there is one for each of the first `n` tokens
/// whose piece is no star, in their order, with the token's piece and frames.
/// The result says which token each timed piece comes from.
pub proof fn law_timed_piece_for_each_token(
    pieces: Seq<Seq<char>>,
    tokens: Seq<Seq<char>>,
    path: Seq<usize>,
    names: Map<usize, String>,
    label: Seq<char>,
    n: int,
) -> (js: Seq<int>)
    requires
        n >= 0,
    ensures
        js.len() == timed(pieces, tokens, path, names, label, n).len(),
        forall|k: int|
            0 <= k < js.len() ==> {
                let j = #[trigger] js[k];
                let item = timed(pieces, tokens, path, names, label, n)[k];
                let text = if j < pieces.len() {
                    pieces[j]
                } else {
                    Seq::<char>::empty()
                };
                &&& 0 <= j < n
                &&& text != "<star>"@
                &&& item.text == text
                &&& (item.start_frame, item.end_frame) == token_frames(
                    tokens,
                    path,
                    names,
                    label,
                    j,
                )
            },
        forall|a: int, b: int| 0 <= a < b < js.len() ==> #[trigger] js[a] < #[trigger] js[b],
        forall|j: int|
            0 <= j < n && (j < pieces.len() ==> pieces[j] != "<star>"@) ==> #[trigger] js.contains(
                j,
            ),
    decreases n,
{
    reveal_strlit("<star>");
    assert("<star>"@.len() == 6);
    if n <= 0 {
        Seq::empty()
    } else {
        let before = law_timed_piece_for_each_token(pieces, tokens, path, names, label, n - 1);
        let text = if n - 1 < pieces.len() {
            pieces[n - 1]
        } else {
            Seq::<char>::empty()
        };
        let js = if text == "<star>"@ {
            before
        } else {
            before.push(n - 1)
        };
        assert forall|j: int|
            0 <= j < n && (j < pieces.len() ==> pieces[j] != "<star>"@) implies #[trigger] js.contains(
            j,
        ) by {
            if j < n - 1 {
                assert(before.contains(j));
                let k = choose|k: int| 0 <= k < before.len() && before[k] == j;
                assert(js[k] == j);
            } else {
                assert(js[js.len() - 1] == n - 1);
            }
        }
        js
    }
}

/// Whether the frames from `from` up to `to` hold the whole run of letter `l` of
/// token `j`, the first letter at their beginning and the last at their end.
pub open spec fn holds_letter(
    from: int,
    to: int,
    tokens: Seq<Seq<char>>,
    path: Seq<usize>,
    names: Map<usize, String>,
    label: Seq<char>,
    j: int,
    l: int,
) -> bool {
    let labs = run_labels(path, names);
    let run = runs(path)[spoken(labs, label, labs.len() as int)[expected(tokens, j).len() + l]];
    &&& 0 <= from <= run.0 <= run.1 < to <= path.len()
    &&& l == 0 ==> from == run.0
    &&& l == letters(tokens, j).len() - 1 ==> to == run.1 + 1
}

/// A timed piece holds the whole run of each letter of its token: it begins with
/// the run of the first letter and ends right after the run of the last.  The
/// result is the token.
pub proof fn law_timed_piece_holds_its_letters(
    pieces: Seq<Seq<char>>,
    tokens: Seq<Seq<char>>,
    path: Seq<usize>,
    names: Map<usize, String>,
    label: Seq<char>,
    n: int,
    k: int,
) -> (j: int)
    requires
        0 <= n <= tokens.len(),
        covered(tokens, run_labels(path, names), label, n),
        0 <= k < timed(pieces, tokens, path, names, label, n).len(),
    ensures
        0 <= j < n,
        timed(pieces, tokens, path, names, label, n)[k].text == (if j < pieces.len() {
            pieces[j]
        } else {
            Seq::<char>::empty()
        }),
        forall|l: int|
            0 <= l < letters(tokens, j).len() ==> #[trigger] holds_letter(
                timed(pieces, tokens, path, names, label, n)[k].start_frame,
                timed(pieces, tokens, path, names, label, n)[k].end_frame,
                tokens,
                path,
                names,
                label,
                j,
                l,
            ),
{
    let js = law_timed_piece_for_each_token(pieces, tokens, path, names, label, n);
    let j = js[k];
    let item = timed(pieces, tokens, path, names, label, n)[k];
    lemma_expected_prefix(tokens, j + 1, n);
    assert forall|l: int| 0 <= l < letters(tokens, j).len() implies #[trigger] holds_letter(
        item.start_frame,
        item.end_frame,
        tokens,
        path,
        names,
        label,
        j,
        l,
    ) by {
        law_frames_hold_every_letter(tokens, path, names, label, j, l);
    }
    j
}

/// How many tokens are timed: from the first on, as many as have all of their
/// letters among the names of the runs that are not blank.
pub proof fn law_timed_as_far_as_said(
    tokens: Seq<Seq<char>>,
    labs: Seq<Seq<char>>,
    label: Seq<char>,
    n: int,
)
    requires
        n >= 0,
    ensures
        ({
            let m = covered_count(tokens, labs, label, n);
            let told = spoken(labs, label, labs.len() as int).len();
            &&& 0 <= m <= n
            &&& m > 0 ==> expected(tokens, m).len() <= told
            &&& forall|k: int| m < k <= n ==> #[trigger] expected(tokens, k).len() > told
        }),
    decreases n,
{
    if n > 0 {
        law_timed_as_far_as_said(tokens, labs, label, n - 1);
    }
}

/// When the path of an alignment can be told in pieces: exactly where the names
/// of its runs that are not blank are letters of the tokens, from the first on and
/// in order, and at most one run comes after the last letter of all.  Where it
/// cannot, the first run out of place says why.
pub proof fn law_path_is_told_iff<S>(
    r: Result<Alignment<S>, AlignFailure>,
    path: Seq<usize>,
    tokens: Seq<Seq<char>>,
    pieces: Seq<Seq<char>>,
    names: Map<usize, String>,
    label: Seq<char>,
)
    requires
        is_told(r, path, tokens, pieces, names, label),
    ensures
        ({
            let labs = run_labels(path, names);
            let wanted = expected(tokens, tokens.len() as int);
            let told = said(labs, label);
            r is Ok <==> {
                &&& told.len() <= wanted.len()
                &&& forall|i: int| 0 <= i < told.len() ==> #[trigger] told[i] == wanted[i]
                &&& told.len() == wanted.len() ==> forall|k: int|
                    0 <= k < labs.len() && spoken(labs, label, k).len() >= wanted.len() ==> k
                        >= labs.len() - 1
            }
        }),
        r matches Err(e) ==> e is Spans,
{
    let labs = run_labels(path, names);
    law_scan_succeeds_iff(tokens, labs, label);
    if let Err(AlignFailure::Spans { mismatch }) = r {
        let i = choose|i: int| #[trigger] first_misfit(tokens, labs, label, i, mismatch);
        assert(span_error(tokens, labs, label, i) is Some);
    }
}

/// What the path says between the frames of a timed piece is the piece's token,
/// letter by letter, and the frames are no wider: they begin where the path turns
/// to a letter and end where it turns from one.  The result is the token.
pub proof fn law_timed_piece_says_its_token(
    pieces: Seq<Seq<char>>,
    tokens: Seq<Seq<char>>,
    path: Seq<usize>,
    names: Map<usize, String>,
    blank: usize,
    label: Seq<char>,
    n: int,
    k: int,
) -> (j: int)
    requires
        0 <= n <= tokens.len(),
        blank_is_apart(path, names, blank, label),
        all_fit(tokens, run_labels(path, names), label),
        covered(tokens, run_labels(path, names), label, n),
        0 <= k < timed(pieces, tokens, path, names, label, n).len(),
    ensures
        0 <= j < n,
        letters(tokens, j).len() > 0 ==> {
            let item = timed(pieces, tokens, path, names, label, n)[k];
            let (a, b) = (item.start_frame, item.end_frame);
            &&& 0 <= a < b <= path.len()
            &&& path[a] != blank
            &&& path[b - 1] != blank
            &&& a == 0 || path[a - 1] != path[a]
            &&& b == path.len() || path[b] != path[b - 1]
            &&& names_of(collapse(path.subrange(a, b), blank), names) == letters(tokens, j)
        },
        timed(pieces, tokens, path, names, label, n)[k].text == (if j < pieces.len() {
            pieces[j]
        } else {
            Seq::<char>::empty()
        }),
{
    let js = law_timed_piece_for_each_token(pieces, tokens, path, names, label, n);
    let j = js[k];
    lemma_expected_prefix(tokens, j + 1, n);
    if letters(tokens, j).len() > 0 {
        law_frames_say_token(tokens, path, names, blank, label, j);
    }
    j
}

/// When a transcript can be prepared: exactly where its tokens have a letter and
/// the lowercase of every letter is in the vocabulary.  There is then one text for
/// each token, and one id for each letter.
pub proof fn law_preparation_outcome(
    r: Result<(Vec<String>, Vec<String>, Vec<usize>), TokenError>,
    pieces: Seq<Seq<char>>,
    frequency: Seq<char>,
    vocab: Map<Seq<char>, usize>,
)
    requires
        is_prepared(r, pieces, frequency, vocab),
    ensures
        ({
            let tokens = with_stars(spelled_pieces(pieces), frequency);
            let parts = token_parts(tokens);
            &&& r is Ok <==> parts.len() > 0 && forall|i: int|
                0 <= i < parts.len() ==> vocab.contains_key(lowercase(#[trigger] parts[i]))
            &&& r matches Ok((spelled, given, ids)) ==> {
                &&& texts(spelled@) == tokens
                &&& texts(given@) == with_stars(pieces, frequency)
                &&& spelled@.len() == given@.len()
                &&& ids@.len() == parts.len()
                &&& forall|i: int|
                    0 <= i < parts.len() ==> ids@[i] == vocab[lowercase(#[trigger] parts[i])]
            }
            &&& r matches Err(TokenError::NoTokens) ==> parts.len() == 0
            &&& r matches Err(TokenError::NotInVocab { token }) ==> exists|i: int|
                0 <= i < parts.len() && token@ == #[trigger] parts[i] && !vocab.contains_key(
                    lowercase(parts[i]),
                ) && forall|k: int|
                    0 <= k < i ==> vocab.contains_key(lowercase(#[trigger] parts[k]))
        }),
{
    let tokens = with_stars(spelled_pieces(pieces), frequency);
    let parts = token_parts(tokens);
    law_stars_side_by_side(pieces, frequency);
    match r {
        Ok((spelled, given, ids)) => {
            law_lookup_outcome(Ok::<Vec<usize>, TokenError>(ids), parts, vocab);
            assert(texts(spelled@).len() == spelled@.len());
            assert(texts(given@).len() == given@.len());
        },
        Err(e) => {
            law_lookup_outcome(Err::<Vec<usize>, TokenError>(e), parts, vocab);
        },
    }
}

/// What the aligned path says in the frames of each timed piece is the piece
/// itself: between them stand its characters in lowercase, all of them in order,
/// each as a token of its own, and nothing else but blanks.  The frames begin with
/// the first character and end with the last.
///
/// The vocabulary names the blank, and no id stands for two tokens.
pub proof fn law_transcript_frames_say_pieces<S: Score>(
    alignment: Alignment<S>,
    emissions: Seq<S>,
    t: usize,
    c: usize,
    pieces: Seq<Seq<char>>,
    frequency: Seq<char>,
    targets: Vec<usize>,
    vocab: Map<Seq<char>, usize>,
    names: Map<usize, String>,
    blank: usize,
    k: int,
)
    requires
        orderly::<S>(),
        align_error(emissions.len(), t, c, targets@, blank) is None,
        ordinary_emissions(lattice_of(emissions, t, c, targets@, blank)),
        possible_paths(lattice_of(emissions, t, c, targets@, blank)),
        distinct_ids(vocab),
        are_names(names, vocab),
        names.contains_key(blank),
        are_words(pieces),
        are_settled(pieces),
        !pieces.contains(STAR@),
        is_lookup(
            Ok::<Vec<usize>, TokenError>(targets),
            token_parts(with_stars(spelled_pieces(pieces), frequency)),
            lowercased(token_parts(with_stars(spelled_pieces(pieces), frequency))),
            vocab,
        ),
        is_told(
            Ok::<Alignment<S>, AlignFailure>(alignment),
            aligned_path(lattice_of(emissions, t, c, targets@, blank)),
            with_stars(spelled_pieces(pieces), frequency),
            with_stars(pieces, frequency),
            names,
            blank_name(names, blank),
        ),
        0 <= k < pieces.len(),
    ensures
        alignment.items@.len() == pieces.len(),
        alignment.items@[k].text@ == pieces[k],
        ({
            let path = aligned_path(lattice_of(emissions, t, c, targets@, blank));
            let (a, b) = (
                alignment.items@[k].start_frame as int,
                alignment.items@[k].end_frame as int,
            );
            &&& 0 <= a < b <= path.len()
            &&& path[a] != blank
            &&& path[b - 1] != blank
            &&& a == 0 || path[a - 1] != path[a]
            &&& b == path.len() || path[b] != path[b - 1]
            &&& names_of(collapse(path.subrange(a, b), blank), names).len() == lowercase(
                pieces[k],
            ).len()
            &&& forall|l: int|
                0 <= l < lowercase(pieces[k]).len() ==> #[trigger] names_of(
                    collapse(path.subrange(a, b), blank),
                    names,
                )[l] == seq![lowercase(pieces[k])[l]]
        }),
{
    let r = Ok::<Alignment<S>, AlignFailure>(alignment);
    let path = aligned_path(lattice_of(emissions, t, c, targets@, blank));
    let tokens = with_stars(spelled_pieces(pieces), frequency);
    let starred = with_stars(pieces, frequency);
    let label = blank_name(names, blank);
    let labs = run_labels(path, names);
    let n = tokens.len() as int;
    law_transcript_is_timed(
        r,
        emissions,
        t,
        c,
        pieces,
        frequency,
        targets,
        vocab,
        names,
        blank,
    );
    law_transcript_is_well_spelled(pieces, frequency);
    law_lookup_gives_targets(targets, pieces, frequency, vocab);
    law_possible_paths_time_every_piece(
        emissions,
        t,
        c,
        tokens,
        targets@,
        vocab,
        names,
        blank,
    );
    law_fitting_path_is_told(r, path, tokens, starred, names, label);
    law_stars_side_by_side(pieces, frequency);
    let items = timed(starred, tokens, path, names, label, n);
    assert(item_views(alignment.items@) == items);
    assert(texts_of(items).len() == pieces.len());
    assert(texts_of(items)[k] == items[k].text);
    lemma_all_covered(tokens, labs, label, n);
    let j = law_timed_piece_says_its_token(
        starred,
        tokens,
        path,
        names,
        blank,
        label,
        n,
        k,
    );
    assert(starred[j] == pieces[k]);
    assert(pieces.contains(pieces[k]));
    assert(tokens[j] == spelled(lowercase(pieces[k])));
    law_spelling_round_trip(lowercase(pieces[k]));
    let singles = lowercase(pieces[k]).map_values(|c: char| seq![c]);
    law_spelled_alternates(lowercase(pieces[k]));
    assert(letters(tokens, j) == singles);
    assert(alignment.items@[k].text@ == item_views(alignment.items@)[k].text);
}

} // verus!
