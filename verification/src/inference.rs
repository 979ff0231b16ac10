//! The alignment pipeline: a transcript and emissions in, timed pieces out.

use std::collections::HashMap;

use vstd::prelude::*;

use crate::chars::{
    are_bounds, chars_of, cut_after, join_with_spaces, joined, law_joined_is_parts_and_spaces,
    law_non_empty_keeps_the_others, law_split_is_between_cuts, non_empty, split_by, string_of,
    texts, trim, trimmed,
};
use crate::config::{effective_split, split_for};
use crate::ctc::{align_error, aligned_path, aligned_scores, forced_align, lattice_of};
use crate::ctc::{AlignError, Score};
use crate::postprocess::{
    are_segments, are_spans, covered, get_spans, interval, is_run, is_span, item_views,
    items_of, labels, law_runs_partition, lemma_expected_prefix, merge_repeats, piece, runs,
    span_error, spans_to_items, token_name,
};
use crate::postprocess::{FrameItem, FrameItemView, Segment, SpanError};
use crate::text::{
    are_names, is_lookup, lowercased, pieces_of, preprocess_text, spelled_pieces, token_parts,
    tokens_to_indices, with_stars, TokenError, Vocab, STAR,
};

verus! {

broadcast use vstd::std_specs::hash::group_hash_axioms;

/// The token for silence between letters.
pub const BLANK: &'static str = "<blank>";

/// The lines of a text.
pub open spec fn lines_of(s: Seq<char>) -> Seq<Seq<char>> {
    split_by(s, |c: char| c == '\n')
}

/// A transcript on one line: its lines without white space at their ends, those
/// that are empty left out, with a space between each two.
pub open spec fn one_line(s: Seq<char>) -> Seq<char> {
    joined(non_empty(lines_of(s).map_values(|line: Seq<char>| trimmed(line))))
}

/// Adds a line to those that are kept, unless nothing is left of it.
fn keep_line(kept: &mut Vec<String>, line: &[char])
    ensures
        texts(final(kept)@) == (if trimmed(line@).len() == 0 {
            texts(old(kept)@)
        } else {
            texts(old(kept)@).push(trimmed(line@))
        }),
{
    let chars = trim(line);
    if chars.len() > 0 {
        let ghost before = kept@;
        kept.push(string_of(chars.as_slice()));
        assert(texts(kept@) =~= texts(before).push(trimmed(line@)));
    }
}

/// Puts a transcript on one line.
pub fn join_lines(text: &str) -> (r: String)
    ensures
        r@ == one_line(text@),
{
    let chars = chars_of(text);
    let mut kept: Vec<String> = Vec::new();
    let mut line: Vec<char> = Vec::new();
    let mut i: usize = 0;
    let ghost cut = |c: char| c == '\n';
    let ghost f = |line: Seq<char>| trimmed(line);
    assert(split_by(chars@.take(0), cut) =~= seq![Seq::<char>::empty()]);
    assert(split_by(chars@.take(0), cut).drop_last().map_values(f) =~= Seq::<Seq<char>>::empty());
    assert(texts(kept@) =~= Seq::<Seq<char>>::empty());
    while i < chars.len()
        invariant
            i <= chars@.len(),
            cut == (|c: char| c == '\n'),
            f == (|line: Seq<char>| trimmed(line)),
            split_by(chars@.take(i as int), cut).len() >= 1,
            split_by(chars@.take(i as int), cut).last() == line@,
            non_empty(split_by(chars@.take(i as int), cut).drop_last().map_values(f)) == texts(
                kept@,
            ),
        decreases chars@.len() - i,
    {
        let c = chars[i];
        let ghost before = split_by(chars@.take(i as int), cut);
        let ghost head = chars@.take(i + 1);
        assert(head.drop_last() =~= chars@.take(i as int));
        let ghost after = split_by(head, cut);
        if c == '\n' {
            proof {
                assert(after == before.push(Seq::<char>::empty()));
                assert(after.drop_last() =~= before);
                lemma_non_empty_last(before, f);
            }
            keep_line(&mut kept, line.as_slice());
            line = Vec::new();
        } else {
            let ghost line0 = line@;
            line.push(c);
            assert(after == before.drop_last().push(line0.push(c)));
            assert(after.drop_last() =~= before.drop_last());
        }
        i += 1;
    }
    assert(chars@.take(i as int) =~= chars@);
    proof {
        lemma_non_empty_last(split_by(chars@, cut), f);
    }
    keep_line(&mut kept, line.as_slice());
    join_with_spaces(kept.as_slice())
}

/// What the last part adds.
proof fn lemma_non_empty_last(parts: Seq<Seq<char>>, f: spec_fn(Seq<char>) -> Seq<char>)
    requires
        parts.len() >= 1,
    ensures
        non_empty(parts.map_values(f)) == (if f(parts.last()).len() == 0 {
            non_empty(parts.drop_last().map_values(f))
        } else {
            non_empty(parts.drop_last().map_values(f)).push(f(parts.last()))
        }),
{
    assert(parts.map_values(f).drop_last() =~= parts.drop_last().map_values(f));
}

/// The key under which a preprocessed transcript is kept.
pub open spec fn key_of(
    language: Seq<char>,
    split: Seq<char>,
    star_frequency: Seq<char>,
    romanize: bool,
) -> Seq<char> {
    language + "|"@ + split + "|"@ + star_frequency + "|"@ + (if romanize {
        "true"@
    } else {
        "false"@
    })
}

/// Writes the key of a preprocessed transcript.
pub fn text_key(language: &str, split: &str, star_frequency: &str, romanize: bool) -> (r: String)
    ensures
        r@ == key_of(language@, split@, star_frequency@, romanize),
{
    let mut r = language.to_owned();
    r.append("|");
    r.append(split);
    r.append("|");
    r.append(star_frequency);
    r.append("|");
    if romanize {
        r.append("true");
    } else {
        r.append("false");
    }
    r
}

/// Whether `r` is what the preparation of a transcript's pieces comes to: the
/// tokens, their texts and the ids of their letters, or why a letter has none.
pub open spec fn is_prepared(
    r: Result<(Vec<String>, Vec<String>, Vec<usize>), TokenError>,
    pieces: Seq<Seq<char>>,
    star_frequency: Seq<char>,
    vocab: Map<Seq<char>, usize>,
) -> bool {
    let tokens = with_stars(spelled_pieces(pieces), star_frequency);
    let parts = token_parts(tokens);
    match r {
        Ok((spelled, given, ids)) => {
            &&& texts(spelled@) == tokens
            &&& texts(given@) == with_stars(pieces, star_frequency)
            &&& is_lookup(Ok::<Vec<usize>, TokenError>(ids), parts, lowercased(parts), vocab)
        },
        Err(e) => is_lookup(Err::<Vec<usize>, TokenError>(e), parts, lowercased(parts), vocab),
    }
}

/// Prepares a transcript: puts it on one line, splits it as the language and the
/// split size ask, spells the pieces, adds the stars and looks the letters up.
pub fn prepare_text(
    raw: &str,
    language: &str,
    split_size: &str,
    star_frequency: &str,
    vocab: &Vocab,
) -> (r: Result<(Vec<String>, Vec<String>, Vec<usize>), TokenError>)
    ensures
        is_prepared(
            r,
            pieces_of(one_line(raw@), split_for(language@, split_size@)),
            star_frequency@,
            vocab@,
        ),
{
    let line = join_lines(raw);
    let split = effective_split(language, split_size);
    let (tokens, pieces) = preprocess_text(line.as_str(), split.as_str(), star_frequency);
    match tokens_to_indices(tokens.as_slice(), vocab) {
        Ok(ids) => Ok((tokens, pieces, ids)),
        Err(e) => Err(e),
    }
}

/// The id of the blank: that of `<blank>` in the vocabulary, or else that of the
/// padding, or else zero.
pub open spec fn blank_id(vocab: Map<Seq<char>, usize>, pad_token_id: Option<usize>) -> usize {
    if vocab.contains_key(BLANK@) {
        vocab[BLANK@]
    } else if let Some(id) = pad_token_id {
        id
    } else {
        0
    }
}

/// A blank of the vocabulary goes before the padding, whatever else the two hold.
pub proof fn law_blank_goes_before_padding(
    vocab: Map<Seq<char>, usize>,
    pad: Option<usize>,
    other: Option<usize>,
    id: usize,
)
    ensures
        blank_id(vocab.insert("<blank>"@, id), pad) == id,
        vocab.contains_key("<blank>"@) ==> blank_id(vocab, pad) == blank_id(vocab, other),
        !vocab.contains_key("<blank>"@) ==> blank_id(vocab, Some(id)) == id && blank_id(vocab, None)
            == 0,
{
}

/// Finds the id of the blank.
pub fn find_blank(vocab: &Vocab, pad_token_id: Option<usize>) -> (r: usize)
    ensures
        r == blank_id(vocab@, pad_token_id),
        r == (if vocab@.contains_key(BLANK@) {
            vocab@[BLANK@]
        } else {
            match pad_token_id {
                Some(id) => id,
                None => 0,
            }
        }),
{
    match vocab.get(BLANK) {
        Some(id) => id,
        None => match pad_token_id {
            Some(id) => id,
            None => 0,
        },
    }
}

/// The name of the blank: that of its id, or else `<blank>`.
pub open spec fn blank_name(names: Map<usize, String>, blank: usize) -> Seq<char> {
    if names.contains_key(blank) {
        names[blank]@
    } else {
        BLANK@
    }
}

/// Finds the name of the blank.
fn name_blank(names: &HashMap<usize, String>, blank: usize) -> (r: String)
    ensures
        r@ == blank_name(names@, blank),
{
    match names.get(&blank) {
        Some(name) => name.clone(),
        None => BLANK.to_owned(),
    }
}

/// The names of the runs of a path.
pub open spec fn run_labels(path: Seq<usize>, names: Map<usize, String>) -> Seq<Seq<char>> {
    Seq::new(runs(path).len(), |k: int| token_name(names, path[runs(path)[k].0]))
}

/// The frames of token `j`: the first, and the first after the last.
pub open spec fn token_frames(
    tokens: Seq<Seq<char>>,
    path: Seq<usize>,
    names: Map<usize, String>,
    blank: Seq<char>,
    j: int,
) -> (int, int) {
    let iv = interval(tokens, run_labels(path, names), blank, j);
    (runs(path)[iv.0].0, runs(path)[iv.1].1 + 1)
}

/// How many of the first `n` tokens the runs of a path cover.
pub open spec fn covered_count(
    tokens: Seq<Seq<char>>,
    labels: Seq<Seq<char>>,
    blank: Seq<char>,
    n: int,
) -> int
    decreases n,
{
    if n <= 0 {
        0
    } else if covered(tokens, labels, blank, n) {
        n
    } else {
        covered_count(tokens, labels, blank, n - 1)
    }
}

/// The timed pieces of the first `n` tokens, stars left out.
pub open spec fn timed(
    pieces: Seq<Seq<char>>,
    tokens: Seq<Seq<char>>,
    path: Seq<usize>,
    names: Map<usize, String>,
    blank: Seq<char>,
    n: int,
) -> Seq<FrameItemView>
    decreases n,
{
    if n <= 0 {
        Seq::empty()
    } else {
        let before = timed(pieces, tokens, path, names, blank, n - 1);
        let frames = token_frames(tokens, path, names, blank, n - 1);
        if piece(pieces, n - 1) == STAR@ {
            before
        } else {
            before.push(
                FrameItemView {
                    start_frame: frames.0,
                    end_frame: frames.1,
                    text: piece(pieces, n - 1),
                },
            )
        }
    }
}

/// An alignment: the token and the score of each frame, and the timed pieces.
#[derive(Debug)]
pub struct Alignment<S> {
    pub path: Vec<usize>,
    pub scores: Vec<S>,
    pub items: Vec<FrameItem>,
}

/// Why a transcript cannot be aligned.
#[derive(Debug)]
pub enum AlignFailure {
    /// The emissions and the targets do not fit.
    Align { error: AlignError },
    /// The path does not spell the tokens.
    Spans { mismatch: SpanError },
}

/// Whether `i` is the first run that does not fit, and `e` is what is wrong
/// with it.
pub open spec fn first_misfit(
    tokens: Seq<Seq<char>>,
    labels: Seq<Seq<char>>,
    blank: Seq<char>,
    i: int,
    e: SpanError,
) -> bool {
    &&& 0 <= i < labels.len()
    &&& span_error(tokens, labels, blank, i) == Some(e@)
    &&& forall|k: int| 0 <= k < i ==> #[trigger] span_error(tokens, labels, blank, k) is None
}

/// Whether every run of the path fits.
pub open spec fn all_fit(
    tokens: Seq<Seq<char>>,
    labels: Seq<Seq<char>>,
    blank: Seq<char>,
) -> bool {
    forall|k: int|
        0 <= k < labels.len() ==> #[trigger] span_error(tokens, labels, blank, k) is None
}

/// Whether `r` is what the path of an alignment comes to, under the given names
/// of the tokens.
pub open spec fn is_told<S>(
    r: Result<Alignment<S>, AlignFailure>,
    path: Seq<usize>,
    tokens: Seq<Seq<char>>,
    pieces: Seq<Seq<char>>,
    names: Map<usize, String>,
    blank: Seq<char>,
) -> bool {
    let labels = run_labels(path, names);
    match r {
        Ok(alignment) => {
            &&& all_fit(tokens, labels, blank)
            &&& item_views(alignment.items@) == timed(
                pieces,
                tokens,
                path,
                names,
                blank,
                covered_count(tokens, labels, blank, tokens.len() as int),
            )
        },
        Err(AlignFailure::Spans { mismatch }) => exists|i: int| #[trigger]
            first_misfit(tokens, labels, blank, i, mismatch),
        Err(_) => false,
    }
}

/// Segments carry the names of their runs.
pub(crate) proof fn lemma_segment_labels(
    segments: Seq<Segment>,
    path: Seq<usize>,
    names: Map<usize, String>,
)
    requires
        are_segments(segments, path, names),
    ensures
        labels(segments) == run_labels(path, names),
{
    assert forall|k: int| 0 <= k < segments.len() implies labels(segments)[k] == run_labels(
        path,
        names,
    )[k] by {
        assert(segments[k].label@ == token_name(names, path[runs(path)[k].0]));
    }
    assert(labels(segments) =~= run_labels(path, names));
}

/// No more tokens are covered than there are spans.
proof fn lemma_covered_count(
    tokens: Seq<Seq<char>>,
    labels: Seq<Seq<char>>,
    blank: Seq<char>,
    m: int,
    n: int,
)
    requires
        0 <= m <= n,
        covered(tokens, labels, blank, m),
        m < n ==> !covered(tokens, labels, blank, m + 1),
    ensures
        covered_count(tokens, labels, blank, n) == m,
    decreases n,
{
    if m < n {
        lemma_expected_prefix(tokens, m + 1, n);
        lemma_covered_count(tokens, labels, blank, m, n - 1);
    }
}

/// The items of the first `n` spans are the timed pieces of their tokens.
proof fn lemma_items_are_timed(
    pieces: Seq<Seq<char>>,
    tokens: Seq<Seq<char>>,
    path: Seq<usize>,
    names: Map<usize, String>,
    segments: Seq<Segment>,
    spans: Seq<Vec<Segment>>,
    blank: Seq<char>,
    n: int,
)
    requires
        are_segments(segments, path, names),
        are_spans(spans, tokens, segments, blank),
        0 <= n <= spans.len(),
    ensures
        items_of(pieces, spans, n) == timed(pieces, tokens, path, names, blank, n),
    decreases n,
{
    if n > 0 {
        lemma_items_are_timed(pieces, tokens, path, names, segments, spans, blank, n - 1);
        lemma_segment_labels(segments, path, names);
        let span = spans[n - 1]@;
        assert(is_span(spans[n - 1]@, tokens, segments, blank, n - 1));
        let iv = interval(tokens, labels(segments), blank, n - 1);
        assert(span[0] == segments[iv.0]);
        assert(span.last() == segments[iv.1]);
    }
}

/// Turns the path of an alignment into timed pieces.
pub fn time_pieces<S>(
    path: Vec<usize>,
    scores: Vec<S>,
    tokens: &[String],
    pieces: &[String],
    names: &HashMap<usize, String>,
    blank: &str,
) -> (r: Result<Alignment<S>, AlignFailure>)
    ensures
        is_told(r, path@, texts(tokens@), texts(pieces@), names@, blank@),
        r matches Ok(alignment) ==> alignment.path == path && alignment.scores == scores,
        r matches Err(e) ==> e is Spans,
{
    let segments = merge_repeats(path.as_slice(), names);
    proof {
        lemma_segment_labels(segments@, path@, names@);
        assert(path@.len() == path.len());
    }
    let ghost labs = run_labels(path@, names@);
    let ghost toks = texts(tokens@);
    let spans = match get_spans(tokens, segments.as_slice(), blank) {
        Ok(spans) => spans,
        Err(mismatch) => {
            proof {
                let i = choose|i: int|
                    0 <= i < segments@.len() && #[trigger] span_error(toks, labs, blank@, i)
                        == Some(mismatch@) && (forall|k: int|
                        0 <= k < i ==> #[trigger] span_error(toks, labs, blank@, k) is None);
                assert(first_misfit(toks, labs, blank@, i, mismatch));
            }
            return Err(AlignFailure::Spans { mismatch });
        },
    };
    proof {
        assert forall|i: int| 0 <= i < spans@.len() && (#[trigger] spans@[i])@.len() > 0 implies
            spans@[i]@.last().end < usize::MAX by {
            assert(is_span(spans@[i]@, toks, segments@, blank@, i));
            let iv = interval(toks, labs, blank@, i);
            assert(spans@[i]@.last() == segments@[iv.1]);
            law_runs_partition(path@);
            assert(is_run(path@, runs(path@), iv.1));
            assert(segments@[iv.1].end == runs(path@)[iv.1].1);
        }
        let n = spans@.len() as int;
        lemma_items_are_timed(
            texts(pieces@),
            toks,
            path@,
            names@,
            segments@,
            spans@,
            blank@,
            n,
        );
        if n > 0 {
            assert(is_span(spans@[n - 1]@, toks, segments@, blank@, n - 1));
        }
        lemma_covered_count(toks, labs, blank@, n, toks.len() as int);
    }
    let items = spans_to_items(pieces, spans.as_slice());
    Ok(Alignment { path, scores, items })
}

/// Aligns tokens to emissions and times the pieces of text that they stand for.
///
/// * `emissions`: shape `(t, c)`, row by row
/// * `tokens`, `pieces`: the tokens and the text of each
/// * `targets`: the ids of the tokens' letters
/// * `blank`: the id of the blank
///
/// Where the vocabulary gives one id to two tokens, either names it.
pub fn align_tokens<S: Score>(
    emissions: &[S],
    t: usize,
    c: usize,
    tokens: &[String],
    pieces: &[String],
    targets: &[usize],
    vocab: &Vocab,
    blank: usize,
) -> (r: Result<Alignment<S>, AlignFailure>)
    requires
        2 * targets@.len() + 1 <= usize::MAX,
    ensures
        match align_error(emissions@.len(), t, c, targets@, blank) {
            Some(error) => r == Err::<Alignment<S>, AlignFailure>(AlignFailure::Align { error }),
            None => {
                let lattice = lattice_of(emissions@, t, c, targets@, blank);
                &&& exists|names: Map<usize, String>| #[trigger]
                    are_names(names, vocab@) && is_told(
                        r,
                        aligned_path(lattice),
                        texts(tokens@),
                        texts(pieces@),
                        names,
                        blank_name(names, blank),
                    )
                &&& r matches Ok(alignment) ==> alignment.path@ == aligned_path(lattice)
                    && alignment.scores@ == aligned_scores(lattice)
            },
        },
{
    let (path, scores) = match forced_align(emissions, t, c, targets, blank) {
        Ok(aligned) => aligned,
        Err(error) => return Err(AlignFailure::Align { error }),
    };
    let names = vocab.names();
    let blank_label = name_blank(&names, blank);
    assert(are_names(names@, vocab@));
    time_pieces(path, scores, tokens, pieces, &names, blank_label.as_str())
}

/// Whether line `i` ends with a line break and the next begins right after it.
pub open spec fn breaks_after(s: Seq<char>, bs: Seq<(int, int)>, i: int) -> bool {
    s[bs[i].1] == '\n' && bs[i + 1].0 == bs[i].1 + 1
}

/// A transcript on one line, told by positions.  `r.0` bounds its lines: they run
/// from its beginning to its end, hold no line break, and one stands between each
/// two.  `r.1` says which of them are more than white space: these are kept, in
/// their order.  `r.2` says where each kept line, without white space at its
/// ends, stands in the result: one space comes after each but the last.
pub proof fn law_one_line_keeps_the_lines(s: Seq<char>) -> (r: (Seq<(int, int)>, Seq<int>, Seq<int>))
    ensures
        r.0.len() >= 1,
        r.0[0].0 == 0,
        r.0[r.0.len() - 1].1 == s.len(),
        are_bounds(r.0, s.len() as int),
        forall|i: int, k: int|
            0 <= i < r.0.len() && (#[trigger] r.0[i]).0 <= k < r.0[i].1 ==> #[trigger] s[k] != '\n',
        forall|i: int| 0 <= i < r.0.len() - 1 ==> #[trigger] breaks_after(s, r.0, i),
        forall|i: int, j: int| 0 <= i < j < r.1.len() ==> #[trigger] r.1[i] < #[trigger] r.1[j],
        forall|i: int|
            0 <= i < r.1.len() ==> 0 <= #[trigger] r.1[i] < r.0.len() && trimmed(
                s.subrange(r.0[r.1[i]].0, r.0[r.1[i]].1),
            ).len() > 0,
        forall|k: int|
            0 <= k < r.0.len() && trimmed(
                s.subrange((#[trigger] r.0[k]).0, r.0[k].1),
            ).len() > 0 ==> r.1.contains(k),
        r.2.len() == r.1.len(),
        r.1.len() == 0 ==> one_line(s).len() == 0,
        forall|i: int|
            0 <= i < r.1.len() ==> {
                let line = trimmed(s.subrange(r.0[r.1[i]].0, r.0[r.1[i]].1));
                let from = #[trigger] r.2[i];
                &&& 0 <= from
                &&& from + line.len() <= one_line(s).len()
                &&& one_line(s).subrange(from, from + line.len()) == line
                &&& i == 0 ==> from == 0
                &&& i == r.1.len() - 1 ==> from + line.len() == one_line(s).len()
                &&& i < r.1.len() - 1 ==> one_line(s)[from + line.len()] == ' ' && r.2[i + 1]
                    == from + line.len() + 1
            },
{
    let cut = |c: char| c == '\n';
    let f = |line: Seq<char>| trimmed(line);
    let bs = law_split_is_between_cuts(s, cut);
    let lines = lines_of(s).map_values(f);
    assert forall|i: int| 0 <= i < bs.len() - 1 implies #[trigger] breaks_after(s, bs, i) by {
        assert(cut_after(s, cut, bs, i));
    }
    let ks = law_non_empty_keeps_the_others(lines);
    let kept = non_empty(lines);
    let at = law_joined_is_parts_and_spaces(kept);
    assert forall|i: int| 0 <= i < bs.len() implies #[trigger] lines[i] == trimmed(
        s.subrange(bs[i].0, bs[i].1),
    ) by {
        assert(split_by(s, cut)[i] == s.subrange(bs[i].0, bs[i].1));
    }
    assert forall|i: int, k: int|
        0 <= i < bs.len() && (#[trigger] bs[i]).0 <= k < bs[i].1 implies #[trigger] s[k] != '\n' by {
        assert(!cut(s[k]));
    }
    assert forall|i: int| 0 <= i < ks.len() implies kept[i] == trimmed(
        s.subrange(bs[#[trigger] ks[i]].0, bs[ks[i]].1),
    ) by {
        assert(lines[ks[i]] == trimmed(s.subrange(bs[ks[i]].0, bs[ks[i]].1)));
    }
    assert forall|k: int|
        0 <= k < bs.len() && trimmed(s.subrange((#[trigger] bs[k]).0, bs[k].1)).len()
            > 0 implies ks.contains(k) by {
        assert(lines[k].len() > 0);
    }
    assert forall|i: int| 0 <= i < ks.len() implies {
        let line = trimmed(s.subrange(bs[ks[i]].0, bs[ks[i]].1));
        let from = #[trigger] at[i];
        &&& 0 <= from
        &&& from + line.len() <= one_line(s).len()
        &&& one_line(s).subrange(from, from + line.len()) == line
        &&& i == 0 ==> from == 0
        &&& i == ks.len() - 1 ==> from + line.len() == one_line(s).len()
        &&& i < ks.len() - 1 ==> one_line(s)[from + line.len()] == ' ' && at[i + 1] == from
            + line.len() + 1
    } by {
        assert(kept[i] == trimmed(s.subrange(bs[ks[i]].0, bs[ks[i]].1)));
    }
    (bs, ks, at)
}

/// Texts before the first bar, and what follows it, are told apart.
proof fn lemma_first_bar(a: Seq<char>, x: Seq<char>, b: Seq<char>, y: Seq<char>)
    requires
        !a.contains('|'),
        !b.contains('|'),
        a + seq!['|'] + x == b + seq!['|'] + y,
    ensures
        a == b,
        x == y,
{
    let whole = a + seq!['|'] + x;
    let other = b + seq!['|'] + y;
    if a.len() < b.len() {
        assert(whole[a.len() as int] == '|');
        assert(other[a.len() as int] == b[a.len() as int]);
    }
    if b.len() < a.len() {
        assert(other[b.len() as int] == '|');
        assert(whole[b.len() as int] == a[b.len() as int]);
    }
    assert(a =~= whole.take(a.len() as int));
    assert(b =~= other.take(b.len() as int));
    assert(x =~= whole.skip(a.len() as int + 1));
    assert(y =~= other.skip(b.len() as int + 1));
}

/// Requests that are prepared in different ways have different keys, as long as
/// their parts hold no bar.
pub proof fn law_keys_tell_requests_apart(
    language: Seq<char>,
    split: Seq<char>,
    stars: Seq<char>,
    romanize: bool,
    language2: Seq<char>,
    split2: Seq<char>,
    stars2: Seq<char>,
    romanize2: bool,
)
    requires
        !language.contains('|') && !split.contains('|') && !stars.contains('|'),
        !language2.contains('|') && !split2.contains('|') && !stars2.contains('|'),
    ensures
        key_of(language, split, stars, romanize) == key_of(language2, split2, stars2, romanize2)
            <==> language == language2 && split == split2 && stars == stars2 && romanize
            == romanize2,
{
    reveal_strlit("|");
    reveal_strlit("true");
    reveal_strlit("false");
    let flag = |on: bool|
        if on {
            "true"@
        } else {
            "false"@
        };
    assert("|"@ =~= seq!['|']);
    assert("true"@.len() == 4 && "false"@.len() == 5);
    let tail1 = stars + seq!['|'] + flag(romanize);
    let tail2 = stars2 + seq!['|'] + flag(romanize2);
    let rest1 = split + seq!['|'] + tail1;
    let rest2 = split2 + seq!['|'] + tail2;
    let key1 = key_of(language, split, stars, romanize);
    let key2 = key_of(language2, split2, stars2, romanize2);
    assert(key1 =~= language + seq!['|'] + rest1);
    assert(key2 =~= language2 + seq!['|'] + rest2);
    if key1 == key2 {
        lemma_first_bar(language, rest1, language2, rest2);
        lemma_first_bar(split, tail1, split2, tail2);
        lemma_first_bar(stars, flag(romanize), stars2, flag(romanize2));
    }
}

} // verus!
