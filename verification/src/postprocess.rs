//! From the path of an alignment to segments, spans and timed items.

use std::collections::HashMap;

use vstd::prelude::*;

use crate::chars::{
    chars_of, decimal, digits_value, law_numeral_round_trip, lemma_split_has_part, numeral,
    same_text, split_at_spaces, split_spaces, texts,
};
use crate::text::STAR;

verus! {

broadcast use vstd::std_specs::hash::group_hash_axioms;

/// A run of frames with one token.
#[derive(Debug)]
pub struct Segment {
    pub label: String,
    /// The first frame of the run.
    pub start: usize,
    /// The last frame of the run.
    pub end: usize,
}

impl Clone for Segment {
    fn clone(&self) -> (r: Self)
        ensures
            r == *self,
    {
        Segment { label: self.label.clone(), start: self.start, end: self.end }
    }
}

/// The maximal runs of equal values in a path, as first and last positions.
pub open spec fn runs(path: Seq<usize>) -> Seq<(int, int)>
    decreases path.len(),
{
    if path.len() == 0 {
        Seq::empty()
    } else {
        let n = path.len() - 1;
        let before = runs(path.drop_last());
        if n > 0 && path[n - 1] == path[n] {
            before.drop_last().push((before.last().0, n))
        } else {
            before.push((n, n))
        }
    }
}

/// The name of a token: the vocabulary's, or `id=` and its number.
pub open spec fn token_name(idx_to_token: Map<usize, String>, v: usize) -> Seq<char> {
    if idx_to_token.contains_key(v) {
        idx_to_token[v]@
    } else {
        "id="@ + numeral(v as nat)
    }
}

/// Whether the segments are the runs of the path, under the tokens' names.
pub open spec fn are_segments(
    segments: Seq<Segment>,
    path: Seq<usize>,
    idx_to_token: Map<usize, String>,
) -> bool {
    &&& segments.len() == runs(path).len()
    &&& forall|k: int|
        0 <= k < segments.len() ==> {
            &&& (#[trigger] segments[k]).start == runs(path)[k].0
            &&& segments[k].end == runs(path)[k].1
            &&& segments[k].label@ == token_name(idx_to_token, path[runs(path)[k].0])
        }
}

/// Whether entry `k` of `rs` is a run of the path that follows the one before
/// it: it holds one value, which differs from that of its neighbour, and the
/// first and the last entry reach the ends of the path.
pub open spec fn is_run(path: Seq<usize>, rs: Seq<(int, int)>, k: int) -> bool {
    &&& 0 <= rs[k].0 <= rs[k].1 < path.len()
    &&& k == 0 ==> rs[k].0 == 0
    &&& k > 0 ==> rs[k].0 == rs[k - 1].1 + 1 && path[rs[k].0] != path[rs[k - 1].0]
    &&& k == rs.len() - 1 ==> rs[k].1 == path.len() - 1
    &&& forall|m: int| rs[k].0 <= m <= rs[k].1 ==> #[trigger] path[m] == path[rs[k].0]
}

/// The runs of a path partition it.
pub proof fn law_runs_partition(path: Seq<usize>)
    requires
        path.len() > 0,
    ensures
        runs(path).len() > 0,
        forall|k: int| 0 <= k < runs(path).len() ==> #[trigger] is_run(path, runs(path), k),
    decreases path.len(),
{
    let n = path.len() - 1;
    let shorter = path.drop_last();
    let before = runs(shorter);
    let after = runs(path);
    if n > 0 {
        law_runs_partition(shorter);
        let last = before.len() - 1;
        assert(is_run(shorter, before, last));
        assert(shorter[n - 1] == shorter[before[last].0]);
        assert forall|k: int| 0 <= k < after.len() implies #[trigger] is_run(path, after, k) by {
            if k < before.len() {
                assert(is_run(shorter, before, k));
                if k > 0 {
                    assert(is_run(shorter, before, k - 1));
                }
                assert forall|m: int| after[k].0 <= m <= after[k].1 implies #[trigger] path[m]
                    == path[after[k].0] by {
                    if m < n {
                        assert(shorter[m] == shorter[before[k].0]);
                    }
                }
            }
        }
    } else {
        assert(before =~= Seq::<(int, int)>::empty());
        assert(is_run(path, after, 0));
    }
}

/// The name of a token.
fn name_of_token(idx_to_token: &HashMap<usize, String>, v: usize) -> (r: String)
    ensures
        r@ == token_name(idx_to_token@, v),
{
    match idx_to_token.get(&v) {
        Some(name) => name.clone(),
        None => {
            let mut r = "id=".to_owned();
            r.append(decimal(v).as_str());
            r
        },
    }
}

/// Collapses consecutive identical path labels.
pub fn merge_repeats(path: &[usize], idx_to_token: &HashMap<usize, String>) -> (segments: Vec<
    Segment,
>)
    ensures
        are_segments(segments@, path@, idx_to_token@),
{
    let mut segments: Vec<Segment> = Vec::new();
    let mut i1: usize = 0;
    assert(path@.take(0) =~= Seq::<usize>::empty());
    while i1 < path.len()
        invariant
            i1 <= path@.len(),
            are_segments(segments@, path@.take(i1 as int), idx_to_token@),
            0 < i1 < path@.len() ==> path@[i1 - 1] != path@[i1 as int],
        decreases path@.len() - i1,
    {
        let ghost before = runs(path@.take(i1 as int));
        let mut i2: usize = i1 + 1;
        assert(path@.take(i1 + 1).drop_last() =~= path@.take(i1 as int));
        while i2 < path.len() && path[i1] == path[i2]
            invariant
                i1 < i2 <= path@.len(),
                forall|k: int| i1 <= k < i2 ==> path@[k] == path@[i1 as int],
                runs(path@.take(i2 as int)) == before.push((i1 as int, i2 - 1)),
            decreases path@.len() - i2,
        {
            assert(path@.take(i2 + 1).drop_last() =~= path@.take(i2 as int));
            assert(before.push((i1 as int, i2 - 1)).drop_last() =~= before);
            i2 += 1;
        }
        let label = name_of_token(idx_to_token, path[i1]);
        let ghost segments0 = segments@;
        segments.push(Segment { label, start: i1, end: i2 - 1 });
        proof {
            let head = path@.take(i2 as int);
            let shorter = path@.take(i1 as int);
            assert forall|k: int| 0 <= k < segments@.len() implies {
                &&& (#[trigger] segments@[k]).start == runs(head)[k].0
                &&& segments@[k].end == runs(head)[k].1
                &&& segments@[k].label@ == token_name(idx_to_token@, head[runs(head)[k].0])
            } by {
                if k < segments0.len() {
                    assert(segments@[k] == segments0[k]);
                    law_runs_partition(shorter);
                    assert(is_run(shorter, before, k));
                    assert(head[before[k].0] == shorter[before[k].0]);
                }
            }
        }
        i1 = i2;
    }
    assert(path@.take(i1 as int) =~= path@);
    segments
}

/// The labels of segments.
pub open spec fn labels(segments: Seq<Segment>) -> Seq<Seq<char>> {
    Seq::new(segments.len(), |i: int| segments[i].label@)
}

/// The letters that token `j` waits for: its parts between spaces.  An empty
/// token waits for none, unless it is the first.
pub open spec fn letters(tokens: Seq<Seq<char>>, j: int) -> Seq<Seq<char>> {
    if j > 0 && tokens[j].len() == 0 {
        Seq::empty()
    } else {
        split_spaces(tokens[j])
    }
}

/// The letters of the first `n` tokens, one after the other.
pub open spec fn expected(tokens: Seq<Seq<char>>, n: int) -> Seq<Seq<char>>
    decreases n,
{
    if n <= 0 {
        Seq::empty()
    } else {
        expected(tokens, n - 1) + letters(tokens, n - 1)
    }
}

/// The positions of the segments, among the first `n`, that are not blank.
pub open spec fn spoken(labels: Seq<Seq<char>>, blank: Seq<char>, n: int) -> Seq<int>
    decreases n,
{
    if n <= 0 {
        Seq::empty()
    } else if labels[n - 1] == blank {
        spoken(labels, blank, n - 1)
    } else {
        spoken(labels, blank, n - 1).push(n - 1)
    }
}

/// Why tokens and segments do not fit.
#[derive(Debug)]
pub enum SpanError {
    /// Segments go on after the last token.
    ExtraSegments,
    /// The one segment after the last token is not blank.
    ExpectedBlank { got: String },
    /// A segment is not the letter that the tokens wait for.
    Mismatch { got: String, expected: String },
}

/// The contents of a [`SpanError`].
pub enum SpanErrorView {
    ExtraSegments,
    ExpectedBlank { got: Seq<char> },
    Mismatch { got: Seq<char>, expected: Seq<char> },
}

impl View for SpanError {
    type V = SpanErrorView;

    open spec fn view(&self) -> SpanErrorView {
        match self {
            SpanError::ExtraSegments => SpanErrorView::ExtraSegments,
            SpanError::ExpectedBlank { got } => SpanErrorView::ExpectedBlank { got: got@ },
            SpanError::Mismatch { got, expected } => SpanErrorView::Mismatch {
                got: got@,
                expected: expected@,
            },
        }
    }
}

/// What is wrong with segment `i`, when those before it fit: each segment that
/// is not blank is the next letter, and at most one segment, a blank one,
/// follows the last letter.
pub open spec fn span_error(
    tokens: Seq<Seq<char>>,
    labels: Seq<Seq<char>>,
    blank: Seq<char>,
    i: int,
) -> Option<SpanErrorView> {
    let all = expected(tokens, tokens.len() as int);
    let k = spoken(labels, blank, i).len() as int;
    if k >= all.len() {
        if i != labels.len() - 1 {
            Some(SpanErrorView::ExtraSegments)
        } else if labels[i] != blank {
            Some(SpanErrorView::ExpectedBlank { got: labels[i] })
        } else {
            None
        }
    } else if labels[i] == blank || labels[i] == all[k] {
        None
    } else {
        Some(SpanErrorView::Mismatch { got: labels[i], expected: all[k] })
    }
}

/// The first and the last segment of token `j`.  A token without letters
/// stands on the last segment of the token before it.
pub open spec fn interval(
    tokens: Seq<Seq<char>>,
    labels: Seq<Seq<char>>,
    blank: Seq<char>,
    j: int,
) -> (int, int) {
    let at = spoken(labels, blank, labels.len() as int);
    let from = expected(tokens, j).len() as int;
    let to = expected(tokens, j + 1).len() as int;
    (
        at[if from == to {
            to - 1
        } else {
            from
        }],
        at[to - 1],
    )
}

/// Whether the segments hold every letter of the first `n` tokens.
pub open spec fn covered(
    tokens: Seq<Seq<char>>,
    labels: Seq<Seq<char>>,
    blank: Seq<char>,
    n: int,
) -> bool {
    expected(tokens, n).len() <= spoken(labels, blank, labels.len() as int).len()
}

/// Whether the segments cover token `j` and `span` holds its segments.
pub open spec fn is_span(
    span: Seq<Segment>,
    tokens: Seq<Seq<char>>,
    segments: Seq<Segment>,
    blank: Seq<char>,
    j: int,
) -> bool {
    let iv = interval(tokens, labels(segments), blank, j);
    &&& covered(tokens, labels(segments), blank, j + 1)
    &&& 0 <= iv.0 <= iv.1 < segments.len()
    &&& span == segments.subrange(iv.0, iv.1 + 1)
}

/// Whether `spans` are the spans of the tokens that the segments cover: for
/// each such token, from the first, its segments.
pub open spec fn are_spans(
    spans: Seq<Vec<Segment>>,
    tokens: Seq<Seq<char>>,
    segments: Seq<Segment>,
    blank: Seq<char>,
) -> bool {
    &&& spans.len() <= tokens.len()
    &&& forall|j: int|
        0 <= j < spans.len() ==> is_span(#[trigger] spans[j]@, tokens, segments, blank, j)
    &&& spans.len() < tokens.len() ==> !covered(
        tokens,
        labels(segments),
        blank,
        spans.len() as int + 1,
    )
}

/// Whether `r` is what a scan of segments for tokens comes to: the spans, where
/// every segment fits, or else what is wrong with the first that does not.
pub open spec fn is_scan(
    r: Result<Vec<Vec<Segment>>, SpanError>,
    tokens: Seq<Seq<char>>,
    segments: Seq<Segment>,
    blank: Seq<char>,
) -> bool {
    match r {
        Ok(spans) => {
            &&& forall|i: int|
                0 <= i < segments.len() ==> #[trigger] span_error(
                    tokens,
                    labels(segments),
                    blank,
                    i,
                ) is None
            &&& are_spans(spans@, tokens, segments, blank)
        },
        Err(e) => exists|i: int|
            0 <= i < segments.len() && #[trigger] span_error(tokens, labels(segments), blank, i)
                == Some(e@) && (forall|k: int|
                0 <= k < i ==> #[trigger] span_error(tokens, labels(segments), blank, k) is None),
    }
}

/// Earlier letters stay where they are as tokens are added.
pub proof fn lemma_expected_prefix(tokens: Seq<Seq<char>>, j: int, n: int)
    requires
        0 <= j <= n,
    ensures
        expected(tokens, j).len() <= expected(tokens, n).len(),
        forall|k: int|
            0 <= k < expected(tokens, j).len() ==> #[trigger] expected(tokens, n)[k] == expected(
                tokens,
                j,
            )[k],
    decreases n,
{
    if j < n {
        lemma_expected_prefix(tokens, j, n - 1);
    }
}

/// Earlier positions stay where they are as segments are added, and rise.
pub proof fn lemma_spoken_prefix(labels: Seq<Seq<char>>, blank: Seq<char>, i: int, n: int)
    requires
        0 <= i <= n,
    ensures
        spoken(labels, blank, i).len() <= spoken(labels, blank, n).len(),
        forall|k: int|
            0 <= k < spoken(labels, blank, i).len() ==> #[trigger] spoken(labels, blank, n)[k]
                == spoken(labels, blank, i)[k],
        forall|k: int|
            0 <= k < spoken(labels, blank, n).len() ==> 0 <= #[trigger] spoken(labels, blank, n)[k]
                < n && labels[spoken(labels, blank, n)[k]] != blank,
        forall|k: int, m: int|
            0 <= k < m < spoken(labels, blank, n).len() ==> (#[trigger] spoken(labels, blank, n)[k])
                < (#[trigger] spoken(labels, blank, n)[m]),
    decreases n,
{
    if n > 0 {
        lemma_spoken_prefix(
            labels,
            blank,
            if i < n {
                i
            } else {
                n - 1
            },
            n - 1,
        );
        let now = spoken(labels, blank, n);
        let before = spoken(labels, blank, n - 1);
        assert forall|k: int| 0 <= k < now.len() implies 0 <= #[trigger] now[k] < n
            && labels[now[k]] != blank by {
            if k < before.len() {
                assert(now[k] == before[k]);
            }
        }
        assert forall|k: int, m: int| 0 <= k < m < now.len() implies (#[trigger] now[k])
            < #[trigger] now[m] by {
            assert(now[k] == before[k]);
            if m < before.len() {
                assert(now[m] == before[m]);
            }
        }
    }
}

/// The letter that is waited for, `l` letters into token `j`.
proof fn lemma_next_letter(tokens: Seq<Seq<char>>, j: int, l: int)
    requires
        0 <= j < tokens.len(),
        0 <= l < letters(tokens, j).len(),
    ensures
        expected(tokens, j).len() + l < expected(tokens, tokens.len() as int).len(),
        expected(tokens, tokens.len() as int)[expected(tokens, j).len() + l] == letters(
            tokens,
            j,
        )[l],
{
    lemma_expected_prefix(tokens, j + 1, tokens.len() as int);
    let here = expected(tokens, j + 1);
    assert(here[expected(tokens, j).len() + l] == letters(tokens, j)[l]);
}

/// A token that is not empty, and the first one, has a letter.
proof fn lemma_token_has_letter(tokens: Seq<Seq<char>>, j: int)
    requires
        0 <= j < tokens.len(),
        j == 0 || tokens[j].len() > 0,
    ensures
        letters(tokens, j).len() >= 1,
{
    lemma_split_has_part(tokens[j], |c: char| c == ' ');
}

/// Whether token `j` is covered, by the segments from `iv.0` to `iv.1`.
spec fn found(
    tokens: Seq<Seq<char>>,
    labels: Seq<Seq<char>>,
    blank: Seq<char>,
    j: int,
    iv: (usize, usize),
) -> bool {
    &&& iv.0 == interval(tokens, labels, blank, j).0
    &&& iv.1 == interval(tokens, labels, blank, j).1
    &&& iv.0 <= iv.1 < labels.len()
    &&& covered(tokens, labels, blank, j + 1)
}

/// Where the scan of the segments stands.
spec fn scanned(
    tokens: Seq<Seq<char>>,
    labels: Seq<Seq<char>>,
    blank: Seq<char>,
    seg_idx: int,
    tokens_idx: int,
    ltr_idx: int,
    start: int,
    intervals: Seq<(usize, usize)>,
) -> bool {
    let at = spoken(labels, blank, labels.len() as int);
    &&& 0 <= tokens_idx <= tokens.len()
    &&& 0 <= ltr_idx
    &&& spoken(labels, blank, seg_idx).len() == expected(tokens, tokens_idx).len() + ltr_idx
    &&& tokens_idx < tokens.len() ==> ltr_idx < letters(tokens, tokens_idx).len()
    &&& tokens_idx == tokens.len() ==> ltr_idx == 0
    &&& ltr_idx > 0 ==> start == at[expected(tokens, tokens_idx).len() as int]
    &&& intervals.len() == tokens_idx
    &&& forall|j: int|
        0 <= j < tokens_idx ==> found(tokens, labels, blank, j, #[trigger] intervals[j])
}

/// Maps starred tokens onto collapsed segments: the segments of each token.
///
/// A token is a list of letters with a space between each two.
pub fn get_spans(tokens: &[String], segments: &[Segment], blank: &str) -> (r: Result<
    Vec<Vec<Segment>>,
    SpanError,
>)
    ensures
        is_scan(r, texts(tokens@), segments@, blank@),
{
    let ghost toks = texts(tokens@);
    let ghost labs = labels(segments@);
    let ghost n = segments@.len() as int;
    let mut ltr_idx: usize = 0;
    let mut tokens_idx: usize = 0;
    let mut intervals: Vec<(usize, usize)> = Vec::new();
    let mut start: usize = 0;
    let mut seg_idx: usize = 0;
    proof {
        if toks.len() > 0 {
            lemma_token_has_letter(toks, 0);
        }
    }
    while seg_idx < segments.len()
        invariant
            seg_idx <= segments@.len(),
            toks == texts(tokens@),
            labs == labels(segments@),
            n == segments@.len(),
            scanned(
                toks,
                labs,
                blank@,
                seg_idx as int,
                tokens_idx as int,
                ltr_idx as int,
                start as int,
                intervals@,
            ),
            forall|i: int| 0 <= i < seg_idx ==> #[trigger] span_error(toks, labs, blank@, i) is None,
        decreases segments@.len() - seg_idx,
    {
        let seg = &segments[seg_idx];
        assert(labs[seg_idx as int] == seg.label@);
        if tokens_idx == tokens.len() {
            if seg_idx != segments.len() - 1 {
                assert(span_error(toks, labs, blank@, seg_idx as int) == Some(
                    SpanErrorView::ExtraSegments,
                ));
                return Err(SpanError::ExtraSegments);
            }
            if !same_text(seg.label.as_str(), blank) {
                let e = SpanError::ExpectedBlank { got: seg.label.clone() };
                assert(span_error(toks, labs, blank@, seg_idx as int) == Some(e@));
                return Err(e);
            }
            assert(span_error(toks, labs, blank@, seg_idx as int) is None);
            seg_idx += 1;
            continue;
        }
        let cur = split_at_spaces(chars_of(tokens[tokens_idx].as_str()).as_slice());
        proof {
            assert(toks[tokens_idx as int] == tokens@[tokens_idx as int]@);
            lemma_next_letter(toks, tokens_idx as int, ltr_idx as int);
        }
        assert(texts(cur@) == letters(toks, tokens_idx as int));
        assert(cur@.len() == texts(cur@).len());
        let ltr = &cur[ltr_idx];
        assert(texts(cur@)[ltr_idx as int] == ltr@);
        if same_text(seg.label.as_str(), blank) {
            assert(span_error(toks, labs, blank@, seg_idx as int) is None);
            seg_idx += 1;
            continue;
        }
        if !same_text(seg.label.as_str(), ltr.as_str()) {
            let e = SpanError::Mismatch { got: seg.label.clone(), expected: ltr.clone() };
            assert(span_error(toks, labs, blank@, seg_idx as int) == Some(e@));
            return Err(e);
        }
        assert(span_error(toks, labs, blank@, seg_idx as int) is None);
        let ghost at = spoken(labs, blank@, n);
        let ghost k = spoken(labs, blank@, seg_idx as int).len() as int;
        proof {
            lemma_spoken_prefix(labs, blank@, seg_idx + 1, n);
            assert(spoken(labs, blank@, seg_idx + 1)[k] == seg_idx);
            assert(at[k] == seg_idx);
        }
        if ltr_idx == 0 {
            start = seg_idx;
        }
        if ltr_idx == cur.len() - 1 {
            ltr_idx = 0;
            tokens_idx += 1;
            intervals.push((start, seg_idx));
            proof {
                let j = tokens_idx - 1;
                assert(expected(toks, j + 1).len() == k + 1);
                let from = expected(toks, j).len() as int;
                assert(at[from] == start);
                assert(0 <= at[from] <= at[k]);
                assert(covered(toks, labs, blank@, j + 1));
            }
            while tokens_idx < tokens.len() && tokens[tokens_idx].as_str().is_empty()
                invariant
                    1 <= tokens_idx <= tokens@.len(),
                    toks == texts(tokens@),
                    labs == labels(segments@),
                    n == segments@.len(),
                    seg_idx < n,
                    at == spoken(labs, blank@, n),
                    0 <= k < at.len(),
                    at[k] == seg_idx,
                    expected(toks, tokens_idx as int).len() == k + 1,
                    intervals@.len() == tokens_idx,
                    forall|j: int|
                        0 <= j < tokens_idx ==> found(toks, labs, blank@, j, #[trigger] intervals@[j]),
                decreases tokens@.len() - tokens_idx,
            {
                assert(toks[tokens_idx as int] == tokens@[tokens_idx as int]@);
                intervals.push((seg_idx, seg_idx));
                tokens_idx += 1;
                assert(expected(toks, tokens_idx as int) =~= expected(toks, tokens_idx - 1));
            }
            proof {
                if tokens_idx < toks.len() {
                    assert(toks[tokens_idx as int] == tokens@[tokens_idx as int]@);
                    lemma_token_has_letter(toks, tokens_idx as int);
                }
            }
        } else {
            ltr_idx += 1;
        }
        seg_idx += 1;
    }
    proof {
        if tokens_idx < toks.len() {
            assert(!covered(toks, labs, blank@, tokens_idx + 1));
        }
    }
    let mut spans: Vec<Vec<Segment>> = Vec::new();
    let mut i: usize = 0;
    while i < intervals.len()
        invariant
            i <= intervals@.len(),
            intervals@.len() == tokens_idx,
            toks == texts(tokens@),
            labs == labels(segments@),
            n == segments@.len(),
            forall|j: int|
                0 <= j < tokens_idx ==> found(toks, labs, blank@, j, #[trigger] intervals@[j]),
            spans@.len() == i,
            forall|j: int|
                0 <= j < i ==> is_span(#[trigger] spans@[j]@, toks, segments@, blank@, j),
        decreases intervals@.len() - i,
    {
        let (from, to) = intervals[i];
        assert(found(toks, labs, blank@, i as int, intervals@[i as int]));
        let span = copy_segments(segments, from, to);
        spans.push(span);
        i += 1;
    }
    Ok(spans)
}

/// Copies the segments from `from` to `to`, both included.
fn copy_segments(segments: &[Segment], from: usize, to: usize) -> (r: Vec<Segment>)
    requires
        from <= to < segments@.len(),
    ensures
        r@ == segments@.subrange(from as int, to + 1),
{
    let mut r: Vec<Segment> = Vec::new();
    let mut i: usize = from;
    assert(segments@.len() == segments.len());
    while i <= to
        invariant
            from <= i <= to + 1,
            to < segments@.len(),
            segments@.len() <= usize::MAX,
            r@ == segments@.subrange(from as int, i as int),
        decreases to + 1 - i,
    {
        r.push(segments[i].clone());
        i += 1;
        assert(r@ =~= segments@.subrange(from as int, i as int));
    }
    r
}

/// A piece of text and the frames that it takes.
#[derive(Debug)]
pub struct FrameItem {
    /// The first frame of the piece.
    pub start_frame: usize,
    /// The first frame after the piece.
    pub end_frame: usize,
    pub text: String,
}

/// The contents of a [`FrameItem`].
pub struct FrameItemView {
    pub start_frame: int,
    pub end_frame: int,
    pub text: Seq<char>,
}

impl View for FrameItem {
    type V = FrameItemView;

    open spec fn view(&self) -> FrameItemView {
        FrameItemView {
            start_frame: self.start_frame as int,
            end_frame: self.end_frame as int,
            text: self.text@,
        }
    }
}

/// The piece of text that belongs to span `i`; a span past the pieces has an
/// empty one.
pub open spec fn piece(pieces: Seq<Seq<char>>, i: int) -> Seq<char> {
    if i < pieces.len() {
        pieces[i]
    } else {
        Seq::empty()
    }
}

/// The items of the first `n` spans: one for each span that holds a segment
/// and whose piece is not the star.  The last frame of a span belongs to it.
pub open spec fn items_of(
    pieces: Seq<Seq<char>>,
    spans: Seq<Vec<Segment>>,
    n: int,
) -> Seq<FrameItemView>
    decreases n,
{
    if n <= 0 {
        Seq::empty()
    } else {
        let before = items_of(pieces, spans, n - 1);
        let span = spans[n - 1]@;
        if span.len() == 0 || piece(pieces, n - 1) == STAR@ {
            before
        } else {
            before.push(
                FrameItemView {
                    start_frame: span[0].start as int,
                    end_frame: span.last().end + 1,
                    text: piece(pieces, n - 1),
                },
            )
        }
    }
}

/// The contents of a list of items.
pub open spec fn item_views(items: Seq<FrameItem>) -> Seq<FrameItemView> {
    Seq::new(items.len(), |i: int| items[i]@)
}

/// Converts spans to items: the frames of each piece of text, stars left out.
pub fn spans_to_items(text_pieces: &[String], spans: &[Vec<Segment>]) -> (items: Vec<FrameItem>)
    requires
        forall|i: int|
            0 <= i < spans@.len() && (#[trigger] spans@[i])@.len() > 0 ==> spans@[i]@.last().end
                < usize::MAX,
    ensures
        item_views(items@) == items_of(texts(text_pieces@), spans@, spans@.len() as int),
{
    let mut items: Vec<FrameItem> = Vec::new();
    let mut i: usize = 0;
    assert(item_views(items@) =~= Seq::<FrameItemView>::empty());
    while i < spans.len()
        invariant
            i <= spans@.len(),
            forall|k: int|
                0 <= k < spans@.len() && (#[trigger] spans@[k])@.len() > 0
                    ==> spans@[k]@.last().end < usize::MAX,
            item_views(items@) == items_of(texts(text_pieces@), spans@, i as int),
        decreases spans@.len() - i,
    {
        let span = &spans[i];
        let text = if i < text_pieces.len() {
            text_pieces[i].clone()
        } else {
            String::new()
        };
        assert(text@ == piece(texts(text_pieces@), i as int));
        if span.len() > 0 && !same_text(text.as_str(), STAR) {
            let start_frame = span[0].start;
            let last = &span[span.len() - 1];
            assert(*last == spans@[i as int]@.last());
            let ghost items0 = items@;
            items.push(FrameItem { start_frame, end_frame: last.end + 1, text });
            assert(item_views(items@) =~= item_views(items0).push(items@.last()@));
        }
        i += 1;
    }
    items
}

/// The runs of a path: they follow each other from the first frame to the last
/// without a gap, each holds one token throughout, and the token changes from one
/// to the next.
pub proof fn law_runs_are_maximal(path: Seq<usize>)
    ensures
        path.len() == 0 ==> runs(path).len() == 0,
        path.len() > 0 ==> runs(path).len() > 0 && runs(path)[0].0 == 0 && runs(path)[runs(
            path,
        ).len() - 1].1 == path.len() - 1,
        forall|k: int|
            0 <= k < runs(path).len() ==> 0 <= (#[trigger] runs(path)[k]).0 <= runs(path)[k].1
                < path.len(),
        forall|k: int, m: int|
            0 <= k < runs(path).len() && (#[trigger] runs(path)[k]).0 <= m <= runs(path)[k].1
                ==> #[trigger] path[m] == path[runs(path)[k].0],
        forall|k: int|
            1 <= k < runs(path).len() ==> (#[trigger] runs(path)[k]).0 == runs(path)[k - 1].1 + 1
                && path[runs(path)[k].0] != path[runs(path)[k].0 - 1],
{
    if path.len() > 0 {
        law_runs_partition(path);
        let rs = runs(path);
        assert(is_run(path, rs, 0));
        assert(is_run(path, rs, rs.len() - 1));
        assert forall|k: int| 0 <= k < rs.len() implies 0 <= (#[trigger] rs[k]).0 <= rs[k].1
            < path.len() by {
            assert(is_run(path, rs, k));
        }
        assert forall|k: int, m: int|
            0 <= k < rs.len() && (#[trigger] rs[k]).0 <= m <= rs[k].1 implies #[trigger] path[m]
            == path[rs[k].0] by {
            assert(is_run(path, rs, k));
        }
        assert forall|k: int| 1 <= k < rs.len() implies (#[trigger] rs[k]).0 == rs[k - 1].1 + 1
            && path[rs[k].0] != path[rs[k].0 - 1] by {
            assert(is_run(path, rs, k));
            assert(is_run(path, rs, k - 1));
            assert(path[rs[k - 1].1] == path[rs[k - 1].0]);
        }
    }
}

/// A token is called by the vocabulary's name for it, or else by its number.
pub proof fn law_token_names(names: Map<usize, String>, v: usize)
    ensures
        names.contains_key(v) ==> token_name(names, v) == names[v]@,
        !names.contains_key(v) ==> token_name(names, v).len() > 3 && token_name(names, v).take(3)
            == "id="@ && digits_value(token_name(names, v).skip(3)) == Some(v as nat),
{
    if !names.contains_key(v) {
        reveal_strlit("id=");
        law_numeral_round_trip(v as nat);
        assert(token_name(names, v).take(3) =~= "id="@);
        assert(token_name(names, v).skip(3) =~= numeral(v as nat));
    }
}

/// The segments of a path, told by the path alone: each is a longest stretch of
/// one token, under that token's name; together they are the whole path, in order.
pub proof fn law_segments_are_stretches(
    segments: Seq<Segment>,
    path: Seq<usize>,
    names: Map<usize, String>,
)
    requires
        are_segments(segments, path, names),
    ensures
        path.len() > 0 <==> segments.len() > 0,
        path.len() > 0 ==> segments[0].start == 0 && segments[segments.len() - 1].end
            == path.len() - 1,
        forall|k: int|
            0 <= k < segments.len() ==> (#[trigger] segments[k]).start <= segments[k].end
                < path.len() && segments[k].label@ == token_name(
                names,
                path[segments[k].start as int],
            ),
        forall|k: int, m: int|
            0 <= k < segments.len() && (#[trigger] segments[k]).start <= m <= segments[k].end
                ==> #[trigger] path[m] == path[segments[k].start as int],
        forall|k: int|
            1 <= k < segments.len() ==> (#[trigger] segments[k]).start == segments[k - 1].end + 1
                && path[segments[k].start as int] != path[segments[k].start - 1],
{
    law_runs_are_maximal(path);
    let rs = runs(path);
    if path.len() > 0 {
        assert(segments[0].start == rs[0].0);
        assert(segments[segments.len() - 1].end == rs[rs.len() - 1].1);
    }
    assert forall|k: int| 0 <= k < segments.len() implies (#[trigger] segments[k]).start
        <= segments[k].end < path.len() && segments[k].label@ == token_name(
        names,
        path[segments[k].start as int],
    ) by {
        assert(0 <= rs[k].0 <= rs[k].1 < path.len());
    }
    assert forall|k: int, m: int|
        0 <= k < segments.len() && (#[trigger] segments[k]).start <= m
            <= segments[k].end implies #[trigger] path[m] == path[segments[k].start as int] by {
        assert(rs[k].0 <= m <= rs[k].1);
    }
    assert forall|k: int| 1 <= k < segments.len() implies (#[trigger] segments[k]).start
        == segments[k - 1].end + 1 && path[segments[k].start as int] != path[segments[k].start
        - 1] by {
        assert(rs[k].0 == rs[k - 1].1 + 1);
        assert(segments[k - 1].end == rs[k - 1].1);
    }
}

/// The positions of the labels that are not blank: all of them, in order.
pub proof fn law_spoken_are_not_blank(labels: Seq<Seq<char>>, blank: Seq<char>, n: int)
    requires
        0 <= n <= labels.len(),
    ensures
        forall|i: int|
            0 <= i < spoken(labels, blank, n).len() ==> 0 <= #[trigger] spoken(labels, blank, n)[i]
                < n && labels[spoken(labels, blank, n)[i]] != blank,
        forall|i: int, j: int|
            0 <= i < j < spoken(labels, blank, n).len() ==> #[trigger] spoken(labels, blank, n)[i]
                < #[trigger] spoken(labels, blank, n)[j],
        forall|k: int|
            0 <= k < n && #[trigger] labels[k] != blank ==> spoken(labels, blank, n).contains(k),
    decreases n,
{
    lemma_spoken_prefix(labels, blank, n, n);
    if n > 0 {
        law_spoken_are_not_blank(labels, blank, n - 1);
        let before = spoken(labels, blank, n - 1);
        let now = spoken(labels, blank, n);
        assert forall|k: int| 0 <= k < n && #[trigger] labels[k] != blank implies now.contains(
            k,
        ) by {
            if k < n - 1 {
                let i = choose|i: int| 0 <= i < before.len() && before[i] == k;
                assert(now[i] == k);
            } else {
                assert(now[now.len() - 1] == n - 1);
            }
        }
    }
}

/// The letters that tokens wait for: those of each token after those of the ones
/// before it.  A token's letters are what stands between its spaces; an empty
/// token has none, unless it is the first.
pub proof fn law_letters_in_turn(tokens: Seq<Seq<char>>, j: int)
    requires
        0 <= j < tokens.len(),
    ensures
        expected(tokens, 0).len() == 0,
        j > 0 && tokens[j].len() == 0 ==> expected(tokens, j + 1) == expected(tokens, j),
        j == 0 || tokens[j].len() > 0 ==> expected(tokens, j + 1) == expected(tokens, j)
            + split_spaces(tokens[j]),
{
    if j > 0 && tokens[j].len() == 0 {
        assert(expected(tokens, j) + Seq::<Seq<char>>::empty() =~= expected(tokens, j));
    }
}

/// One item for each span that holds a segment and whose text is no star, in the
/// order of the spans: from the first frame of its first segment to the last frame
/// of its last.
pub proof fn law_items_of_spans(pieces: Seq<Seq<char>>, spans: Seq<Vec<Segment>>, n: int) -> (js:
    Seq<int>)
    requires
        0 <= n <= spans.len(),
    ensures
        js.len() == items_of(pieces, spans, n).len(),
        forall|k: int|
            0 <= k < js.len() ==> {
                let j = #[trigger] js[k];
                let item = items_of(pieces, spans, n)[k];
                let text = if j < pieces.len() {
                    pieces[j]
                } else {
                    Seq::<char>::empty()
                };
                &&& 0 <= j < n
                &&& spans[j]@.len() > 0
                &&& text != "<star>"@
                &&& item.text == text
                &&& item.start_frame == spans[j]@[0].start
                &&& item.end_frame == spans[j]@[spans[j]@.len() - 1].end + 1
            },
        forall|a: int, b: int| 0 <= a < b < js.len() ==> #[trigger] js[a] < #[trigger] js[b],
        forall|j: int|
            0 <= j < n && (#[trigger] spans[j])@.len() > 0 && (j < pieces.len() ==> pieces[j]
                != "<star>"@) ==> js.contains(j),
    decreases n,
{
    reveal_strlit("<star>");
    assert("<star>"@.len() == 6);
    if n <= 0 {
        Seq::empty()
    } else {
        let before = law_items_of_spans(pieces, spans, n - 1);
        let span = spans[n - 1]@;
        let text = if n - 1 < pieces.len() {
            pieces[n - 1]
        } else {
            Seq::<char>::empty()
        };
        let js = if span.len() == 0 || text == "<star>"@ {
            before
        } else {
            before.push(n - 1)
        };
        assert forall|j: int|
            0 <= j < n && (#[trigger] spans[j])@.len() > 0 && (j < pieces.len() ==> pieces[j]
                != "<star>"@) implies js.contains(j) by {
            if j < n - 1 {
                assert(before.contains(j));
                let k = choose|k: int| 0 <= k < before.len() && before[k] == j;
                assert(js[k] == j);
            } else {
                assert(js[js.len() - 1] == n - 1);
            }
        }
        js
    }
}

} // verus!
