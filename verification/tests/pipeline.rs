use std::collections::HashMap;

use ctc_forced_aligner_rs::ctc::{forced_align, AlignError};
use ctc_forced_aligner_rs::inference::{
    align_tokens, find_blank, join_lines, prepare_text, text_key, time_pieces, AlignFailure,
};
use ctc_forced_aligner_rs::postprocess::{get_spans, merge_repeats, SpanError};
use ctc_forced_aligner_rs::text::{
    load_vocab, preprocess_text, tokens_to_indices, vocab_of_keys, TokenError, Vocab,
};
use ctc_forced_aligner_rs::windows::add_star_column;

fn strings(list: &[&str]) -> Vec<String> {
    list.iter().map(|s| s.to_string()).collect()
}

/// Emissions over `c` tokens that favour `path`.
fn favouring(path: &[usize], c: usize) -> Vec<i64> {
    let mut scores = Vec::new();
    for (k, &v) in path.iter().enumerate() {
        for j in 0..c {
            scores.push(if j == v { -1 } else { -1000 - (7 * k + j) as i64 });
        }
    }
    scores
}

fn vocabulary() -> Vocab {
    load_vocab("{\"<blank>\": 0, \"h\": 1, \"i\": 2, \"y\": 3, \"o\": 4, \"u\": 5}").unwrap()
}

#[test]
fn transcripts_on_one_line() {
    assert_eq!(join_lines(" a b \r\n\n\t c\n"), "a b c");
    assert_eq!(join_lines("one"), "one");
    assert_eq!(join_lines("\n \n"), "");
    assert_eq!(join_lines("a\rb\nc"), "a\rb c");
}

#[test]
fn keys_of_preprocessed_text() {
    assert_eq!(text_key("eng", "word", "edges", true), "eng|word|edges|true");
    assert_eq!(text_key("jpn", "char", "segment", false), "jpn|char|segment|false");
}

#[test]
fn the_blank_is_found() {
    assert_eq!(find_blank(&vocabulary(), Some(9)), 0);
    let vocab = vocab_of_keys(strings(&["a"]), &[1]);
    assert_eq!(find_blank(&vocab, Some(9)), 9);
    assert_eq!(find_blank(&vocab, None), 0);
}

#[test]
fn every_word_is_timed() {
    let vocab = vocabulary();
    let blank = find_blank(&vocab, None);
    let (tokens, pieces) = preprocess_text(&join_lines("Hi\n zoo"), "word", "none");
    assert_eq!(pieces, strings(&["Hi", "zoo"]));
    assert!(tokens_to_indices(&tokens, &vocab).is_err());
    let (tokens, pieces) = preprocess_text(&join_lines("Hi\n YOU"), "word", "edges");
    let targets = tokens_to_indices(&tokens, &vocab).unwrap();
    assert_eq!(targets, vec![6, 1, 2, 3, 4, 5, 6]);
    let path = [0, 6, 0, 1, 1, 2, 0, 0, 3, 4, 4, 5, 6, 0];
    // The star has a score of zero at every frame; make the letters better.
    let letters = favouring(&path, 6);
    let scores: Vec<i64> = letters.iter().map(|s| if *s == -1 { 1 } else { *s }).collect();
    let emissions = add_star_column(&scores, path.len(), 6, 0);
    let alignment =
        align_tokens(&emissions, path.len(), 7, &tokens, &pieces, &targets, &vocab, blank).unwrap();
    assert_eq!(alignment.path, path.to_vec());
    assert_eq!(alignment.scores.len(), path.len());
    assert_eq!(alignment.items.len(), 2);
    let hi = &alignment.items[0];
    assert_eq!((hi.start_frame, hi.end_frame, hi.text.as_str()), (3, 6, "Hi"));
    let you = &alignment.items[1];
    assert_eq!((you.start_frame, you.end_frame, you.text.as_str()), (8, 12, "YOU"));
}

#[test]
fn pieces_come_in_order_within_the_audio() {
    let vocab = vocabulary();
    let (tokens, pieces) = preprocess_text("hi you hi", "word", "none");
    let targets = tokens_to_indices(&tokens, &vocab).unwrap();
    let path = [1, 2, 2, 0, 3, 4, 5, 5, 1, 0, 2];
    let emissions = favouring(&path, 6);
    let alignment =
        align_tokens(&emissions, path.len(), 6, &tokens, &pieces, &targets, &vocab, 0).unwrap();
    let mut end = 0;
    for item in &alignment.items {
        assert!(end <= item.start_frame);
        assert!(item.start_frame < item.end_frame);
        end = item.end_frame;
    }
    assert!(end <= path.len());
    let texts: Vec<&str> = alignment.items.iter().map(|i| i.text.as_str()).collect();
    assert_eq!(texts, vec!["hi", "you", "hi"]);
    // The frames of each piece that are not blank spell it.
    let letters = ["", "h", "i", "y", "o", "u"];
    for item in &alignment.items {
        let mut spelled = String::new();
        for k in item.start_frame..item.end_frame {
            if k == item.start_frame || path[k] != path[k - 1] {
                spelled.push_str(letters[path[k]]);
            }
        }
        assert_eq!(spelled, item.text);
    }
}

#[test]
fn refused_alignments_say_why() {
    let vocab = vocabulary();
    let tokens = strings(&["h i"]);
    let r = align_tokens(&favouring(&[1], 6), 1, 6, &tokens, &tokens, &[1, 2], &vocab, 0);
    assert!(matches!(
        r,
        Err(AlignFailure::Align { error: AlignError::TargetsTooLong { t: 1, l: 2, repeats: 0 } })
    ));
    // Targets that are not the letters of the tokens.
    let r = align_tokens(&favouring(&[1, 3], 6), 2, 6, &tokens, &tokens, &[1, 3], &vocab, 0);
    match r {
        Err(AlignFailure::Spans { mismatch: SpanError::Mismatch { got, expected } }) => {
            assert_eq!(got, "y");
            assert_eq!(expected, "i");
        }
        other => panic!("{other:?}"),
    }
}

#[test]
fn a_path_is_told_under_its_names() {
    let mut names = HashMap::new();
    names.insert(0, "-".to_string());
    names.insert(1, "a".to_string());
    names.insert(2, "b".to_string());
    let tokens = strings(&["a", "b"]);
    let pieces = strings(&["A", "<star>"]);
    let told = time_pieces(vec![0, 1, 1, 0, 2], vec![9; 5], &tokens, &pieces, &names, "-").unwrap();
    assert_eq!(told.path, vec![0, 1, 1, 0, 2]);
    assert_eq!(told.scores, vec![9; 5]);
    assert_eq!(told.items.len(), 1);
    assert_eq!((told.items[0].start_frame, told.items[0].end_frame), (1, 3));
    assert_eq!(told.items[0].text, "A");
    // An id without a name is no letter.
    let r = time_pieces(vec![7], vec![9], &tokens, &pieces, &names, "-");
    match r {
        Err(AlignFailure::Spans { mismatch: SpanError::Mismatch { got, .. } }) => {
            assert_eq!(got, "id=7")
        }
        other => panic!("{other:?}"),
    }
    // Tokens that the path does not reach are left out.
    let told = time_pieces(vec![1], vec![9], &tokens, &pieces, &names, "-").unwrap();
    assert_eq!(told.items.len(), 1);
}

#[test]
fn the_texts_of_the_items_are_the_pieces() {
    let vocab = vocabulary();
    for frequency in ["none", "edges", "segment"] {
        let (tokens, pieces) = preprocess_text("Hi you hi", "word", frequency);
        let targets = tokens_to_indices(&tokens, &vocab).unwrap();
        let t = 24;
        // All tokens alike at every frame: everything that can tie does.
        let emissions: Vec<i64> = vec![-1; t * 7];
        let alignment =
            align_tokens(&emissions, t, 7, &tokens, &pieces, &targets, &vocab, 0).unwrap();
        let texts: Vec<&str> = alignment.items.iter().map(|i| i.text.as_str()).collect();
        assert_eq!(texts, vec!["Hi", "you", "hi"], "{frequency}");
    }
}

#[test]
fn every_token_gets_a_span() {
    let vocab = vocabulary();
    let (tokens, _) = preprocess_text("hi you", "char", "segment");
    let targets = tokens_to_indices(&tokens, &vocab).unwrap();
    let t = 17;
    let emissions: Vec<i64> = vec![-2; t * 7];
    let (path, _) = forced_align(&emissions, t, 7, &targets, 0).unwrap();
    let segments = merge_repeats(&path, &vocab.names());
    let spans = get_spans(&tokens, &segments, "<blank>").unwrap();
    assert_eq!(spans.len(), tokens.len());
}

#[test]
fn transcripts_are_prepared() {
    let vocab = vocabulary();
    let (tokens, pieces, ids) = prepare_text(" Hi\n you", "eng", "auto", "edges", &vocab).unwrap();
    assert_eq!(tokens, strings(&["<star>", "h i", "y o u", "<star>"]));
    assert_eq!(pieces, strings(&["<star>", "Hi", "you", "<star>"]));
    assert_eq!(ids, vec![6, 1, 2, 3, 4, 5, 6]);
    let (tokens, pieces, ids) = prepare_text("hI", "jpn", "word", "segment", &vocab).unwrap();
    assert_eq!(tokens, strings(&["<star>", "h", "<star>", "i"]));
    assert_eq!(pieces, strings(&["<star>", "h", "<star>", "I"]));
    assert_eq!(ids, vec![6, 1, 6, 2]);
    match prepare_text("hi zoo", "eng", "word", "none", &vocab) {
        Err(TokenError::NotInVocab { token }) => assert_eq!(token, "z"),
        other => panic!("{other:?}"),
    }
    assert!(matches!(
        prepare_text(" \n ", "eng", "word", "none", &vocab),
        Err(TokenError::NoTokens)
    ));
}

#[test]
fn tokens_without_letters_keep_the_order() {
    let mut names = HashMap::new();
    names.insert(0, "-".to_string());
    names.insert(1, "a".to_string());
    names.insert(2, "b".to_string());
    let tokens = strings(&["a b", "", "b"]);
    let pieces = strings(&["AB", "?", "B"]);
    let path = vec![0, 1, 2, 2, 0, 2, 2];
    let told = time_pieces(path, vec![0; 7], &tokens, &pieces, &names, "-").unwrap();
    let frames: Vec<(usize, usize)> =
        told.items.iter().map(|i| (i.start_frame, i.end_frame)).collect();
    assert_eq!(frames, vec![(1, 4), (2, 4), (5, 7)]);
}
