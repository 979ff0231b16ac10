use ctc_forced_aligner_rs::chars::{
    decimal, is_white, join_with_spaces, parse_number, split_at_spaces, split_words, to_ascii_lower,
    trim,
};
use ctc_forced_aligner_rs::text::{
    add_stars, build_vocab, load_vocab, lookup_keys, preprocess_text, spell,
    split_text_placeholder, tokens_to_indices, vocab_of_keys, TokenError, Vocab, VocabError,
};

fn strings(list: &[&str]) -> Vec<String> {
    list.iter().map(|s| s.to_string()).collect()
}

fn chars(s: &str) -> Vec<char> {
    s.chars().collect()
}

#[test]
fn white_space_is_that_of_unicode() {
    for v in 0..=0x10FFFFu32 {
        if let Some(c) = char::from_u32(v) {
            assert_eq!(is_white(c), c.is_whitespace(), "{v:#x}");
        }
    }
}

#[test]
fn splitting_and_joining() {
    assert_eq!(split_at_spaces(&chars("a  b ")), strings(&["a", "", "b", ""]));
    assert_eq!(split_at_spaces(&chars("")), strings(&[""]));
    assert_eq!(split_words(&chars(" a\tb \n c")), strings(&["a", "b", "c"]));
    assert_eq!(trim(&chars("\u{3000} x y\n")), chars("x y"));
    assert_eq!(trim(&chars(" \t ")), chars(""));
    assert_eq!(join_with_spaces(&strings(&["a", "", "b"])), "a  b");
    assert_eq!(to_ascii_lower(&chars("CUDA:É")), chars("cuda:É"));
}

#[test]
fn numerals() {
    assert_eq!(decimal(0), "0");
    assert_eq!(decimal(120), "120");
    assert_eq!(decimal(usize::MAX), usize::MAX.to_string());
    assert_eq!(parse_number(&chars("007")), Some(7));
    assert_eq!(parse_number(&chars("+3")), Some(3));
    assert_eq!(parse_number(&chars("")), None);
    assert_eq!(parse_number(&chars("+")), None);
    assert_eq!(parse_number(&chars("1x")), None);
    assert_eq!(parse_number(&chars("99999999999999999999999")), None);
}

#[test]
fn vocabulary_in_lowercase_with_star() {
    let vocab = load_vocab("{\"<blank>\": 0, \"A\": 1, \"É\": 2}").unwrap();
    assert_eq!(vocab.len(), 4);
    assert_eq!(vocab.get("<blank>"), Some(0));
    assert_eq!(vocab.get("a"), Some(1));
    assert_eq!(vocab.get("é"), Some(2));
    assert_eq!(vocab.get("A"), None);
    assert_eq!(vocab.get("<star>"), Some(3));
}

#[test]
fn vocabulary_must_be_an_object_of_ids() {
    for text in ["", "[1]", "{\"a\": -1}", "{\"a\": \"b\"}", "{\"a\": 1"] {
        assert!(matches!(load_vocab(text), Err(VocabError::Parse { .. })), "{text}");
    }
}

#[test]
fn vocabulary_counts_lowered_tokens() {
    let vocab = build_vocab(&[("A".to_string(), 5), ("a".to_string(), 6)]);
    assert_eq!(vocab.len(), 2);
    assert_eq!(vocab.get("a"), Some(6));
    assert_eq!(vocab.get("<star>"), Some(1));
    let vocab = vocab_of_keys(strings(&["x", "y"]), &[4, 9]);
    assert_eq!(vocab.get("y"), Some(9));
    assert_eq!(vocab.get("<star>"), Some(2));
}

#[test]
fn names_invert_the_vocabulary() {
    let mut vocab = Vocab::new();
    vocab.insert("a".to_string(), 1);
    vocab.insert("b".to_string(), 2);
    vocab.insert("a".to_string(), 3);
    let names = vocab.names();
    assert_eq!(names.len(), 2);
    assert_eq!(names[&2], "b");
    assert_eq!(names[&3], "a");
    vocab.insert("c".to_string(), 2);
    let names = vocab.names();
    assert!(names[&2] == "b" || names[&2] == "c");
}

#[test]
fn tokens_become_ids() {
    let vocab = load_vocab("{\"<blank>\": 0, \"h\": 1, \"i\": 2}").unwrap();
    let tokens = strings(&["<star>", "H i", "", "i"]);
    assert_eq!(tokens_to_indices(&tokens, &vocab).unwrap(), vec![3, 1, 2, 2]);
}

#[test]
fn missing_tokens_are_named_as_written() {
    let vocab = load_vocab("{\"h\": 1}").unwrap();
    match tokens_to_indices(&strings(&["h Q"]), &vocab) {
        Err(TokenError::NotInVocab { token }) => assert_eq!(token, "Q"),
        other => panic!("{other:?}"),
    }
    assert!(matches!(tokens_to_indices(&[], &vocab), Err(TokenError::NoTokens)));
    assert!(matches!(tokens_to_indices(&strings(&["", " "]), &vocab), Err(TokenError::NoTokens)));
}

#[test]
fn keys_are_looked_up_in_order() {
    let vocab = vocab_of_keys(strings(&["x"]), &[7]);
    let parts = strings(&["X", "Z"]);
    assert_eq!(lookup_keys(&parts[..1], &strings(&["x"]), &vocab).unwrap(), vec![7]);
    match lookup_keys(&parts, &strings(&["x", "z"]), &vocab) {
        Err(TokenError::NotInVocab { token }) => assert_eq!(token, "Z"),
        other => panic!("{other:?}"),
    }
}

#[test]
fn transcripts_are_split() {
    assert_eq!(split_text_placeholder("  all right, then ", "word"), strings(&["all", "right,", "then"]));
    assert_eq!(split_text_placeholder("你 好\n吗", "char"), strings(&["你", "好", "吗"]));
    assert_eq!(split_text_placeholder(" \n ", "char"), Vec::<String>::new());
    assert_eq!(split_text_placeholder("", "word"), Vec::<String>::new());
    assert_eq!(split_text_placeholder("a b", "other"), strings(&["a", "b"]));
}

#[test]
fn words_are_spelled() {
    assert_eq!(spell("abc"), "a b c");
    assert_eq!(spell("a"), "a");
    assert_eq!(spell(""), "");
    // A spelled word splits into its characters.
    assert_eq!(split_at_spaces(&chars(&spell("you"))), strings(&["y", "o", "u"]));
}

#[test]
fn stars_by_frequency() {
    let list = strings(&["a", "b"]);
    assert_eq!(add_stars(list.clone(), "edges"), strings(&["<star>", "a", "b", "<star>"]));
    assert_eq!(add_stars(list.clone(), "segment"), strings(&["<star>", "a", "<star>", "b"]));
    assert_eq!(add_stars(list.clone(), "none"), list);
    assert_eq!(add_stars(Vec::new(), "edges"), strings(&["<star>", "<star>"]));
}

#[test]
fn tokens_stand_beside_their_pieces() {
    let (tokens, pieces) = preprocess_text(" Hi YOU ", "word", "edges");
    assert_eq!(tokens, strings(&["<star>", "h i", "y o u", "<star>"]));
    assert_eq!(pieces, strings(&["<star>", "Hi", "YOU", "<star>"]));
    let (tokens, pieces) = preprocess_text("Ab", "char", "segment");
    assert_eq!(tokens, strings(&["<star>", "a", "<star>", "b"]));
    assert_eq!(pieces, strings(&["<star>", "A", "<star>", "b"]));
}
