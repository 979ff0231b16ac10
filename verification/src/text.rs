//! Vocabulary, tokens and the splitting of transcripts.

use std::collections::HashMap;

use vstd::hash_map::StringHashMap;
use vstd::prelude::*;
use vstd::seq_lib::seq_to_set_is_finite;

use crate::chars::{
    are_bounds, chars_of, is_white, join_with_spaces, joined, law_trimmed_is_the_middle,
    law_words_are_the_stretches, non_empty, same_text, split_at_spaces, split_spaces, split_words,
    texts, trim, trimmed, white, words,
};
use crate::guarantees::{lemma_non_empty_of_sum, lemma_split_at_join};

verus! {

broadcast use vstd::std_specs::hash::group_hash_axioms;

/// The lowercase equivalent of a text, as Unicode defines it.
pub uninterp spec fn lowercase(s: Seq<char>) -> Seq<char>;

/// `str::to_lowercase`: the result is a function of the text alone.
#[verifier::external_body]
fn to_lowercase(s: &str) -> (r: String)
    ensures
        r@ == lowercase(s@),
{
    s.to_lowercase()
}

/// The token that stands for any sound.
pub const STAR: &'static str = "<star>";

/// The contents of a list of token and id pairs, later pairs over earlier.
pub open spec fn entries_map(entries: Seq<(String, usize)>) -> Map<Seq<char>, usize>
    decreases entries.len(),
{
    if entries.len() == 0 {
        Map::empty()
    } else {
        entries_map(entries.drop_last()).insert(entries.last().0@, entries.last().1)
    }
}

/// Whether no token occurs twice.
pub open spec fn distinct_tokens(entries: Seq<(String, usize)>) -> bool {
    forall|i: int, j: int|
        0 <= i < j < entries.len() ==> (#[trigger] entries[i]).0@ != (#[trigger] entries[j]).0@
}

/// A vocabulary: the id of each token.
pub struct Vocab {
    ids: StringHashMap<usize>,
    /// The tokens, each once.
    tokens: Vec<String>,
}

impl View for Vocab {
    type V = Map<Seq<char>, usize>;

    closed spec fn view(&self) -> Map<Seq<char>, usize> {
        self.ids@
    }
}

/// Whether a list holds each key of a map once, and nothing else.
spec fn lists_keys(tokens: Seq<Seq<char>>, ids: Map<Seq<char>, usize>) -> bool {
    &&& tokens.no_duplicates()
    &&& forall|k: Seq<char>| #[trigger] ids.contains_key(k) <==> tokens.contains(k)
}

impl Vocab {
    #[verifier::type_invariant]
    spec fn wf(self) -> bool {
        lists_keys(texts(self.tokens@), self.ids@)
    }

    /// The vocabulary without tokens.
    pub fn new() -> (r: Self)
        ensures
            r@ == Map::<Seq<char>, usize>::empty(),
    {
        Vocab { ids: StringHashMap::new(), tokens: Vec::new() }
    }

    /// The number of tokens.
    pub fn len(&self) -> (r: usize)
        ensures
            self@.dom().finite(),
            r == self@.len(),
    {
        proof {
            use_type_invariant(self);
            let list = texts(self.tokens@);
            seq_to_set_is_finite(list);
            assert(self@.dom() =~= list.to_set()) by {
                assert forall|k: Seq<char>| self@.dom().contains(k) <==> list.to_set().contains(k) by {
                    assert(self.ids@.contains_key(k) <==> list.contains(k));
                }
            }
        }
        self.ids.len()
    }

    /// The id of a token.
    pub fn get(&self, token: &str) -> (r: Option<usize>)
        ensures
            r == (if self@.contains_key(token@) {
                Some(self@[token@])
            } else {
                None
            }),
    {
        match self.ids.get(token) {
            Some(id) => Some(*id),
            None => None,
        }
    }

    /// Gives a token an id, in place of the one it had.
    pub fn insert(&mut self, token: String, id: usize)
        ensures
            final(self)@ == old(self)@.insert(token@, id),
    {
        proof {
            use_type_invariant(&*self);
        }
        let mut whole = Vocab::new();
        std::mem::swap(self, &mut whole);
        let Vocab { ids, tokens } = whole;
        let mut ids = ids;
        let mut tokens = tokens;
        let ghost before = texts(tokens@);
        let ghost known = ids@;
        let ghost key = token@;
        if !ids.contains_key(token.as_str()) {
            tokens.push(token.clone());
        }
        ids.insert(token, id);
        proof {
            let after = texts(tokens@);
            if !known.contains_key(key) {
                assert(after =~= before.push(key));
                assert(after.last() == key);
            }
            assert forall|k: Seq<char>| #[trigger] ids@.contains_key(k) <==> after.contains(k) by {
                assert(known.contains_key(k) <==> before.contains(k));
                if before.contains(k) {
                    let i = choose|i: int| 0 <= i < before.len() && before[i] == k;
                    assert(after[i] == k);
                }
                if after.contains(k) && k != key {
                    let i = choose|i: int| 0 <= i < after.len() && after[i] == k;
                    assert(before[i] == k);
                }
            }
        }
        *self = Vocab { ids, tokens };
    }

    /// The token of each id.  Where two tokens have one id, either may stand
    /// for it.
    pub fn names(&self) -> (r: HashMap<usize, String>)
        ensures
            are_names(r@, self@),
    {
        proof {
            use_type_invariant(self);
        }
        let ghost list = texts(self.tokens@);
        let mut r: HashMap<usize, String> = HashMap::new();
        let mut i: usize = 0;
        while i < self.tokens.len()
            invariant
                i <= self.tokens@.len(),
                list == texts(self.tokens@),
                lists_keys(list, self@),
                forall|v: usize| #[trigger]
                    r@.contains_key(v) ==> self@.contains_key(r@[v]@) && self@[r@[v]@] == v,
                forall|k: int| 0 <= k < i ==> r@.contains_key(self@[#[trigger] list[k]]),
            decreases self.tokens@.len() - i,
        {
            let token = self.tokens[i].clone();
            assert(list.contains(list[i as int]));
            assert(self@.contains_key(token@));
            if let Some(id) = self.get(token.as_str()) {
                r.insert(id, token);
            }
            i += 1;
        }
        proof {
            assert forall|token: Seq<char>| #[trigger] self@.contains_key(token) implies r@.contains_key(
                self@[token],
            ) by {
                let k = choose|k: int| 0 <= k < list.len() && list[k] == token;
                assert(r@.contains_key(self@[list[k]]));
            }
        }
        r
    }
}

/// Whether `names` gives, for each id of a vocabulary, a token with that id,
/// and nothing else.
pub open spec fn are_names(names: Map<usize, String>, vocab: Map<Seq<char>, usize>) -> bool {
    &&& forall|v: usize| #[trigger]
        names.contains_key(v) ==> vocab.contains_key(names[v]@) && vocab[names[v]@] == v
    &&& forall|token: Seq<char>| #[trigger]
        vocab.contains_key(token) ==> names.contains_key(vocab[token])
}

/// The error of the JSON parser.
#[verifier::external_type_specification]
#[verifier::external_body]
pub struct ExJsonError(serde_json::Error);

/// The object of token ids that a JSON text holds, if it holds one.
pub uninterp spec fn json_vocab(text: Seq<char>) -> Option<Map<Seq<char>, usize>>;

/// `serde_json::from_str` at the type of a map from strings to `usize`: whether
/// it succeeds, and the pairs it finds, are functions of the text alone.  Each
/// token comes once; the order of the pairs is left open.
#[verifier::external_body]
fn parse_json_vocab(text: &str) -> (r: Result<Vec<(String, usize)>, serde_json::Error>)
    ensures
        match r {
            Ok(entries) => distinct_tokens(entries@) && json_vocab(text@) == Some(
                entries_map(entries@),
            ),
            Err(_) => json_vocab(text@) is None,
        },
{
    let map: HashMap<String, usize> = serde_json::from_str(text)?;
    Ok(map.into_iter().collect())
}

/// Why a vocabulary cannot be loaded.
#[derive(Debug)]
pub enum VocabError {
    /// The text is not a JSON object of ids.
    Parse { cause: serde_json::Error },
}

/// The tokens of a list of pairs in lowercase, later pairs over earlier.
pub open spec fn lowered(entries: Seq<(String, usize)>) -> Map<Seq<char>, usize>
    decreases entries.len(),
{
    if entries.len() == 0 {
        Map::empty()
    } else {
        lowered(entries.drop_last()).insert(lowercase(entries.last().0@), entries.last().1)
    }
}

/// The same, for keys that were put in lowercase beforehand.
pub open spec fn keyed(keys: Seq<String>, ids: Seq<usize>) -> Map<Seq<char>, usize>
    decreases keys.len(),
{
    if keys.len() == 0 {
        Map::empty()
    } else {
        keyed(keys.drop_last(), ids.drop_last()).insert(keys.last()@, ids.last())
    }
}

/// A vocabulary with the star token added, under the first id past the count.
pub open spec fn with_star(vocab: Map<Seq<char>, usize>) -> Map<Seq<char>, usize> {
    vocab.insert(STAR@, vocab.len() as usize)
}

/// The vocabulary of the given tokens and ids, with the star token.
pub fn vocab_of_keys(keys: Vec<String>, ids: &[usize]) -> (r: Vocab)
    requires
        keys@.len() == ids@.len(),
    ensures
        r@ == with_star(keyed(keys@, ids@)),
{
    let mut vocab = Vocab::new();
    let mut i: usize = 0;
    assert(keys@.take(0) =~= Seq::<String>::empty());
    while i < keys.len()
        invariant
            i <= keys@.len(),
            keys@.len() == ids@.len(),
            vocab@ == keyed(keys@.take(i as int), ids@.take(i as int)),
        decreases keys@.len() - i,
    {
        assert(keys@.take(i + 1).drop_last() =~= keys@.take(i as int));
        assert(ids@.take(i + 1).drop_last() =~= ids@.take(i as int));
        vocab.insert(keys[i].clone(), ids[i]);
        i += 1;
    }
    assert(keys@.take(i as int) =~= keys@);
    assert(ids@.take(i as int) =~= ids@);
    let star_id = vocab.len();
    vocab.insert(STAR.to_owned(), star_id);
    vocab
}

/// Keys in lowercase give the lowered vocabulary.
proof fn lemma_keyed_lowered(entries: Seq<(String, usize)>, keys: Seq<String>, ids: Seq<usize>)
    requires
        keys.len() == entries.len(),
        ids.len() == entries.len(),
        forall|i: int|
            0 <= i < entries.len() ==> (#[trigger] keys[i])@ == lowercase(entries[i].0@),
        forall|i: int| 0 <= i < entries.len() ==> #[trigger] ids[i] == entries[i].1,
    ensures
        keyed(keys, ids) == lowered(entries),
    decreases entries.len(),
{
    if entries.len() > 0 {
        lemma_keyed_lowered(entries.drop_last(), keys.drop_last(), ids.drop_last());
    }
}

/// The vocabulary of a list of pairs: tokens in lowercase, and the star token.
pub fn build_vocab(entries: &[(String, usize)]) -> (r: Vocab)
    ensures
        r@ == with_star(lowered(entries@)),
{
    let mut keys: Vec<String> = Vec::new();
    let mut ids: Vec<usize> = Vec::new();
    let mut i: usize = 0;
    while i < entries.len()
        invariant
            i <= entries@.len(),
            keys@.len() == i,
            ids@.len() == i,
            forall|k: int| 0 <= k < i ==> (#[trigger] keys@[k])@ == lowercase(entries@[k].0@),
            forall|k: int| 0 <= k < i ==> #[trigger] ids@[k] == entries@[k].1,
        decreases entries@.len() - i,
    {
        keys.push(to_lowercase(entries[i].0.as_str()));
        ids.push(entries[i].1);
        i += 1;
    }
    proof {
        lemma_keyed_lowered(entries@, keys@, ids@);
    }
    vocab_of_keys(keys, ids.as_slice())
}

/// Reads the text of a `vocab.json`: a map from tokens to ids, taken in
/// lowercase, to which the star token is added.
///
/// Where two tokens differ in case only, the one that comes later in the
/// parser's order gives the id.
pub fn load_vocab(text: &str) -> (r: Result<Vocab, VocabError>)
    ensures
        match r {
            Ok(vocab) => exists|entries: Seq<(String, usize)>|
                distinct_tokens(entries) && json_vocab(text@) == Some(
                    #[trigger] entries_map(entries),
                ) && vocab@ == with_star(lowered(entries)),
            Err(_) => json_vocab(text@) is None,
        },
{
    match parse_json_vocab(text) {
        Ok(entries) => Ok(build_vocab(entries.as_slice())),
        Err(cause) => Err(VocabError::Parse { cause }),
    }
}

/// Why tokens cannot be mapped to ids.
#[derive(Debug)]
pub enum TokenError {
    /// A token is not in the vocabulary.
    NotInVocab { token: String },
    /// There is no token.
    NoTokens,
}

/// The letters of a list of tokens: what stands between the spaces once they
/// are joined with spaces, empty parts left out.
pub open spec fn token_parts(tokens: Seq<Seq<char>>) -> Seq<Seq<char>> {
    non_empty(split_spaces(joined(tokens)))
}

/// Each text in lowercase.
pub open spec fn lowercased(parts: Seq<Seq<char>>) -> Seq<Seq<char>> {
    parts.map_values(|p: Seq<char>| lowercase(p))
}

/// What a lookup of `keys` gives, for the letters `parts` that they stand for:
/// the ids, or the first letter whose key is missing, or no letter at all.
pub open spec fn is_lookup(
    r: Result<Vec<usize>, TokenError>,
    parts: Seq<Seq<char>>,
    keys: Seq<Seq<char>>,
    vocab: Map<Seq<char>, usize>,
) -> bool {
    match r {
        Ok(ids) => {
            &&& parts.len() > 0
            &&& ids@.len() == parts.len()
            &&& forall|i: int|
                0 <= i < parts.len() ==> vocab.contains_key(keys[i]) && #[trigger] ids@[i]
                    == vocab[keys[i]]
        },
        Err(TokenError::NotInVocab { token }) => exists|i: int|
            0 <= i < parts.len() && token@ == #[trigger] parts[i] && !vocab.contains_key(keys[i])
                && (forall|k: int| 0 <= k < i ==> vocab.contains_key(#[trigger] keys[k])),
        Err(TokenError::NoTokens) => parts.len() == 0,
    }
}

/// Looks up the keys of letters.
pub fn lookup_keys(parts: &[String], keys: &[String], vocab: &Vocab) -> (r: Result<
    Vec<usize>,
    TokenError,
>)
    requires
        parts@.len() == keys@.len(),
    ensures
        is_lookup(r, texts(parts@), texts(keys@), vocab@),
{
    let mut ids: Vec<usize> = Vec::new();
    let mut i: usize = 0;
    while i < parts.len()
        invariant
            i <= parts@.len(),
            parts@.len() == keys@.len(),
            ids@.len() == i,
            forall|k: int| 0 <= k < i ==> vocab@.contains_key(#[trigger] texts(keys@)[k]),
            forall|k: int| 0 <= k < i ==> #[trigger] ids@[k] == vocab@[texts(keys@)[k]],
        decreases parts@.len() - i,
    {
        match vocab.get(keys[i].as_str()) {
            Some(id) => ids.push(id),
            None => {
                let token = parts[i].clone();
                assert(token@ == texts(parts@)[i as int]);
                return Err(TokenError::NotInVocab { token });
            },
        }
        assert(vocab@.contains_key(texts(keys@)[i as int]));
        i += 1;
    }
    if parts.len() == 0 {
        return Err(TokenError::NoTokens);
    }
    Ok(ids)
}

/// Maps tokens to the vocabulary ids of their letters, which stand between
/// spaces.
pub fn tokens_to_indices(tokens: &[String], vocab: &Vocab) -> (r: Result<Vec<usize>, TokenError>)
    ensures
        is_lookup(
            r,
            token_parts(texts(tokens@)),
            lowercased(token_parts(texts(tokens@))),
            vocab@,
        ),
{
    let joined = join_with_spaces(tokens);
    let all = split_at_spaces(chars_of(joined.as_str()).as_slice());
    let mut parts: Vec<String> = Vec::new();
    let mut keys: Vec<String> = Vec::new();
    let mut i: usize = 0;
    assert(texts(all@).take(0) =~= Seq::<Seq<char>>::empty());
    assert(texts(parts@) =~= Seq::<Seq<char>>::empty());
    while i < all.len()
        invariant
            i <= all@.len(),
            texts(parts@) == non_empty(texts(all@).take(i as int)),
            keys@.len() == parts@.len(),
            forall|k: int| 0 <= k < keys@.len() ==> (#[trigger] keys@[k])@ == lowercase(parts@[k]@),
        decreases all@.len() - i,
    {
        let ghost head = texts(all@).take(i + 1);
        assert(head.drop_last() =~= texts(all@).take(i as int));
        assert(head.last() == all@[i as int]@);
        if !all[i].as_str().is_empty() {
            let ghost parts0 = parts@;
            parts.push(all[i].clone());
            keys.push(to_lowercase(all[i].as_str()));
            assert(texts(parts@) =~= texts(parts0).push(all@[i as int]@));
        }
        i += 1;
    }
    assert(texts(all@).take(i as int) =~= texts(all@));
    assert(texts(keys@) =~= lowercased(texts(parts@)));
    lookup_keys(parts.as_slice(), keys.as_slice(), vocab)
}

/// Each character that is not white space, as a text of its own.
pub open spec fn visible_chars(s: Seq<char>) -> Seq<Seq<char>>
    decreases s.len(),
{
    if s.len() == 0 {
        Seq::empty()
    } else if white(s.last()) {
        visible_chars(s.drop_last())
    } else {
        visible_chars(s.drop_last()).push(seq![s.last()])
    }
}

/// The pieces of a transcript: its visible characters where the split size is
/// `char`, else its words.
pub open spec fn pieces_of(text: Seq<char>, split_size: Seq<char>) -> Seq<Seq<char>> {
    if split_size == "char"@ {
        visible_chars(trimmed(text))
    } else {
        words(trimmed(text))
    }
}

/// Splits a transcript into its pieces.
pub fn split_text_placeholder(text: &str, split_size: &str) -> (r: Vec<String>)
    ensures
        texts(r@) == pieces_of(text@, split_size@),
{
    let chars = trim(chars_of(text).as_slice());
    if same_text(split_size, "char") {
        let mut r: Vec<String> = Vec::new();
        let mut i: usize = 0;
        assert(chars@.take(0) =~= Seq::<char>::empty());
        assert(texts(r@) =~= Seq::<Seq<char>>::empty());
        while i < chars.len()
            invariant
                i <= chars@.len(),
                texts(r@) == visible_chars(chars@.take(i as int)),
            decreases chars@.len() - i,
        {
            let ghost head = chars@.take(i + 1);
            assert(head.drop_last() =~= chars@.take(i as int));
            let c = chars[i];
            if !is_white(c) {
                let mut piece = String::new();
                piece.push(c);
                assert(piece@ =~= seq![c]);
                let ghost r0 = r@;
                r.push(piece);
                assert(texts(r@) =~= texts(r0).push(seq![c]));
            }
            i += 1;
        }
        assert(chars@.take(i as int) =~= chars@);
        r
    } else {
        split_words(chars.as_slice())
    }
}

/// A word as a token: its characters, with a space between each two.
pub open spec fn spelled(word: Seq<char>) -> Seq<char> {
    joined(word.map_values(|c: char| seq![c]))
}

/// Spells a word.
pub fn spell(word: &str) -> (r: String)
    ensures
        r@ == spelled(word@),
{
    let chars = chars_of(word);
    let mut r = String::new();
    let mut i: usize = 0;
    let ghost singles = word@.map_values(|c: char| seq![c]);
    assert(singles.take(0) =~= Seq::<Seq<char>>::empty());
    while i < chars.len()
        invariant
            i <= chars@.len(),
            chars@ == word@,
            singles == word@.map_values(|c: char| seq![c]),
            r@ == joined(singles.take(i as int)),
        decreases chars@.len() - i,
    {
        let ghost head = singles.take(i + 1);
        assert(head.drop_last() =~= singles.take(i as int));
        if i > 0 {
            r.push(' ');
        }
        r.push(chars[i]);
        assert(r@ =~= joined(head));
        i += 1;
    }
    assert(singles.take(i as int) =~= singles);
    r
}

/// A star before each text.
pub open spec fn star_each(list: Seq<Seq<char>>) -> Seq<Seq<char>>
    decreases list.len(),
{
    if list.len() == 0 {
        list
    } else {
        star_each(list.drop_last()).push(STAR@).push(list.last())
    }
}

/// A list of texts with its stars: one at each end for `edges`, one before each
/// text for `segment`, else none.
pub open spec fn with_stars(list: Seq<Seq<char>>, frequency: Seq<char>) -> Seq<Seq<char>> {
    if frequency == "edges"@ {
        seq![STAR@] + list + seq![STAR@]
    } else if frequency == "segment"@ {
        star_each(list)
    } else {
        list
    }
}

/// Adds the stars to a list of texts.
pub fn add_stars(list: Vec<String>, frequency: &str) -> (r: Vec<String>)
    ensures
        texts(r@) == with_stars(texts(list@), frequency@),
{
    let edges = same_text(frequency, "edges");
    let segment = !edges && same_text(frequency, "segment");
    if !edges && !segment {
        return list;
    }
    let mut r: Vec<String> = Vec::new();
    if edges {
        r.push(STAR.to_owned());
    }
    let ghost all = texts(list@);
    assert(all.take(0) =~= Seq::<Seq<char>>::empty());
    assert(edges ==> texts(r@) =~= seq![STAR@] + all.take(0));
    assert(segment ==> texts(r@) =~= star_each(all.take(0)));
    let mut i: usize = 0;
    while i < list.len()
        invariant
            i <= list@.len(),
            edges != segment,
            all == texts(list@),
            edges ==> texts(r@) == seq![STAR@] + all.take(i as int),
            segment ==> texts(r@) == star_each(all.take(i as int)),
        decreases list@.len() - i,
    {
        let ghost head = all.take(i + 1);
        let ghost before = texts(r@);
        assert(head.drop_last() =~= all.take(i as int));
        assert(head.last() == list@[i as int]@);
        if segment {
            r.push(STAR.to_owned());
            assert(texts(r@) =~= before.push(STAR@));
        }
        let ghost starred = texts(r@);
        r.push(list[i].clone());
        assert(texts(r@) =~= starred.push(list@[i as int]@));
        assert(edges ==> texts(r@) =~= seq![STAR@] + head);
        i += 1;
    }
    assert(all.take(i as int) =~= all);
    if edges {
        let ghost before = texts(r@);
        r.push(STAR.to_owned());
        assert(texts(r@) =~= before.push(STAR@));
        assert(texts(r@) =~= seq![STAR@] + all + seq![STAR@]);
    }
    r
}

/// The tokens of pieces of text: each piece in lowercase, spelled.
pub open spec fn spelled_pieces(pieces: Seq<Seq<char>>) -> Seq<Seq<char>> {
    pieces.map_values(|p: Seq<char>| spelled(lowercase(p)))
}

/// Splits a transcript into pieces and spells each, and adds the stars to both
/// lists.  The first list holds the tokens, the second the pieces.  The text must
/// stand in the letters of the vocabulary already: none is rewritten but for its
/// case.
pub fn preprocess_text(text: &str, split_size: &str, star_frequency: &str) -> (r: (
    Vec<String>,
    Vec<String>,
))
    ensures
        ({
            let pieces = pieces_of(text@, split_size@);
            &&& texts(r.0@) == with_stars(spelled_pieces(pieces), star_frequency@)
            &&& texts(r.1@) == with_stars(pieces, star_frequency@)
        }),
{
    let pieces = split_text_placeholder(text, split_size);
    let mut tokens: Vec<String> = Vec::new();
    let mut i: usize = 0;
    while i < pieces.len()
        invariant
            i <= pieces@.len(),
            tokens@.len() == i,
            forall|k: int|
                0 <= k < i ==> (#[trigger] tokens@[k])@ == spelled(lowercase(pieces@[k]@)),
        decreases pieces@.len() - i,
    {
        tokens.push(spell(to_lowercase(pieces[i].as_str()).as_str()));
        i += 1;
    }
    assert(texts(tokens@) =~= spelled_pieces(texts(pieces@)));
    (add_stars(tokens, star_frequency), add_stars(pieces, star_frequency))
}

/// The visible characters of a text are all of its characters but white space,
/// in order, each a text of its own.
pub proof fn law_visible_chars_are_the_others(s: Seq<char>) -> (ks: Seq<int>)
    ensures
        ks.len() == visible_chars(s).len(),
        forall|i: int|
            0 <= i < ks.len() ==> 0 <= #[trigger] ks[i] < s.len() && !white(s[ks[i]])
                && visible_chars(s)[i] == seq![s[ks[i]]],
        forall|i: int, j: int| 0 <= i < j < ks.len() ==> #[trigger] ks[i] < #[trigger] ks[j],
        forall|k: int| 0 <= k < s.len() && !white(#[trigger] s[k]) ==> ks.contains(k),
    decreases s.len(),
{
    if s.len() == 0 {
        Seq::empty()
    } else {
        let before = s.drop_last();
        let n = before.len() as int;
        let old_ks = law_visible_chars_are_the_others(before);
        let ks = if white(s.last()) {
            old_ks
        } else {
            old_ks.push(n)
        };
        assert forall|i: int| 0 <= i < ks.len() implies 0 <= #[trigger] ks[i] < s.len() && !white(
            s[ks[i]],
        ) && visible_chars(s)[i] == seq![s[ks[i]]] by {
            if i < old_ks.len() {
                assert(before[old_ks[i]] == s[old_ks[i]]);
            }
        }
        assert forall|k: int| 0 <= k < s.len() && !white(#[trigger] s[k]) implies ks.contains(
            k,
        ) by {
            if k < n {
                assert(!white(before[k]));
                let i = choose|i: int| 0 <= i < old_ks.len() && old_ks[i] == k;
                assert(ks[i] == k);
            } else {
                assert(ks[ks.len() - 1] == n);
            }
        }
        ks
    }
}

/// Split by words, the pieces of a text are its longest stretches without white
/// space, in order, whatever the split size is called.
pub proof fn law_pieces_are_words(text: Seq<char>, split_size: Seq<char>) -> (bs: Seq<(int, int)>)
    requires
        split_size != "char"@,
    ensures
        bs.len() == pieces_of(text, split_size).len(),
        are_bounds(bs, text.len() as int),
        forall|i: int|
            0 <= i < bs.len() ==> (#[trigger] bs[i]).0 < bs[i].1 && pieces_of(text, split_size)[i]
                == text.subrange(bs[i].0, bs[i].1),
        forall|i: int, k: int|
            0 <= i < bs.len() && (#[trigger] bs[i]).0 <= k < bs[i].1 ==> !white(
                #[trigger] text[k],
            ),
        forall|k: int|
            0 <= k < text.len() && !white(#[trigger] text[k]) ==> exists|i: int|
                0 <= i < bs.len() && (#[trigger] bs[i]).0 <= k < bs[i].1,
{
    let (a, b) = law_trimmed_is_the_middle(text);
    let inner = trimmed(text);
    let ws = law_words_are_the_stretches(inner);
    let bs = Seq::new(ws.len(), |i: int| (ws[i].0 + a, ws[i].1 + a));
    assert(pieces_of(text, split_size) == words(inner));
    assert forall|i: int| 0 <= i < bs.len() implies (#[trigger] bs[i]).0 < bs[i].1 && pieces_of(
        text,
        split_size,
    )[i] == text.subrange(bs[i].0, bs[i].1) by {
        assert(ws[i].0 < ws[i].1);
        assert(inner.subrange(ws[i].0, ws[i].1) =~= text.subrange(ws[i].0 + a, ws[i].1 + a));
    }
    assert forall|i: int, j: int| 0 <= i < j < bs.len() implies (#[trigger] bs[i]).1
        < (#[trigger] bs[j]).0 by {
        assert(ws[i].1 < ws[j].0);
    }
    assert forall|i: int| 0 <= i < bs.len() implies 0 <= (#[trigger] bs[i]).0 <= bs[i].1
        <= text.len() by {
        assert(0 <= ws[i].0 <= ws[i].1 <= inner.len());
    }
    assert forall|i: int, k: int|
        0 <= i < bs.len() && (#[trigger] bs[i]).0 <= k < bs[i].1 implies !white(
        #[trigger] text[k],
    ) by {
        assert(ws[i].0 <= k - a < ws[i].1);
        assert(!white(inner[k - a]));
    }
    assert forall|k: int| 0 <= k < text.len() && !white(#[trigger] text[k]) implies exists|i: int|
        0 <= i < bs.len() && (#[trigger] bs[i]).0 <= k < bs[i].1 by {
        assert(a <= k < b);
        assert(!white(inner[k - a]));
        let i = choose|i: int| 0 <= i < ws.len() && (#[trigger] ws[i]).0 <= k - a < ws[i].1;
        assert(bs[i] == (ws[i].0 + a, ws[i].1 + a));
    }
    bs
}

/// Split by characters, the pieces of a text are all of its characters but white
/// space, in order.
pub proof fn law_pieces_are_chars(text: Seq<char>) -> (ks: Seq<int>)
    ensures
        ks.len() == pieces_of(text, "char"@).len(),
        forall|i: int|
            0 <= i < ks.len() ==> 0 <= #[trigger] ks[i] < text.len() && !white(text[ks[i]])
                && pieces_of(text, "char"@)[i] == seq![text[ks[i]]],
        forall|i: int, j: int| 0 <= i < j < ks.len() ==> #[trigger] ks[i] < #[trigger] ks[j],
        forall|k: int| 0 <= k < text.len() && !white(#[trigger] text[k]) ==> ks.contains(k),
{
    let (a, b) = law_trimmed_is_the_middle(text);
    let inner = trimmed(text);
    let js = law_visible_chars_are_the_others(inner);
    let ks = Seq::new(js.len(), |i: int| js[i] + a);
    assert(pieces_of(text, "char"@) == visible_chars(inner));
    assert forall|i: int| 0 <= i < ks.len() implies 0 <= #[trigger] ks[i] < text.len() && !white(
        text[ks[i]],
    ) && pieces_of(text, "char"@)[i] == seq![text[ks[i]]] by {
        assert(0 <= js[i] < inner.len());
        assert(inner[js[i]] == text[js[i] + a]);
    }
    assert forall|i: int, j: int| 0 <= i < j < ks.len() implies #[trigger] ks[i]
        < #[trigger] ks[j] by {
        assert(js[i] < js[j]);
    }
    assert forall|k: int| 0 <= k < text.len() && !white(#[trigger] text[k]) implies ks.contains(
        k,
    ) by {
        assert(a <= k < b);
        assert(!white(inner[k - a]));
        let i = choose|i: int| 0 <= i < js.len() && js[i] == k - a;
        assert(ks[i] == k);
    }
    ks
}

/// A spelled word has its characters at the even places, all of them in order,
/// and spaces at the odd ones.
pub proof fn law_spelled_alternates(word: Seq<char>)
    ensures
        word.len() == 0 ==> spelled(word).len() == 0,
        word.len() > 0 ==> spelled(word).len() == 2 * word.len() - 1,
        forall|p: int|
            0 <= p < spelled(word).len() ==> #[trigger] spelled(word)[p] == (if p % 2 == 0 {
                word[p / 2]
            } else {
                ' '
            }),
{
    lemma_spelled_take(word, word.len() as int);
    let singles = word.map_values(|c: char| seq![c]);
    assert(singles.take(word.len() as int) =~= singles);
}

proof fn lemma_spelled_take(word: Seq<char>, n: int)
    requires
        0 <= n <= word.len(),
    ensures
        ({
            let s = joined(word.map_values(|c: char| seq![c]).take(n));
            &&& n == 0 ==> s.len() == 0
            &&& n > 0 ==> s.len() == 2 * n - 1
            &&& forall|p: int|
                0 <= p < s.len() ==> #[trigger] s[p] == (if p % 2 == 0 {
                    word[p / 2]
                } else {
                    ' '
                })
        }),
    decreases n,
{
    let singles = word.map_values(|c: char| seq![c]);
    let head = singles.take(n);
    if n == 1 {
        assert(head[0] == seq![word[0]]);
    } else if n > 1 {
        lemma_spelled_take(word, n - 1);
        assert(head.drop_last() =~= singles.take(n - 1));
        assert(head.last() == seq![word[n - 1]]);
        let before = joined(singles.take(n - 1));
        let s = joined(head);
        assert(s == before.push(' ') + seq![word[n - 1]]);
        assert forall|p: int| 0 <= p < s.len() implies #[trigger] s[p] == (if p % 2 == 0 {
            word[p / 2]
        } else {
            ' '
        }) by {
            if p < before.len() {
                assert(s[p] == before[p]);
            }
        }
    }
}

/// Each token is the spelling of its piece in lowercase.
pub proof fn law_tokens_spell_pieces(pieces: Seq<Seq<char>>, i: int)
    requires
        0 <= i < pieces.len(),
    ensures
        spelled_pieces(pieces).len() == pieces.len(),
        spelled_pieces(pieces)[i] == spelled(lowercase(pieces[i])),
{
}

/// Where the stars stand: before and after the whole list for `edges`, before
/// each text for `segment`, nowhere else.
pub proof fn law_where_stars_stand(list: Seq<Seq<char>>, frequency: Seq<char>)
    ensures
        frequency == "edges"@ ==> {
            &&& with_stars(list, frequency).len() == list.len() + 2
            &&& with_stars(list, frequency)[0] == "<star>"@
            &&& with_stars(list, frequency)[list.len() as int + 1] == "<star>"@
            &&& forall|i: int|
                0 <= i < list.len() ==> with_stars(list, frequency)[i + 1] == #[trigger] list[i]
        },
        frequency == "segment"@ ==> {
            &&& with_stars(list, frequency).len() == 2 * list.len()
            &&& forall|i: int|
                0 <= i < list.len() ==> with_stars(list, frequency)[2 * i + 1]
                    == #[trigger] list[i] && with_stars(list, frequency)[2 * i] == "<star>"@
        },
        frequency != "edges"@ && frequency != "segment"@ ==> with_stars(list, frequency) == list,
{
    if frequency == "segment"@ {
        reveal_strlit("segment");
        reveal_strlit("edges");
        assert("segment"@.len() == 7 && "edges"@.len() == 5);
        lemma_star_places(list);
    }
}

proof fn lemma_star_places(list: Seq<Seq<char>>)
    ensures
        star_each(list).len() == 2 * list.len(),
        forall|i: int|
            0 <= i < list.len() ==> star_each(list)[2 * i + 1] == #[trigger] list[i] && star_each(
                list,
            )[2 * i] == "<star>"@,
    decreases list.len(),
{
    if list.len() > 0 {
        let before = list.drop_last();
        lemma_star_places(before);
        assert forall|i: int| 0 <= i < list.len() implies star_each(list)[2 * i + 1]
            == #[trigger] list[i] && star_each(list)[2 * i] == "<star>"@ by {
            if i < before.len() {
                assert(before[i] == list[i]);
            }
        }
    }
}

/// A lookup succeeds exactly where there is a letter and every letter's lowercase
/// is in the vocabulary, and gives the id of each, in order.  Else it names the
/// first letter that is not there.
pub proof fn law_lookup_outcome(
    r: Result<Vec<usize>, TokenError>,
    parts: Seq<Seq<char>>,
    vocab: Map<Seq<char>, usize>,
)
    requires
        is_lookup(r, parts, lowercased(parts), vocab),
    ensures
        r is Ok <==> parts.len() > 0 && forall|i: int|
            0 <= i < parts.len() ==> vocab.contains_key(lowercase(#[trigger] parts[i])),
        r matches Ok(ids) ==> ids@.len() == parts.len() && forall|i: int|
            0 <= i < parts.len() ==> ids@[i] == vocab[lowercase(#[trigger] parts[i])],
        r matches Err(TokenError::NoTokens) ==> parts.len() == 0,
        r matches Err(TokenError::NotInVocab { token }) ==> exists|i: int|
            0 <= i < parts.len() && token@ == #[trigger] parts[i] && !vocab.contains_key(
                lowercase(parts[i]),
            ) && forall|k: int|
                0 <= k < i ==> vocab.contains_key(lowercase(#[trigger] parts[k])),
{
    let keys = lowercased(parts);
    assert forall|i: int| 0 <= i < parts.len() implies keys[i] == lowercase(
        #[trigger] parts[i],
    ) by {}
    match r {
        Ok(ids) => {
            assert forall|i: int| 0 <= i < parts.len() implies vocab.contains_key(
                lowercase(#[trigger] parts[i]),
            ) && ids@[i] == vocab[lowercase(parts[i])] by {
                assert(ids@[i] == vocab[keys[i]]);
            }
        },
        Err(TokenError::NotInVocab { token }) => {
            let i = choose|i: int|
                0 <= i < parts.len() && token@ == #[trigger] parts[i] && !vocab.contains_key(
                    keys[i],
                ) && (forall|k: int| 0 <= k < i ==> vocab.contains_key(#[trigger] keys[k]));
            assert(!vocab.contains_key(lowercase(parts[i])));
            assert forall|k: int| 0 <= k < i implies vocab.contains_key(
                lowercase(#[trigger] parts[k]),
            ) by {
                assert(vocab.contains_key(keys[k]));
            }
        },
        Err(TokenError::NoTokens) => {},
    }
}

/// Each token adds its own letters, and no others, to those of the tokens before
/// it.
pub proof fn law_token_parts_add_up(tokens: Seq<Seq<char>>, token: Seq<char>)
    ensures
        token_parts(Seq::<Seq<char>>::empty()).len() == 0,
        token_parts(tokens.push(token)) == token_parts(tokens) + non_empty(split_spaces(token)),
{
    reveal_with_fuel(non_empty, 2);
    let none = Seq::<Seq<char>>::empty();
    assert(split_spaces(joined(none)) =~= seq![Seq::<char>::empty()]);
    assert(split_spaces(joined(none)).drop_last() =~= none);
    let all = tokens.push(token);
    if tokens.len() == 0 {
        assert(tokens =~= none);
        assert(joined(all) == token);
        assert(token_parts(all) =~= token_parts(tokens) + non_empty(split_spaces(token)));
    } else {
        assert(all.drop_last() =~= tokens);
        lemma_split_at_join(joined(tokens), token);
        lemma_non_empty_of_sum(split_spaces(joined(tokens)), split_spaces(token));
    }
}

/// The star has the first id past the count of the tokens, whatever it had before;
/// the other tokens keep theirs.
pub proof fn law_star_joins_vocab(vocab: Map<Seq<char>, usize>, token: Seq<char>)
    requires
        vocab.dom().finite(),
        vocab.len() <= usize::MAX,
    ensures
        with_star(vocab).contains_key("<star>"@),
        with_star(vocab)["<star>"@] == vocab.len(),
        token != "<star>"@ ==> (with_star(vocab).contains_key(token) <==> vocab.contains_key(
            token,
        )),
        token != "<star>"@ && vocab.contains_key(token) ==> with_star(vocab)[token]
            == vocab[token],
{
}

/// A vocabulary in lowercase holds the lowercase of every token and nothing else;
/// of tokens that come to one, the last gives the id.
pub proof fn law_lowered_is_last(entries: Seq<(String, usize)>, key: Seq<char>)
    ensures
        lowered(entries).contains_key(key) <==> exists|i: int|
            0 <= i < entries.len() && lowercase((#[trigger] entries[i]).0@) == key,
        lowered(entries).contains_key(key) ==> exists|i: int|
            0 <= i < entries.len() && lowercase((#[trigger] entries[i]).0@) == key && lowered(
                entries,
            )[key] == entries[i].1 && forall|j: int|
                i < j < entries.len() ==> lowercase((#[trigger] entries[j]).0@) != key,
    decreases entries.len(),
{
    if entries.len() > 0 {
        let before = entries.drop_last();
        let n = before.len() as int;
        law_lowered_is_last(before, key);
        if lowercase(entries[n].0@) == key {
            assert(lowered(entries)[key] == entries[n].1);
        } else {
            assert(lowered(entries).contains_key(key) <==> lowered(before).contains_key(key));
            if lowered(before).contains_key(key) {
                let i = choose|i: int|
                    0 <= i < before.len() && lowercase((#[trigger] before[i]).0@) == key
                        && lowered(before)[key] == before[i].1 && forall|j: int|
                        i < j < before.len() ==> lowercase((#[trigger] before[j]).0@) != key;
                assert(entries[i] == before[i]);
                assert forall|j: int| i < j < entries.len() implies lowercase(
                    (#[trigger] entries[j]).0@,
                ) != key by {
                    if j < n {
                        assert(before[j] == entries[j]);
                    }
                }
            }
            if exists|i: int|
                0 <= i < entries.len() && lowercase((#[trigger] entries[i]).0@) == key {
                let i = choose|i: int|
                    0 <= i < entries.len() && lowercase((#[trigger] entries[i]).0@) == key;
                assert(before[i] == entries[i]);
            }
        }
    }
}

/// The same, for keys that are in lowercase already.
pub proof fn law_keyed_is_last(keys: Seq<String>, ids: Seq<usize>, key: Seq<char>)
    requires
        keys.len() == ids.len(),
    ensures
        keyed(keys, ids).contains_key(key) <==> exists|i: int|
            0 <= i < keys.len() && (#[trigger] keys[i])@ == key,
        keyed(keys, ids).contains_key(key) ==> exists|i: int|
            0 <= i < keys.len() && (#[trigger] keys[i])@ == key && keyed(keys, ids)[key] == ids[i]
                && forall|j: int| i < j < keys.len() ==> (#[trigger] keys[j])@ != key,
    decreases keys.len(),
{
    if keys.len() > 0 {
        let before = keys.drop_last();
        let n = before.len() as int;
        law_keyed_is_last(before, ids.drop_last(), key);
        if keys[n]@ == key {
            assert(keyed(keys, ids)[key] == ids[n]);
        } else {
            let shorter = keyed(before, ids.drop_last());
            assert(keyed(keys, ids).contains_key(key) <==> shorter.contains_key(key));
            if shorter.contains_key(key) {
                let i = choose|i: int|
                    0 <= i < before.len() && (#[trigger] before[i])@ == key && shorter[key]
                        == ids.drop_last()[i] && forall|j: int|
                        i < j < before.len() ==> (#[trigger] before[j])@ != key;
                assert(keys[i] == before[i]);
                assert forall|j: int| i < j < keys.len() implies (#[trigger] keys[j])@ != key by {
                    if j < n {
                        assert(before[j] == keys[j]);
                    }
                }
            }
            if exists|i: int| 0 <= i < keys.len() && (#[trigger] keys[i])@ == key {
                let i = choose|i: int| 0 <= i < keys.len() && (#[trigger] keys[i])@ == key;
                assert(before[i] == keys[i]);
            }
        }
    }
}

/// A list of pairs in which no token occurs twice gives each token its own id, and
/// knows no other token.
pub proof fn law_entries_keep_their_ids(entries: Seq<(String, usize)>, token: Seq<char>, i: int)
    requires
        distinct_tokens(entries),
        0 <= i < entries.len(),
    ensures
        entries_map(entries).contains_key(entries[i].0@),
        entries_map(entries)[entries[i].0@] == entries[i].1,
        entries_map(entries).contains_key(token) ==> exists|k: int|
            0 <= k < entries.len() && (#[trigger] entries[k]).0@ == token,
    decreases entries.len(),
{
    let before = entries.drop_last();
    let n = before.len() as int;
    assert(distinct_tokens(before)) by {
        assert forall|a: int, b: int| 0 <= a < b < before.len() implies (#[trigger] before[a]).0@
            != (#[trigger] before[b]).0@ by {
            assert(entries[a].0@ != entries[b].0@);
        }
    }
    assert(entries[n] == entries.last());
    if i < n {
        law_entries_keep_their_ids(before, token, i);
        assert(before[i] == entries[i]);
        assert(entries[i].0@ != entries[n].0@);
    } else if n > 0 {
        law_entries_keep_their_ids(before, token, 0);
    }
    if entries_map(entries).contains_key(token) && token != entries[n].0@ {
        assert(entries_map(before).contains_key(token));
        let k = choose|k: int| 0 <= k < before.len() && (#[trigger] before[k]).0@ == token;
        assert(entries[k].0@ == token);
    }
}

/// The names of ids invert a vocabulary in which no two tokens share an id: each
/// token is the name of its id, and an id that no token has is without a name.
pub proof fn law_names_invert_vocab(
    names: Map<usize, String>,
    vocab: Map<Seq<char>, usize>,
    token: Seq<char>,
    id: usize,
)
    requires
        are_names(names, vocab),
        forall|a: Seq<char>, b: Seq<char>|
            vocab.contains_key(a) && vocab.contains_key(b) && a != b ==> #[trigger] vocab[a]
                != #[trigger] vocab[b],
    ensures
        vocab.contains_key(token) ==> names.contains_key(vocab[token]) && names[vocab[token]]@
            == token,
        names.contains_key(id) <==> exists|a: Seq<char>|
            vocab.contains_key(a) && #[trigger] vocab[a] == id,
{
    if vocab.contains_key(token) {
        let other = names[vocab[token]]@;
        assert(vocab.contains_key(other) && vocab[other] == vocab[token]);
    }
    if names.contains_key(id) {
        assert(vocab.contains_key(names[id]@) && vocab[names[id]@] == id);
    }
    if exists|a: Seq<char>| vocab.contains_key(a) && #[trigger] vocab[a] == id {
        let a = choose|a: Seq<char>| vocab.contains_key(a) && #[trigger] vocab[a] == id;
        assert(names.contains_key(vocab[a]));
    }
}

} // verus!
