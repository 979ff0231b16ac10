//! Model and alignment configuration.

use vstd::prelude::*;

use crate::chars::same_text;

verus! {

/// The sample rate of the model, in samples per second.
pub const SAMPLE_RATE: u32 = 16_000;

/// The shape of a Wav2Vec2 CTC model, as its `config.json` gives it.
#[derive(Debug)]
pub struct ModelConfig {
    pub hidden_size: usize,
    pub num_hidden_layers: usize,
    pub num_attention_heads: usize,
    pub intermediate_size: usize,
    pub vocab_size: usize,
    pub conv_dim: Vec<usize>,
    pub conv_kernel: Vec<usize>,
    pub conv_stride: Vec<usize>,
    pub conv_bias: bool,
    pub do_stable_layer_norm: bool,
    pub feat_extract_norm: String,
    pub num_conv_pos_embeddings: usize,
    pub num_conv_pos_embedding_groups: usize,
    /// The CTC blank is usually the padding token, or `<blank>`.
    pub pad_token_id: Option<usize>,
}

pub fn default_hidden_size() -> (r: usize)
    ensures
        r == 1024,
{
    1024
}

pub fn default_num_hidden_layers() -> (r: usize)
    ensures
        r == 24,
{
    24
}

pub fn default_num_attention_heads() -> (r: usize)
    ensures
        r == 16,
{
    16
}

pub fn default_intermediate_size() -> (r: usize)
    ensures
        r == 4096,
{
    4096
}

pub fn default_vocab_size() -> (r: usize)
    ensures
        r == 37,
{
    37
}

/// Seven convolutions of 512 channels.
pub fn default_conv_dim() -> (r: Vec<usize>)
    ensures
        r@ == seq![512usize, 512, 512, 512, 512, 512, 512],
{
    let r: Vec<usize> = vec![512, 512, 512, 512, 512, 512, 512];
    assert(r@ =~= seq![512usize, 512, 512, 512, 512, 512, 512]);
    r
}

pub fn default_conv_kernel() -> (r: Vec<usize>)
    ensures
        r@ == seq![10usize, 3, 3, 3, 3, 2, 2],
{
    let r: Vec<usize> = vec![10, 3, 3, 3, 3, 2, 2];
    assert(r@ =~= seq![10usize, 3, 3, 3, 3, 2, 2]);
    r
}

pub fn default_conv_stride() -> (r: Vec<usize>)
    ensures
        r@ == seq![5usize, 2, 2, 2, 2, 2, 2],
{
    let r: Vec<usize> = vec![5, 2, 2, 2, 2, 2, 2];
    assert(r@ =~= seq![5usize, 2, 2, 2, 2, 2, 2]);
    r
}

pub fn default_true() -> (r: bool)
    ensures
        r,
{
    true
}

pub fn default_feat_extract_norm() -> (r: String)
    ensures
        r@ == "layer"@,
{
    "layer".to_owned()
}

pub fn default_num_conv_pos_embeddings() -> (r: usize)
    ensures
        r == 128,
{
    128
}

pub fn default_num_conv_pos_embedding_groups() -> (r: usize)
    ensures
        r == 16,
{
    16
}

impl ModelConfig {
    /// The width of one attention head.
    pub fn head_dim(&self) -> (r: usize)
        requires
            self.num_attention_heads > 0,
        ensures
            r == self.hidden_size / self.num_attention_heads,
    {
        self.hidden_size / self.num_attention_heads
    }
}

/// Alignment-time choices.  Lengths are in samples, and in frames.
#[derive(Debug)]
pub struct AlignOptions {
    /// The length of a sliding window, in samples.
    pub window: usize,
    /// The context on each side of a window, in samples.
    pub context: usize,
    /// The context on each side of a window, in frames.
    pub context_frames: usize,
    /// Kept for callers; inference does not read it.
    pub batch_size: usize,
    /// The ISO code of the language (`eng`, `cmn`, `jpn`).
    pub language: String,
    /// `word`, `char` or `auto`.
    pub split_size: String,
    /// Where star tokens go: `edges` or `segment`.
    pub star_frequency: String,
    /// Part of the key under which a preprocessed transcript is kept; no text is
    /// changed for it.
    pub romanize: bool,
}

/// English, words, stars at the edges, the romanize flag set; windows of 30
/// seconds with 2 seconds of context.
impl Default for AlignOptions {
    fn default() -> (r: Self)
        ensures
            r.window == 30 * SAMPLE_RATE,
            r.context == 2 * SAMPLE_RATE,
            r.context_frames == 100,
            r.batch_size == 4,
            r.language@ == "eng"@,
            r.split_size@ == "word"@,
            r.star_frequency@ == "edges"@,
            r.romanize,
    {
        AlignOptions {
            window: 480_000,
            context: 32_000,
            context_frames: 100,
            batch_size: 4,
            language: "eng".to_owned(),
            split_size: "word".to_owned(),
            star_frequency: "edges".to_owned(),
            romanize: true,
        }
    }
}

impl AlignOptions {
    /// The default choices for a language.
    pub fn for_language(language: String) -> (r: Self)
        ensures
            r.window == 30 * SAMPLE_RATE,
            r.context == 2 * SAMPLE_RATE,
            r.context_frames == 100,
            r.batch_size == 4,
            r.language == language,
            r.split_size@ == "word"@,
            r.star_frequency@ == "edges"@,
            r.romanize,
    {
        let options = AlignOptions::default();
        AlignOptions {
            window: options.window,
            context: options.context,
            context_frames: options.context_frames,
            batch_size: options.batch_size,
            language,
            split_size: options.split_size,
            star_frequency: options.star_frequency,
            romanize: options.romanize,
        }
    }
}

/// How a transcript is split: Japanese and Chinese always by characters; else
/// as asked, where `auto` means words.
pub open spec fn split_for(language: Seq<char>, split_size: Seq<char>) -> Seq<char> {
    if language == "jpn"@ || language == "chi"@ {
        "char"@
    } else if split_size == "auto"@ {
        "word"@
    } else {
        split_size
    }
}

/// How the transcript of a request is split.
pub fn effective_split(language: &str, split_size: &str) -> (r: String)
    ensures
        r@ == split_for(language@, split_size@),
{
    if same_text(language, "jpn") || same_text(language, "chi") {
        "char".to_owned()
    } else if same_text(split_size, "auto") {
        "word".to_owned()
    } else {
        split_size.to_owned()
    }
}

/// Japanese and Chinese are split by characters, whatever is asked; for all
/// other languages the language has no influence, `auto` is as `word`, and
/// anything else is as it is asked.  A split that was settled once stays.
pub proof fn law_split_follows_language(
    language: Seq<char>,
    other: Seq<char>,
    split_size: Seq<char>,
)
    requires
        other != "jpn"@,
        other != "chi"@,
    ensures
        split_for("jpn"@, split_size) == "char"@,
        split_for("chi"@, split_size) == "char"@,
        language != "jpn"@ && language != "chi"@ ==> split_for(language, split_size) == split_for(
            other,
            split_size,
        ),
        split_for(other, "auto"@) == split_for(other, "word"@),
        split_for(other, "word"@) == "word"@,
        split_size != "auto"@ ==> split_for(other, split_size) == split_size,
        split_for(language, split_for(language, split_size)) == split_for(language, split_size),
{
    reveal_strlit("auto");
    reveal_strlit("word");
    assert("auto"@[0] != "word"@[0]);
}

} // verus!
