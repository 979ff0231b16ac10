# ctc_forced_aligner_rs

Audio and a transcript in, the start and the end of each word out: CTC forced
alignment with a Wav2Vec2 model.

## The library, `src/`

Its functions are proved with Verus, but for the calls into outside crates and
into parts of the standard library: each of these stands behind a small item that
says what is taken for granted of it (`json`, `parallel`, `raw_tensor`,
`text`, `weights`).

| module | what it holds |
|--------|---------------|
| `ctc` | the Viterbi alignment of a label sequence to frames |
| `alignment` | what that alignment is worth: it spells the targets, and where no cell is tied nothing that spells them scores higher |
| `postprocess` | runs of a path, the spans of tokens, timed pieces of text |
| `inference` | the pipeline from emissions and tokens to timed pieces |
| `guarantees`, `transcript` | what the pipeline promises as a whole |
| `text`, `chars` | vocabulary, tokens, the splitting of transcripts |
| `windows`, `emissions` | long audio in windows, log-probabilities, the star column |
| `cpu_engine`, `network` | the forward pass of the model, and what its layers promise |
| `kernels`, `rows`, `layout`, `parallel` | convolutions, attention, normalisation, matrices |
| `checkpoint`, `weights`, `raw_tensor`, `json` | the weights of a model, from safetensors files |
| `config`, `device`, `audio`, `prebuilt_ptx` | choices: model, device, audio format, PTX |

The arithmetic is that of a number type: `Score`, `Number`, `Real`, `Decode` and
`Weight` name the operations that the code needs. Integers have them in the
library; the program has them for single precision.

## The program, `app/`

Files, the command line, single precision (`gemm`, `libm`, `half`), ffmpeg, and
the CUDA probe.

```text
align --model DIR --audio FILE --text FILE --output FILE [--language eng] [--device auto]
```

Transcripts must be spelled in the letters of the model's vocabulary: nothing is
romanized and no punctuation is taken off, so a word with a letter or a mark that
the vocabulary does not hold is refused. `romanize` only tells cached transcripts
apart.

A model directory holds `config.json`, `vocab.json` and `model.safetensors`, or
an index and its shards.
