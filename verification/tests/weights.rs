use bytes::Bytes;
use ctc_forced_aligner_rs::checkpoint::{Checkpoint, LoadError};
use ctc_forced_aligner_rs::config::{
    default_conv_kernel, default_feat_extract_norm, ModelConfig,
};
use ctc_forced_aligner_rs::cpu_engine::CpuEngine;
use ctc_forced_aligner_rs::json::read_texts_under;
use ctc_forced_aligner_rs::raw_tensor::{Decode, Decoded, Dtype, RawTensor};
use ctc_forced_aligner_rs::weights::{
    load_safetensors, merge_files, shard_files, weight_files, WeightsError,
};

/// A safetensors file of single-precision tensors, each filled with its number.
fn checkpoint(tensors: &[(&str, &[usize])]) -> Bytes {
    let mut header = String::from("{");
    let mut data: Vec<u8> = Vec::new();
    for (i, (name, shape)) in tensors.iter().enumerate() {
        let n: usize = shape.iter().product();
        let begin = data.len();
        for _ in 0..n {
            data.extend_from_slice(&(i as f32).to_le_bytes());
        }
        if i > 0 {
            header.push(',');
        }
        header.push_str(&format!(
            "\"{name}\":{{\"dtype\":\"F32\",\"shape\":{shape:?},\"data_offsets\":[{begin},{}]}}",
            data.len()
        ));
    }
    header.push('}');
    let mut file: Vec<u8> = (header.len() as u64).to_le_bytes().to_vec();
    file.extend_from_slice(header.as_bytes());
    file.extend_from_slice(&data);
    Bytes::from(file)
}

fn raw(dtype: Dtype, data: &[u8], shape: &[usize]) -> RawTensor {
    RawTensor { data: Bytes::from(data.to_vec()), shape: shape.to_vec(), dtype }
}

fn single(d: &Decoded) -> Vec<f32> {
    match d {
        Decoded::Single(bits) => bits.iter().map(|b| f32::from_bits(*b)).collect(),
        Decoded::Half(_) => panic!("half precision"),
    }
}

#[test]
fn tensors_decode_little_endian() {
    let t = raw(Dtype::F32, &[0, 0, 128, 63, 0, 0, 0, 192, 7], &[2]);
    assert_eq!(t.numel(), 2);
    assert_eq!(single(&t.decode().unwrap()), vec![1.0, -2.0]);
    match raw(Dtype::F16, &[0, 60, 0, 192], &[2]).decode().unwrap() {
        Decoded::Half(bits) => assert_eq!(bits, vec![0x3C00, 0xC000]),
        other => panic!("{other:?}"),
    }
    let t = raw(Dtype::BF16, &[128, 63, 0, 192], &[1, 2]);
    assert_eq!(single(&t.decode().unwrap()), vec![1.0, -2.0]);
    let e = raw(Dtype::I64, &[1, 2], &[2]).decode().unwrap_err();
    assert_eq!(e.dtype, Dtype::I64);
}

/// Half precision.
#[derive(Debug, Clone, Copy, PartialEq)]
struct F16(half::f16);

impl Decode for F16 {
    fn of_single(bits: u32) -> Self {
        F16(half::f16::from_f32(f32::from_bits(bits)))
    }

    fn of_half(bits: u16) -> Self {
        F16(half::f16::from_bits(bits))
    }

    fn from_single(bits: u32) -> Self {
        F16(half::f16::from_f32(f32::from_bits(bits)))
    }

    fn from_half(bits: u16) -> Self {
        F16(half::f16::from_bits(bits))
    }
}

#[test]
fn tensors_become_numbers() {
    let single = raw(Dtype::F32, &1.5f32.to_le_bytes(), &[1]);
    let half_ = raw(Dtype::F16, &half::f16::from_f32(-2.5).to_le_bytes(), &[1]);
    let upper = raw(Dtype::BF16, &half::bf16::from_f32(3.0).to_le_bytes(), &[1]);
    assert_eq!(single.to_numbers::<F16>().unwrap(), vec![F16(half::f16::from_f32(1.5))]);
    assert_eq!(half_.to_numbers::<F16>().unwrap(), vec![F16(half::f16::from_f32(-2.5))]);
    assert_eq!(upper.to_numbers::<F16>().unwrap(), vec![F16(half::f16::from_f32(3.0))]);
    assert_eq!(single.to_numbers::<i64>().unwrap(), vec![1.5f32.to_bits() as i64]);
    assert_eq!(half_.to_numbers::<i64>().unwrap(), vec![0xC100]);
    assert_eq!(
        raw(Dtype::BOOL, &[1], &[1]).to_numbers::<i64>().unwrap_err().dtype,
        Dtype::BOOL
    );
}

#[test]
fn elements_are_as_many_as_the_shape_asks_for() {
    assert_eq!(raw(Dtype::F32, &[], &[]).numel(), 1);
    assert_eq!(raw(Dtype::F32, &[], &[3, 0, 5]).numel(), 0);
    let t = raw(Dtype::BF16, &[0; 12], &[2, 3]);
    assert_eq!(t.decode().unwrap().len(), t.numel());
}

#[test]
fn files_are_cut_into_tensors() {
    let file = checkpoint(&[("a", &[2, 2]), ("b", &[3])]);
    let tensors = load_safetensors(&file).unwrap();
    assert_eq!(tensors.len(), 2);
    let b = tensors.get("b").unwrap();
    assert_eq!(b.shape, vec![3]);
    assert_eq!(b.dtype, Dtype::F32);
    assert_eq!(single(&b.decode().unwrap()), vec![1.0, 1.0, 1.0]);
    assert_eq!(single(&tensors.get("a").unwrap().decode().unwrap()), vec![0.0; 4]);
    assert!(tensors.get("c").is_none());
}

#[test]
fn element_types_are_told_apart() {
    let header = "{\"h\":{\"dtype\":\"F16\",\"shape\":[1],\"data_offsets\":[0,2]},\
                  \"n\":{\"dtype\":\"U8\",\"shape\":[2],\"data_offsets\":[2,4]},\
                  \"w\":{\"dtype\":\"BF16\",\"shape\":[1],\"data_offsets\":[4,6]}}";
    let mut file: Vec<u8> = (header.len() as u64).to_le_bytes().to_vec();
    file.extend_from_slice(header.as_bytes());
    file.extend_from_slice(&[1, 2, 3, 4, 5, 6]);
    let tensors = load_safetensors(&Bytes::from(file)).unwrap();
    assert_eq!(tensors.get("h").unwrap().dtype, Dtype::F16);
    assert_eq!(tensors.get("n").unwrap().dtype, Dtype::U8);
    assert_eq!(tensors.get("w").unwrap().dtype, Dtype::BF16);
    assert_eq!(tensors.get("w").unwrap().data.to_vec(), vec![5, 6]);
}

#[test]
fn other_files_are_refused() {
    for bytes in [vec![], vec![1, 2, 3], vec![0; 16], b"\x02\0\0\0\0\0\0\0[]".to_vec()] {
        assert!(matches!(
            load_safetensors(&Bytes::from(bytes)),
            Err(WeightsError::Safetensors { .. })
        ));
    }
    let overflow = "{\"a\":{\"dtype\":\"F32\",\"shape\":[18446744073709551615,2],\
                    \"data_offsets\":[0,4]}}";
    assert!(matches!(
        load_safetensors(&with_header(overflow, &[0; 4])),
        Err(WeightsError::Safetensors { .. })
    ));
}

/// A file of the given header and data.
fn with_header(header: &str, data: &[u8]) -> Bytes {
    let mut file: Vec<u8> = (header.len() as u64).to_le_bytes().to_vec();
    file.extend_from_slice(header.as_bytes());
    file.extend_from_slice(data);
    Bytes::from(file)
}

#[test]
fn only_ends_that_no_size_can_tell_are_oversized() {
    let beyond = "{\"a\":{\"dtype\":\"U8\",\"shape\":[18446744073709551615],\
                  \"data_offsets\":[0,18446744073709551615]}}";
    assert!(matches!(
        load_safetensors(&with_header(beyond, &[])),
        Err(WeightsError::Oversized)
    ));
    let far = "{\"a\":{\"dtype\":\"U8\",\"shape\":[18446744073709550000],\
               \"data_offsets\":[0,18446744073709550000]}}";
    assert!(matches!(
        load_safetensors(&with_header(far, &[])),
        Err(WeightsError::Safetensors { .. })
    ));
}

#[test]
fn large_numbers_that_place_no_tensor_are_read() {
    let empty = "{\"a\":{\"dtype\":\"F32\",\"shape\":[0,18446744073709551615],\
                 \"data_offsets\":[0,0]}}";
    let tensors = load_safetensors(&with_header(empty, &[])).unwrap();
    assert_eq!(tensors.get("a").unwrap().shape, vec![0, 18446744073709551615]);
    let ignored = "{\"a\":{\"dtype\":\"U8\",\"shape\":[1],\"data_offsets\":[0,1],\
                   \"note\":18446744073709551615}}";
    let tensors = load_safetensors(&with_header(ignored, &[7])).unwrap();
    assert_eq!(tensors.get("a").unwrap().data.to_vec(), vec![7]);
}

#[test]
fn every_element_type_keeps_its_name() {
    let types = [
        ("BOOL", Dtype::BOOL, 1),
        ("U8", Dtype::U8, 1),
        ("I8", Dtype::I8, 1),
        ("F8_E5M2", Dtype::F8_E5M2, 1),
        ("F8_E4M3", Dtype::F8_E4M3, 1),
        ("I16", Dtype::I16, 2),
        ("U16", Dtype::U16, 2),
        ("F16", Dtype::F16, 2),
        ("BF16", Dtype::BF16, 2),
        ("I32", Dtype::I32, 4),
        ("U32", Dtype::U32, 4),
        ("F32", Dtype::F32, 4),
        ("F64", Dtype::F64, 8),
        ("I64", Dtype::I64, 8),
        ("U64", Dtype::U64, 8),
    ];
    for (name, dtype, size) in types {
        let header = format!(
            "{{\"a\":{{\"dtype\":\"{name}\",\"shape\":[1],\"data_offsets\":[0,{size}]}}}}"
        );
        let tensors = load_safetensors(&with_header(&header, &vec![0; size])).unwrap();
        assert_eq!(tensors.get("a").unwrap().dtype, dtype);
        assert_eq!(format!("{dtype:?}"), name);
    }
}

#[test]
fn members_are_found_by_name() {
    let root = || {
        serde_json::from_str::<serde_json::Value>(
            "{\"w\": {\"a\": \"x\", \"b\": 1, \"c\": null, \"d\": [\"y\"], \"e\": true}, \"v\": []}",
        )
        .unwrap()
    };
    assert_eq!(
        read_texts_under(root(), "w"),
        Some(vec![Some("x".to_string()), None, None, None, None])
    );
    assert_eq!(read_texts_under(root(), "v"), None);
    assert_eq!(read_texts_under(root(), "u"), None);
    assert_eq!(read_texts_under(serde_json::Value::Null, "w"), None);
}

#[test]
fn the_index_names_the_files() {
    let index = "{\"weight_map\": {\"a\": \"1.st\", \"b\": \"2.st\", \"c\": \"1.st\", \"d\": 4}}";
    let mut files = weight_files(Some(index), true).unwrap();
    files.sort();
    assert_eq!(files, vec!["1.st".to_string(), "2.st".to_string()]);
    assert!(matches!(weight_files(Some("{}"), true), Err(WeightsError::InvalidIndex)));
    assert!(matches!(weight_files(Some("[]"), true), Err(WeightsError::InvalidIndex)));
    assert!(matches!(weight_files(Some("{"), true), Err(WeightsError::Json { .. })));
    assert_eq!(weight_files(None, true).unwrap(), vec!["model.safetensors".to_string()]);
    assert!(matches!(weight_files(None, false), Err(WeightsError::NoWeights)));
}

#[test]
fn shards_come_once() {
    let values = [Some("x".to_string()), None, Some("y".to_string()), Some("x".to_string())];
    assert_eq!(shard_files(&values), vec!["x".to_string(), "y".to_string()]);
    assert!(shard_files(&[]).is_empty());
}

#[test]
fn later_files_win() {
    let first = load_safetensors(&checkpoint(&[("a", &[1]), ("b", &[1])])).unwrap();
    let second = load_safetensors(&checkpoint(&[("x", &[1]), ("y", &[1]), ("a", &[2])])).unwrap();
    let all = merge_files(vec![first, second]);
    assert_eq!(all.len(), 4);
    assert_eq!(all.get("a").unwrap().shape, vec![2]);
    assert_eq!(all.get("b").unwrap().shape, vec![1]);
}

fn small_config() -> ModelConfig {
    ModelConfig {
        hidden_size: 4,
        num_hidden_layers: 1,
        num_attention_heads: 2,
        intermediate_size: 3,
        vocab_size: 5,
        conv_dim: vec![2],
        conv_kernel: default_conv_kernel(),
        conv_stride: vec![2],
        conv_bias: true,
        do_stable_layer_norm: true,
        feat_extract_norm: default_feat_extract_norm(),
        num_conv_pos_embeddings: 3,
        num_conv_pos_embedding_groups: 2,
        pad_token_id: None,
    }
}

const CONV: &str = "wav2vec2.feature_extractor.conv_layers.0";
const LAYER: &str = "wav2vec2.encoder.layers.0";
const POS: &str = "wav2vec2.encoder.pos_conv_embed.conv";

/// The tensors of a model of the small configuration.
fn small_model() -> Vec<(String, Vec<usize>)> {
    let mut t: Vec<(String, Vec<usize>)> = vec![
        (format!("{CONV}.conv.weight"), vec![2, 1, 3]),
        (format!("{CONV}.conv.bias"), vec![2]),
        ("wav2vec2.feature_projection.layer_norm.weight".to_string(), vec![2]),
        ("wav2vec2.feature_projection.layer_norm.bias".to_string(), vec![2]),
        ("wav2vec2.feature_projection.projection.weight".to_string(), vec![4, 2]),
        ("wav2vec2.feature_projection.projection.bias".to_string(), vec![4]),
        (format!("{POS}.parametrizations.weight.original0"), vec![1, 1, 3]),
        (format!("{POS}.parametrizations.weight.original1"), vec![4, 2, 3]),
        (format!("{POS}.bias"), vec![4]),
        ("wav2vec2.encoder.layer_norm.weight".to_string(), vec![4]),
        ("wav2vec2.encoder.layer_norm.bias".to_string(), vec![4]),
        ("lm_head.weight".to_string(), vec![5, 4]),
        ("lm_head.bias".to_string(), vec![5]),
    ];
    for norm in ["layer_norm", "final_layer_norm"] {
        t.push((format!("{LAYER}.{norm}.weight"), vec![4]));
        t.push((format!("{LAYER}.{norm}.bias"), vec![4]));
    }
    for part in ["q_proj", "k_proj", "v_proj", "out_proj"] {
        t.push((format!("{LAYER}.attention.{part}.weight"), vec![4, 4]));
        t.push((format!("{LAYER}.attention.{part}.bias"), vec![4]));
    }
    t.push((format!("{LAYER}.feed_forward.intermediate_dense.weight"), vec![3, 4]));
    t.push((format!("{LAYER}.feed_forward.intermediate_dense.bias"), vec![3]));
    t.push((format!("{LAYER}.feed_forward.output_dense.weight"), vec![4, 3]));
    t.push((format!("{LAYER}.feed_forward.output_dense.bias"), vec![4]));
    t
}

fn load(tensors: &[(String, Vec<usize>)], config: ModelConfig) -> Result<Checkpoint, LoadError> {
    let list: Vec<(&str, &[usize])> =
        tensors.iter().map(|(n, s)| (n.as_str(), s.as_slice())).collect();
    Checkpoint::load(&load_safetensors(&checkpoint(&list)).unwrap(), config)
}

fn without(name: &str) -> Vec<(String, Vec<usize>)> {
    small_model().into_iter().filter(|(n, _)| n != name).collect()
}

fn reshaped(name: &str, shape: &[usize]) -> Vec<(String, Vec<usize>)> {
    let mut model = small_model();
    for (n, s) in model.iter_mut() {
        if n == name {
            *s = shape.to_vec();
        }
    }
    model
}

#[test]
fn a_model_is_read_by_name() {
    let engine = load(&small_model(), small_config()).unwrap();
    assert_eq!(engine.conv_layers.len(), 1);
    let conv = &engine.conv_layers[0];
    assert_eq!((conv.out_ch, conv.in_ch, conv.k, conv.stride), (2, 1, 3, 2));
    assert!(conv.ln.is_none());
    assert_eq!(single(&conv.b), vec![1.0, 1.0]);
    assert_eq!((engine.feat_proj.out, engine.feat_proj.inn), (4, 2));
    assert_eq!((engine.pos_conv.k, engine.pos_conv.groups, engine.pos_conv.group_width), (3, 2, 2));
    assert_eq!(single(&engine.pos_conv.directions)[0], 7.0);
    assert_eq!(engine.layers.len(), 1);
    assert_eq!((engine.n_heads, engine.head_dim), (2, 2));
    assert_eq!((engine.layers[0].ff_inter.out, engine.layers[0].ff_out.out), (3, 4));
    assert_eq!((engine.lm_head.out, engine.lm_head.inn), (5, 4));
    assert_eq!(engine.config.hidden_size, 4);
}

#[test]
fn an_engine_holds_the_numbers_of_a_checkpoint() {
    let model = small_model();
    let list: Vec<(&str, &[usize])> =
        model.iter().map(|(n, s)| (n.as_str(), s.as_slice())).collect();
    let tensors = load_safetensors(&checkpoint(&list)).unwrap();
    let engine: CpuEngine<i64> = CpuEngine::load(&tensors, small_config(), 9).unwrap();
    assert!(engine.check());
    let bits = |v: f32| v.to_bits() as i64;
    assert_eq!(engine.convs[0].b, vec![bits(1.0), bits(1.0)]);
    assert_eq!(engine.convs[0].shape.stride, 2);
    assert_eq!(engine.feat_ln.eps, 9);
    assert_eq!(engine.feat.w, vec![bits(4.0); 8]);
    assert_eq!(engine.pos.b, vec![bits(8.0); 4]);
    assert_eq!((engine.pos.k, engine.pos.width, engine.pos.w.len()), (3, 2, 24));
    assert_eq!(engine.blocks.len(), 1);
    assert_eq!(engine.blocks[0].ln_attn.w, vec![bits(13.0); 4]);
    assert_eq!((engine.n_heads, engine.head_dim), (2, 2));
    assert_eq!(engine.lm_head.b, vec![bits(12.0); 5]);
    assert_eq!(engine.config.vocab_size, 5);
    let missing: Result<CpuEngine<i64>, LoadError> =
        CpuEngine::load(&load_safetensors(&checkpoint(&list[1..])).unwrap(), small_config(), 9);
    assert!(matches!(missing, Err(LoadError::Missing { .. })));
}

#[test]
fn a_convolution_may_be_normalised() {
    let mut model = small_model();
    model.push((format!("{CONV}.layer_norm.weight"), vec![2]));
    assert!(matches!(
        load(&model, small_config()),
        Err(LoadError::Missing { name }) if name == format!("{CONV}.layer_norm.bias")
    ));
    model.push((format!("{CONV}.layer_norm.bias"), vec![2]));
    assert!(load(&model, small_config()).unwrap().conv_layers[0].ln.is_some());
}

#[test]
fn one_gain_serves_all_taps() {
    let model = reshaped(&format!("{POS}.parametrizations.weight.original0"), &[1]);
    let engine = load(&model, small_config()).unwrap();
    assert_eq!(engine.pos_conv.gains.len(), 1);
    let model = reshaped(&format!("{POS}.parametrizations.weight.original0"), &[2]);
    assert!(matches!(
        load(&model, small_config()),
        Err(LoadError::PosConvGains { len: 2 })
    ));
}

#[test]
fn missing_tensors_are_named() {
    for (name, _) in small_model() {
        match load(&without(&name), small_config()) {
            Err(LoadError::Missing { name: missing }) => assert_eq!(missing, name),
            other => panic!("{name}: {other:?}"),
        }
    }
}

#[test]
fn shapes_must_fit() {
    assert!(matches!(
        load(&reshaped("lm_head.weight", &[20]), small_config()),
        Err(LoadError::NotAMatrix { prefix, shape }) if prefix == "lm_head" && shape == vec![20]
    ));
    assert!(matches!(
        load(&reshaped("lm_head.bias", &[4]), small_config()),
        Err(LoadError::SizeMismatch { prefix }) if prefix == "lm_head"
    ));
    assert!(matches!(
        load(&reshaped(&format!("{CONV}.conv.weight"), &[2, 3]), small_config()),
        Err(LoadError::ConvShape { layer: 0, shape }) if shape == vec![2, 3]
    ));
    let directions = format!("{POS}.parametrizations.weight.original1");
    assert!(matches!(
        load(&reshaped(&directions, &[4, 2, 2]), small_config()),
        Err(LoadError::PosConvLen { len: 16 })
    ));
}

#[test]
fn configurations_must_fit() {
    let mut config = small_config();
    config.conv_stride = vec![];
    assert!(matches!(load(&small_model(), config), Err(LoadError::NoStride { layer: 0 })));
    let mut config = small_config();
    config.num_conv_pos_embedding_groups = 0;
    assert!(matches!(load(&small_model(), config), Err(LoadError::NoGroups)));
    let mut config = small_config();
    config.num_attention_heads = 0;
    assert!(matches!(load(&small_model(), config), Err(LoadError::NoHeads)));
}

#[test]
fn elements_must_be_numbers() {
    let header = "{\"lm\":{\"dtype\":\"F32\",\"shape\":[0],\"data_offsets\":[0,0]},\
                  \"wav2vec2.feature_projection.layer_norm.weight\":\
                  {\"dtype\":\"U8\",\"shape\":[1],\"data_offsets\":[0,1]}}";
    let mut file: Vec<u8> = (header.len() as u64).to_le_bytes().to_vec();
    file.extend_from_slice(header.as_bytes());
    file.push(0);
    let mut config = small_config();
    config.conv_dim = vec![];
    let tensors = load_safetensors(&Bytes::from(file)).unwrap();
    assert!(matches!(
        Checkpoint::load(&tensors, config),
        Err(LoadError::UnsupportedDtype { dtype: Dtype::U8 })
    ));
}
