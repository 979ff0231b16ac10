use ctc_forced_aligner_rs::audio::{
    full_scale, mix_channels, plan_audio, AudioError, AudioPlan, WavHeader,
};
use ctc_forced_aligner_rs::config::{
    default_conv_dim, default_conv_kernel, default_conv_stride, default_feat_extract_norm,
    default_hidden_size, default_intermediate_size, default_num_attention_heads,
    default_num_conv_pos_embedding_groups, default_num_conv_pos_embeddings,
    default_num_hidden_layers, default_true, default_vocab_size, effective_split, AlignOptions,
    ModelConfig, SAMPLE_RATE,
};
use ctc_forced_aligner_rs::device::{
    parse_device, CudaState, CudaUnavailable, DeviceError, DeviceRequest, ModelOptions,
    ResolvedBackend,
};

#[test]
fn model_defaults() {
    assert_eq!(default_hidden_size(), 1024);
    assert_eq!(default_num_hidden_layers(), 24);
    assert_eq!(default_num_attention_heads(), 16);
    assert_eq!(default_intermediate_size(), 4096);
    assert_eq!(default_vocab_size(), 37);
    assert_eq!(default_conv_dim(), vec![512; 7]);
    assert_eq!(default_conv_kernel(), vec![10, 3, 3, 3, 3, 2, 2]);
    assert_eq!(default_conv_stride(), vec![5, 2, 2, 2, 2, 2, 2]);
    assert!(default_true());
    assert_eq!(default_feat_extract_norm(), "layer");
    assert_eq!(default_num_conv_pos_embeddings(), 128);
    assert_eq!(default_num_conv_pos_embedding_groups(), 16);
    assert_eq!(SAMPLE_RATE, 16_000);
}

#[test]
fn head_width() {
    let config = ModelConfig {
        hidden_size: default_hidden_size(),
        num_hidden_layers: default_num_hidden_layers(),
        num_attention_heads: default_num_attention_heads(),
        intermediate_size: default_intermediate_size(),
        vocab_size: default_vocab_size(),
        conv_dim: default_conv_dim(),
        conv_kernel: default_conv_kernel(),
        conv_stride: default_conv_stride(),
        conv_bias: default_true(),
        do_stable_layer_norm: default_true(),
        feat_extract_norm: default_feat_extract_norm(),
        num_conv_pos_embeddings: default_num_conv_pos_embeddings(),
        num_conv_pos_embedding_groups: default_num_conv_pos_embedding_groups(),
        pad_token_id: None,
    };
    assert_eq!(config.head_dim(), 64);
}

#[test]
fn alignment_defaults() {
    let options = AlignOptions::default();
    assert_eq!((options.window, options.context, options.context_frames), (480_000, 32_000, 100));
    assert_eq!(options.batch_size, 4);
    assert_eq!(options.language, "eng");
    assert_eq!(options.split_size, "word");
    assert_eq!(options.star_frequency, "edges");
    assert!(options.romanize);
    assert_eq!(AlignOptions::for_language("cmn".to_string()).language, "cmn");
}

#[test]
fn japanese_and_chinese_go_by_characters() {
    assert_eq!(effective_split("eng", "word"), "word");
    assert_eq!(effective_split("eng", "auto"), "word");
    assert_eq!(effective_split("eng", "char"), "char");
    assert_eq!(effective_split("jpn", "word"), "char");
    assert_eq!(effective_split("chi", "auto"), "char");
}

#[test]
fn device_names() {
    assert_eq!(parse_device(" AUTO ").unwrap(), DeviceRequest::Auto);
    assert_eq!(parse_device("cpu").unwrap(), DeviceRequest::Cpu);
    assert_eq!(parse_device("Cuda").unwrap(), DeviceRequest::Cuda(0));
    assert_eq!(parse_device("cuda:12\n").unwrap(), DeviceRequest::Cuda(12));
    match parse_device("cuda:x") {
        Err(DeviceError::InvalidOrdinal { ordinal }) => assert_eq!(ordinal, "x"),
        other => panic!("{other:?}"),
    }
    assert!(matches!(parse_device("cuda:"), Err(DeviceError::InvalidOrdinal { .. })));
    assert!(matches!(
        parse_device("cuda:99999999999999999999999"),
        Err(DeviceError::InvalidOrdinal { .. })
    ));
    match parse_device(" GPU") {
        Err(DeviceError::Unknown { name }) => assert_eq!(name, "gpu"),
        other => panic!("{other:?}"),
    }
}

#[test]
fn only_a_named_device_can_be_missing() {
    let state = CudaState { ordinal: 3 };
    assert_eq!(ModelOptions::default().device, DeviceRequest::Auto);
    assert_eq!(DeviceRequest::Auto.to_probe(), Some(0));
    assert_eq!(DeviceRequest::Cpu.to_probe(), None);
    assert_eq!(DeviceRequest::Cuda(3).to_probe(), Some(3));
    assert_eq!(DeviceRequest::Auto.resolve(None), Ok(ResolvedBackend::Cpu));
    assert_eq!(DeviceRequest::Auto.resolve(Some(state)), Ok(ResolvedBackend::Cuda(state)));
    assert_eq!(DeviceRequest::Cpu.resolve(Some(state)), Ok(ResolvedBackend::Cpu));
    assert_eq!(DeviceRequest::Cuda(3).resolve(Some(state)), Ok(ResolvedBackend::Cuda(state)));
    assert_eq!(DeviceRequest::Cuda(3).resolve(None), Err(CudaUnavailable { ordinal: 3 }));
    assert_eq!(ResolvedBackend::Cpu.tag(), "cpu");
    assert_eq!(ResolvedBackend::Cuda(state).tag(), "cuda");
}

#[test]
fn audio_is_read_mixed_or_converted() {
    let header = |sample_rate, channels| Some(WavHeader { sample_rate, channels });
    assert_eq!(plan_audio(header(16_000, 1), false), Ok(AudioPlan::Read));
    assert_eq!(plan_audio(header(16_000, 2), false), Ok(AudioPlan::Mix { channels: 2 }));
    assert_eq!(plan_audio(header(44_100, 1), false), Ok(AudioPlan::Convert));
    assert_eq!(plan_audio(None, false), Ok(AudioPlan::Convert));
    assert_eq!(plan_audio(header(16_000, 0), false), Err(AudioError::NoChannels));
    assert_eq!(plan_audio(None, true), Err(AudioError::NotWav));
    assert_eq!(
        plan_audio(header(44_100, 1), true),
        Err(AudioError::WrongRate { sample_rate: 44_100 })
    );
}

#[test]
fn full_scale_by_bits() {
    assert_eq!(full_scale(16), 32_768);
    assert_eq!(full_scale(8), 128);
    assert_eq!(full_scale(24), 8_388_608);
    assert_eq!(full_scale(1), 1);
    assert_eq!(full_scale(0), 1);
    assert_eq!(full_scale(63), 1i64 << 62);
    assert_eq!(full_scale(64), 1i64 << 63);
}

#[test]
fn channels_are_averaged() {
    let samples: Vec<i64> = vec![1, 3, -4, -5, 50, 60, 7];
    assert_eq!(mix_channels(&samples, 2), vec![2, -5, 55]);
    assert_eq!(mix_channels(&samples, 3), vec![0, 35]);
    assert_eq!(mix_channels(&samples[..1], 2), Vec::<i64>::new());
}
