use ctc_forced_aligner_rs::prebuilt_ptx::{
    ptx_for_sm, resolve_ptx_for_device, select_prebuilt_sm, sm_code, PtxBundle, MIN_SM,
    PREBUILT_SMS,
};

/// The kernel entry points that the CUDA engine loads.
const REQUIRED_F32_KERNELS: &[&str] = &[
    "layer_norm_f32",
    "gelu_inplace_f32",
    "add_inplace_f32",
    "add_bias_inplace_f32",
    "bias_residual_f32",
    "softmax_inplace_last_dim_f32",
    "merge_heads_f32",
    "split_qkv_to_heads_f32",
    "im2col_1d_f32",
    "im2col_1d_ch_f32",
    "pad_time_f32",
    "add_bias_gelu_inplace_f32",
    "scatter_group_bias_gelu_f32",
    "split_qkv_to_heads_batched_f32",
    "merge_heads_batched_f32",
];

/// A module of empty kernels for one capability.
fn module(sm: u32) -> String {
    let mut text = format!(".version 6.0\n.target sm_{sm}\n.address_size 64\n");
    for name in REQUIRED_F32_KERNELS {
        text.push_str(&format!(".visible .entry {name}() {{ ret; }}\n"));
    }
    text
}

fn bundle() -> PtxBundle {
    PtxBundle {
        sm61: module(61),
        sm70: module(70),
        sm75: module(75),
        sm80: module(80),
        sm86: module(86),
        sm89: module(89),
        sm90: module(90),
    }
}

#[test]
fn selects_exact_and_floor() {
    assert_eq!(select_prebuilt_sm(61), Some(61));
    assert_eq!(select_prebuilt_sm(86), Some(86));
    assert_eq!(select_prebuilt_sm(87), Some(86));
    assert_eq!(select_prebuilt_sm(100), Some(90));
}

#[test]
fn rejects_below_minimum() {
    assert_eq!(select_prebuilt_sm(60), None);
    assert!(resolve_ptx_for_device(5, 0, &bundle()).is_err());
}

#[test]
fn embeds_nonempty_ptx() {
    let bundle = bundle();
    for &sm in PREBUILT_SMS.iter() {
        let ptx = ptx_for_sm(sm, &bundle).expect("missing PTX");
        assert!(
            ptx.len() > 100 && ptx.contains(".version"),
            "PTX sm_{sm} invalid (len={})",
            ptx.len()
        );
    }
}

#[test]
fn prebuilt_ptx_contains_all_loaded_f32_kernels() {
    let bundle = bundle();
    for &sm in PREBUILT_SMS.iter() {
        let ptx = ptx_for_sm(sm, &bundle).expect("missing PTX");
        for &name in REQUIRED_F32_KERNELS {
            let entry = format!(".visible .entry {name}(");
            assert!(
                ptx.contains(&entry),
                "PTX sm_{sm} missing kernel {name}; re-run scripts/compile-ptx.ps1"
            );
        }
    }
}

#[test]
fn capability_codes() {
    assert_eq!(sm_code(8, 6), 86);
    assert_eq!(sm_code(0, 0), 0);
    assert_eq!(PREBUILT_SMS[0], MIN_SM);
    assert_eq!(ptx_for_sm(62, &bundle()), None);
}

#[test]
fn every_device_gets_its_own_module() {
    let bundle = bundle();
    let (text, sm) = resolve_ptx_for_device(8, 7, &bundle).unwrap();
    assert_eq!(sm, 86);
    assert!(text.contains("sm_86"));
    let (text, sm) = resolve_ptx_for_device(12, 0, &bundle).unwrap();
    assert_eq!(sm, 90);
    assert!(text.contains("sm_90"));
    let message = resolve_ptx_for_device(6, 0, &bundle).unwrap_err();
    assert!(message.contains("60"));
}
