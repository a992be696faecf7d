use metal_llm_kernels::args::{derived_path, parse_arg, replace_text, same_text};
use metal_llm_kernels::launch::{
    matrix_bytes, plan_attention, plan_flash_attention, plan_product, plan_tiled_product, Extent,
    LaunchError,
};

fn args(words: &[&str]) -> Vec<String> {
    words.iter().map(|w| w.to_string()).collect()
}

fn extent(width: usize, height: usize, depth: usize) -> Extent {
    Extent { width, height, depth }
}

#[test]
fn flags_and_their_values() {
    let a = args(&["prog", "--input", "a.safetensors", "--output", "b", "--input", "c"]);
    assert_eq!(parse_arg(&a, "--input"), Some("a.safetensors".to_string()));
    assert_eq!(parse_arg(&a, "--output"), Some("b".to_string()));
    assert_eq!(parse_arg(&a, "--missing"), None);
    assert_eq!(parse_arg(&a, "c"), None);
    assert_eq!(parse_arg(&[], "--input"), None);
    // The first flag counts, even where it is itself a value.
    assert_eq!(parse_arg(&args(&["--x", "--x", "y"]), "--x"), Some("--x".to_string()));
}

#[test]
fn texts_compare_by_characters() {
    assert!(same_text("", ""));
    assert!(same_text("na\u{ef}ve", "na\u{ef}ve"));
    assert!(!same_text("naive", "na\u{ef}ve"));
    assert!(!same_text("abc", "abd"));
    assert!(!same_text("abc", "ab"));
}

#[test]
fn derived_paths() {
    assert_eq!(
        derived_path("bench/gemm_inputs.safetensors", "_q4.base"),
        "bench/gemm_inputs_q4.base"
    );
    assert_eq!(derived_path("silu.safetensors", "_gate_q4.base"), "silu_gate_q4.base");
    assert_eq!(derived_path("plain.bin", "_q4.base"), "plain.bin");
    assert_eq!(derived_path("a.safetensors/b.safetensors", "!"), "a!/b!");
}

#[test]
fn replacement_agrees_with_std() {
    for (text, pattern, with) in [
        ("aaaa", "aa", "b"),
        ("aaa", "aa", "aa"),
        ("", "x", "y"),
        ("abcabc", "abc", ""),
        ("\u{e9}t\u{e9}", "\u{e9}", "ee"),
        ("short", "longer pattern", "z"),
    ] {
        assert_eq!(replace_text(text, pattern, with), text.replace(pattern, with));
    }
}

#[test]
fn product_plans() {
    let gemv = plan_product(4096, 4096, 1);
    assert_eq!(gemv.weight_bytes, 67_108_864);
    assert_eq!(gemv.input_bytes, 16_384);
    assert_eq!(gemv.output_bytes, 16_384);
    assert_eq!(gemv.launch.threadgroups, extent(16, 1, 1));
    assert_eq!(gemv.launch.threads_per_threadgroup, extent(256, 1, 1));

    let gemm = plan_product(4096, 2048, 128);
    assert_eq!(gemm.weight_bytes, 33_554_432);
    assert_eq!(gemm.input_bytes, 1_048_576);
    assert_eq!(gemm.output_bytes, 2_097_152);
    assert_eq!(gemm.launch.threadgroups, extent(16, 128, 1));
    assert_eq!(gemm.launch.threads_per_threadgroup, extent(256, 1, 1));
    assert_eq!(gemm.launch.threadgroups.width * gemm.launch.threads_per_threadgroup.width, 4096);

    assert_eq!(matrix_bytes(3, 5), 60);
}

#[test]
fn tiled_plans() {
    assert_eq!(plan_tiled_product(4096, 4096), Ok(plan_product(4096, 4096, 1)));
    assert_eq!(plan_tiled_product(4096, 4095), Err(LaunchError::PartialTile));
    assert_eq!(plan_tiled_product(4096, 0), Ok(plan_product(4096, 0, 1)));
}

#[test]
fn attention_plans() {
    let plan = plan_attention(128, 64);
    assert_eq!(plan.tensor_bytes, 32_768);
    assert_eq!(plan.scores_bytes, 65_536);
    assert_eq!(plan.scores.threadgroups, extent(8, 8, 1));
    assert_eq!(plan.scores.threads_per_threadgroup, extent(16, 16, 1));
    assert_eq!(plan.softmax.threadgroups, extent(1, 1, 1));
    assert_eq!(plan.softmax.threads_per_threadgroup, extent(128, 1, 1));
    assert_eq!(plan.weighted_sum.threadgroups, extent(4, 8, 1));
    assert_eq!(plan.weighted_sum.threads_per_threadgroup, extent(16, 16, 1));
}

#[test]
fn flash_plans() {
    let plan = plan_flash_attention(128, 128, 4).unwrap();
    assert_eq!(plan.tensor_bytes, 65_536);
    assert_eq!(plan.launch.threadgroups, extent(32, 1, 1));
    assert_eq!(plan.launch.threads_per_threadgroup, extent(512, 1, 1));
    assert_eq!(32 * 512, 128 * 128);
    assert_eq!(plan_flash_attention(130, 128, 4), Err(LaunchError::PartialBlock));
}
