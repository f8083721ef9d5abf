use std::collections::HashMap;

use dqsim::circuit::{format_cbits, read_cbit, Circuit, Register};
use dqsim::codecs::{
    mps_option_key, parse_distributed_mode, parse_max_bond_dimension, parse_monolithic_mode,
    parse_mps_options, parse_truncation_threshold, reject_monolithic_options,
    DistributedSimulationMode, MonolithicSimulationMode, MpsOptionKey, OptionError, OptionValue,
};
use dqsim::config::{
    mps_dense_fast_min_work_items, mps_legacy_lazy_qubit_ordering_enabled, mps_lookahead_depth,
    mps_product_permutation_fast_max_shots, mps_routing_mode, mps_shot_branching_enabled,
    mps_two_qubit_fast_kernel_mode, statevector_multi_control_kernel_min_qubits,
    statevector_multi_control_kernels_enabled_for, statevector_qubit_truncation_enabled,
    statevector_shot_branching_enabled, statevector_shot_branching_sampling_mode,
    statevector_simd_allowed_for_qubits, statevector_simd_backend, statevector_simd_enabled,
    statevector_simd_forced, statevector_simd_min_qubits, statevector_simd_requested,
    statevector_two_qubit_kernel_gates, statevector_two_qubit_kernels_enabled, KernelConfig,
};
use dqsim::counts::{merge_counts, Counts};
use dqsim::gate_error::{remote_gate, remote_gate_named, GateError, RemoteGate};
use dqsim::mps_kernel::MpsTwoQKernelMode;
use dqsim::mps_routing::MpsRoutingMode;
use dqsim::profiling::{profile_file_name, sanitize};
use dqsim::terminal::TerminalSamplingMode;
use dqsim::text::{
    format_binary, has_prefix, parse_usize, push_decimal, push_signed_decimal, same_text, to_word,
    underscore_text,
};
use num_complex::Complex64;

fn re(value: f64) -> Complex64 {
    Complex64::new(value, 0.0)
}

#[test]
fn words_are_compared_without_space_and_case() {
    assert_eq!(to_word("  Auto\t\n"), "auto");
    assert_eq!(to_word("\u{a0}\u{c4}B "), "\u{c4}b");
    assert!(same_text("a", "a"));
    assert!(!same_text("a", "A"));
    assert!(has_prefix("circuit-3", "circuit-"));
    assert!(!has_prefix("circuit", "circuit-"));
    assert_eq!(underscore_text("a-b-"), "a_b_");
}

#[test]
fn numbers_are_written_and_read() {
    let mut out = String::new();
    push_decimal(&mut out, 0);
    push_decimal(&mut out, u64::MAX);
    assert_eq!(out, "018446744073709551615");
    let mut out = String::new();
    push_signed_decimal(&mut out, i32::MIN);
    push_signed_decimal(&mut out, 7);
    assert_eq!(out, "-21474836487");
    assert_eq!(format_binary(5, 4), "0101");
    assert_eq!(format_binary(0, 0), "0");
    assert_eq!(parse_usize("42"), Some(42));
    assert_eq!(parse_usize("+7"), Some(7));
    assert_eq!(parse_usize(""), None);
    assert_eq!(parse_usize("-1"), None);
    assert_eq!(parse_usize("1 "), None);
    assert_eq!(parse_usize("99999999999999999999999"), None);
}

#[test]
fn bits_are_written_highest_first() {
    let mut cbits: HashMap<usize, i32> = HashMap::new();
    cbits.insert(0, 1);
    cbits.insert(2, 1);
    cbits.insert(9, 1);
    assert_eq!(format_cbits(&cbits, 3), "101");
    assert_eq!(format_cbits(&cbits, 4), "0101");
    assert_eq!(format_cbits(&cbits, 0), "");
    assert_eq!(read_cbit(&cbits, 2), 1);
    assert_eq!(read_cbit(&cbits, 1), 0);
}

#[test]
fn registers_end_where_the_furthest_does() {
    let reg = |size: usize, base: usize| Register { name: "r".to_string(), size, base };
    let c = Circuit {
        qregs: vec![reg(2, 3), reg(1, 0)],
        cregs: vec![],
        instructions: vec![],
    };
    assert_eq!(c.num_qubits(), 5);
    assert_eq!(c.num_cbits(), 0);
}

#[test]
fn counts_add_up() {
    let mut a = Counts::new();
    a.add("0".to_string(), 2);
    a.add("1".to_string(), 1);
    a.add("0".to_string(), 3);
    assert_eq!(a.len(), 2);
    assert_eq!(a.get("0"), Some(&5));
    assert_eq!(a.get("2"), None);
    let mut b = Counts::new();
    b.add("2".to_string(), 4);
    b.add("1".to_string(), 1);
    merge_counts(&mut a, &b);
    assert_eq!(a.get("1"), Some(&2));
    assert_eq!(a.get("2"), Some(&4));
}

#[test]
fn monolithic_modes_have_several_names() {
    for name in ["state_vector", " StateVector ", "SV", "state-vector"] {
        assert_eq!(parse_monolithic_mode(name), Ok(MonolithicSimulationMode::StateVector));
    }
    assert_eq!(
        parse_monolithic_mode("matrix-product-state"),
        Ok(MonolithicSimulationMode::Mps)
    );
    assert_eq!(parse_monolithic_mode("stab"), Ok(MonolithicSimulationMode::Stabilizer));
    assert_eq!(
        parse_monolithic_mode("Te-st"),
        Err("Unsupported monolithic simulation mode \"te_st\"; expected 'state_vector' or 'mps'"
            .to_string())
    );
}

#[test]
fn distributed_modes() {
    assert_eq!(parse_distributed_mode("P-Block"), Ok(DistributedSimulationMode::PBlock));
    assert_eq!(
        parse_distributed_mode("x\"y"),
        Err("Unsupported distributed simulation mode \"x\\\"y\"; expected 'p_block'".to_string())
    );
}

#[test]
fn options_are_read() {
    assert_eq!(mps_option_key("max_bond_dimension"), Some(MpsOptionKey::MaxBondDimension));
    assert_eq!(mps_option_key("bond"), None);
    let read = parse_mps_options(&vec![
        ("truncation_threshold".to_string(), OptionValue::Number(re(0.5))),
        ("max_bond_dimension".to_string(), OptionValue::Count(8)),
    ])
    .ok()
    .unwrap();
    assert_eq!(read.max_bond_dimension, Some(8));
    assert_eq!(read.truncation_threshold, re(0.5));
    let read = parse_mps_options(&vec![]).ok().unwrap();
    assert_eq!(read.max_bond_dimension, None);
    assert_eq!(read.truncation_threshold, re(1e-12));
}

#[test]
fn bad_options_are_errors() {
    let text = |r: Result<Option<usize>, OptionError>| r.err().unwrap().message();
    assert_eq!(
        text(parse_max_bond_dimension(&OptionValue::Count(0))),
        "max_bond_dimension must be positive or None"
    );
    assert_eq!(
        text(parse_max_bond_dimension(&OptionValue::Number(re(1.0)))),
        "max_bond_dimension must be positive or None"
    );
    assert_eq!(parse_max_bond_dimension(&OptionValue::Nothing).ok().unwrap(), None);
    for bad in [re(-1.0), re(f64::NAN), re(f64::INFINITY)] {
        assert_eq!(
            parse_truncation_threshold(&OptionValue::Number(bad)).err().unwrap().message(),
            "truncation_threshold must be a finite non-negative float"
        );
    }
    assert_eq!(
        parse_truncation_threshold(&OptionValue::Nothing).err().unwrap().message(),
        "truncation_threshold must be a finite non-negative float"
    );
    assert_eq!(parse_truncation_threshold(&OptionValue::Number(re(0.0))).ok().unwrap(), re(0.0));
    for count in [0usize, 7, (1 << 30) + 5, (1 << 53) + 1, (1 << 62) - 1, usize::MAX] {
        assert_eq!(
            parse_truncation_threshold(&OptionValue::Count(count)).ok().unwrap(),
            re(count as f64)
        );
    }
    assert_eq!(
        parse_mps_options(&vec![("bond".to_string(), OptionValue::Nothing)])
            .err()
            .unwrap()
            .message(),
        "Unsupported MPS option \"bond\""
    );
}

#[test]
fn options_are_rejected_where_there_are_none() {
    assert_eq!(reject_monolithic_options(&vec![], "sv"), Ok(()));
    assert_eq!(
        reject_monolithic_options(&vec!["a".to_string(), "b".to_string()], "SV"),
        Err("Options [\"a\", \"b\"] are not supported for monolithic mode \"SV\"".to_string())
    );
}

#[test]
fn simd_settings() {
    assert!(!statevector_simd_requested(None));
    assert!(statevector_simd_requested(Some(" AVX2 ")));
    assert!(!statevector_simd_requested(Some("off")));
    assert!(statevector_simd_forced(Some("force")));
    assert!(!statevector_simd_forced(Some("1")));
    assert!(statevector_simd_enabled(Some("1"), true));
    assert!(!statevector_simd_enabled(Some("1"), false));
    assert_eq!(statevector_simd_backend(true), Some("avx"));
    assert_eq!(statevector_simd_backend(false), None);
    assert_eq!(statevector_simd_min_qubits(None, None), 12);
    assert_eq!(statevector_simd_min_qubits(None, Some("4")), 4);
    assert_eq!(statevector_simd_min_qubits(Some("always"), None), 0);
    assert!(statevector_simd_allowed_for_qubits(true, 4, 4));
    assert!(!statevector_simd_allowed_for_qubits(true, 4, 3));
    assert!(!statevector_simd_allowed_for_qubits(false, 4, 9));
}

#[test]
fn kernel_settings() {
    assert!(statevector_two_qubit_kernels_enabled(Some("on")));
    assert!(!statevector_two_qubit_kernels_enabled(Some("never")));
    assert_eq!(statevector_multi_control_kernel_min_qubits(None), 8);
    assert_eq!(statevector_multi_control_kernel_min_qubits(Some("3")), 3);
    let config = KernelConfig { two_qubit_kernels: true, multi_control_min_qubits: 8 };
    assert!(statevector_multi_control_kernels_enabled_for(config, 8));
    assert!(!statevector_multi_control_kernels_enabled_for(config, 7));
    assert!(statevector_two_qubit_kernel_gates().contains("cx"));
    assert!(statevector_qubit_truncation_enabled(Some("counts")));
    assert!(!statevector_qubit_truncation_enabled(None));
}

#[test]
fn branching_settings() {
    assert!(statevector_shot_branching_enabled(Some("Terminal")));
    assert!(!statevector_shot_branching_enabled(None));
    assert!(mps_shot_branching_enabled(Some("terminal_measurement")));
    assert!(!mps_shot_branching_enabled(Some("no")));
    assert_eq!(
        statevector_shot_branching_sampling_mode(None),
        TerminalSamplingMode::Auto
    );
    assert_eq!(
        statevector_shot_branching_sampling_mode(Some("marginal")),
        TerminalSamplingMode::Marginal
    );
}

#[test]
fn mps_settings() {
    assert_eq!(mps_two_qubit_fast_kernel_mode(None, None), MpsTwoQKernelMode::Auto);
    assert_eq!(
        mps_two_qubit_fast_kernel_mode(None, Some("baseline")),
        MpsTwoQKernelMode::Off
    );
    assert_eq!(
        mps_two_qubit_fast_kernel_mode(Some("forced"), Some("off")),
        MpsTwoQKernelMode::Force
    );
    assert_eq!(
        mps_two_qubit_fast_kernel_mode(Some("what"), Some("off")),
        MpsTwoQKernelMode::Auto
    );
    assert_eq!(mps_routing_mode(None, None), MpsRoutingMode::Restore);
    assert_eq!(mps_routing_mode(Some("look-ahead"), None), MpsRoutingMode::Lookahead);
    assert_eq!(mps_routing_mode(Some("?"), Some("lazy")), MpsRoutingMode::Lazy);
    assert_eq!(mps_routing_mode(Some("off"), Some("lazy")), MpsRoutingMode::Restore);
    assert!(mps_legacy_lazy_qubit_ordering_enabled(Some("yes")));
    assert_eq!(mps_product_permutation_fast_max_shots(Some(" 5 ")), 5);
    assert_eq!(mps_product_permutation_fast_max_shots(Some("x")), 128);
    assert_eq!(mps_dense_fast_min_work_items(None), 4);
    assert_eq!(mps_lookahead_depth(Some("0")), 0);
    assert_eq!(mps_lookahead_depth(None), 8);
}

#[test]
fn gates_between_nodes_have_names() {
    assert_eq!(remote_gate_named("Remote_EPR"), RemoteGate::PhiPlus);
    assert_eq!(remote_gate("Remote_EPR"), RemoteGate::Other);
    assert_eq!(remote_gate("nonlocal_cz"), RemoteGate::Cz);
    assert_eq!(remote_gate("circuit-1"), RemoteGate::Subcircuit);
    assert_eq!(remote_gate("remote_barrier"), RemoteGate::Barrier);
    assert_eq!(
        GateError::UnsupportedGate { name: "foo".to_string() }.message(),
        "Unsupported generic gate: \"foo\". Decompose it before simulating."
    );
}

#[test]
fn profiles_have_plain_file_names() {
    assert_eq!(sanitize("a b/c_d-9"), "a-b-c_d-9");
    assert_eq!(sanitize(&sanitize("x y")), sanitize("x y"));
    assert_eq!(profile_file_name(3, "state vector", 4, 100, 7), "003-state-vector-q4-shots100-inst7.svg");
    assert_eq!(profile_file_name(1234, "mps", 0, 0, 0), "1234-mps-q0-shots0-inst0.svg");
}
