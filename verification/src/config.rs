//! Settings.
//!
//! A setting is a text, or nothing where it was not made. Words are compared without white
//! space around them and without regard to the case of ASCII letters.

use vstd::prelude::*;

use crate::mps_kernel::MpsTwoQKernelMode;
use crate::mps_routing::MpsRoutingMode;
use crate::terminal::TerminalSamplingMode;
use crate::text::{parse_usize, parsed_usize, same_text, to_word, trim_text, trimmed, word_form};

verus! {

/// From how many qubits on one-qubit gates may use vector instructions.
pub const DEFAULT_SIMD_MIN_QUBITS: usize = 12;

/// From how many qubits on gates with several controls use their own kernels.
pub const DEFAULT_MULTI_CONTROL_KERNEL_MIN_QUBITS: usize = 8;

/// Up to how many shots product states are permuted by the fast kernels.
pub const DEFAULT_PRODUCT_PERMUTATION_FAST_MAX_SHOTS: usize = 128;

/// From how much work on dense gates use the fast kernels.
pub const DEFAULT_DENSE_FAST_MIN_WORK_ITEMS: usize = 4;

/// How many two-qubit gates routing looks ahead.
pub const DEFAULT_LOOKAHEAD_DEPTH: usize = 8;

/// Whether a word asks for vector instructions.
pub open spec fn is_simd_word(word: Seq<char>) -> bool {
    ||| word == "1"@
    ||| word == "true"@
    ||| word == "yes"@
    ||| word == "on"@
    ||| word == "auto"@
    ||| word == "avx"@
    ||| word == "avx2"@
    ||| word == "force"@
    ||| word == "always"@
}

/// Whether a word asks for vector instructions.
pub fn matches_simd_word(word: &str) -> (r: bool)
    ensures
        r == is_simd_word(word@),
{
    same_text(word, "1")
        || same_text(word, "true")
        || same_text(word, "yes")
        || same_text(word, "on")
        || same_text(word, "auto")
        || same_text(word, "avx")
        || same_text(word, "avx2")
        || same_text(word, "force")
        || same_text(word, "always")
}

/// Whether a word asks for vector instructions on every state.
pub open spec fn is_force_word(word: Seq<char>) -> bool {
    ||| word == "force"@
    ||| word == "always"@
}

/// Whether a word asks for vector instructions on every state.
pub fn matches_force_word(word: &str) -> (r: bool)
    ensures
        r == is_force_word(word@),
{
    same_text(word, "force")
        || same_text(word, "always")
}

/// Whether a word asks for the specialised kernels.
pub open spec fn is_kernel_word(word: Seq<char>) -> bool {
    ||| word == "1"@
    ||| word == "true"@
    ||| word == "yes"@
    ||| word == "on"@
    ||| word == "auto"@
    ||| word == "force"@
    ||| word == "always"@
}

/// Whether a word asks for the specialised kernels.
pub fn matches_kernel_word(word: &str) -> (r: bool)
    ensures
        r == is_kernel_word(word@),
{
    same_text(word, "1")
        || same_text(word, "true")
        || same_text(word, "yes")
        || same_text(word, "on")
        || same_text(word, "auto")
        || same_text(word, "force")
        || same_text(word, "always")
}

/// Whether a word asks for the removal of qubits that cannot influence the counts.
pub open spec fn is_truncation_word(word: Seq<char>) -> bool {
    ||| word == "1"@
    ||| word == "true"@
    ||| word == "yes"@
    ||| word == "on"@
    ||| word == "count"@
    ||| word == "counts"@
    ||| word == "inactive"@
}

/// Whether a word asks for the removal of qubits that cannot influence the counts.
pub fn matches_truncation_word(word: &str) -> (r: bool)
    ensures
        r == is_truncation_word(word@),
{
    same_text(word, "1")
        || same_text(word, "true")
        || same_text(word, "yes")
        || same_text(word, "on")
        || same_text(word, "count")
        || same_text(word, "counts")
        || same_text(word, "inactive")
}

/// Whether a word asks for sampling of the measurements at the end of a circuit.
pub open spec fn is_branching_word(word: Seq<char>) -> bool {
    ||| word == "1"@
    ||| word == "true"@
    ||| word == "yes"@
    ||| word == "on"@
    ||| word == "terminal"@
    ||| word == "terminal_measurement"@
}

/// Whether a word asks for sampling of the measurements at the end of a circuit.
pub fn matches_branching_word(word: &str) -> (r: bool)
    ensures
        r == is_branching_word(word@),
{
    same_text(word, "1")
        || same_text(word, "true")
        || same_text(word, "yes")
        || same_text(word, "on")
        || same_text(word, "terminal")
        || same_text(word, "terminal_measurement")
}

/// Whether a word asks for lazy ordering of the qubits.
pub open spec fn is_lazy_word(word: Seq<char>) -> bool {
    ||| word == "1"@
    ||| word == "true"@
    ||| word == "yes"@
    ||| word == "on"@
    ||| word == "lazy"@
}

/// Whether a word asks for lazy ordering of the qubits.
pub fn matches_lazy_word(word: &str) -> (r: bool)
    ensures
        r == is_lazy_word(word@),
{
    same_text(word, "1")
        || same_text(word, "true")
        || same_text(word, "yes")
        || same_text(word, "on")
        || same_text(word, "lazy")
}

/// Whether a word asks for sampling of the measured qubits.
pub open spec fn is_marginal_word(word: Seq<char>) -> bool {
    ||| word == "marginal"@
    ||| word == "legacy"@
}

/// Whether a word asks for sampling of the measured qubits.
pub fn matches_marginal_word(word: &str) -> (r: bool)
    ensures
        r == is_marginal_word(word@),
{
    same_text(word, "marginal")
        || same_text(word, "legacy")
}

/// Whether a word asks for sampling of the whole state.
pub open spec fn is_full_state_word(word: Seq<char>) -> bool {
    ||| word == "full"@
    ||| word == "full_state"@
    ||| word == "basis"@
}

/// Whether a word asks for sampling of the whole state.
pub fn matches_full_state_word(word: &str) -> (r: bool)
    ensures
        r == is_full_state_word(word@),
{
    same_text(word, "full")
        || same_text(word, "full_state")
        || same_text(word, "basis")
}

/// Whether a word switches the fast kernels off.
pub open spec fn is_off_word(word: Seq<char>) -> bool {
    ||| word == "0"@
    ||| word == "false"@
    ||| word == "no"@
    ||| word == "off"@
    ||| word == "baseline"@
}

/// Whether a word switches the fast kernels off.
pub fn matches_off_word(word: &str) -> (r: bool)
    ensures
        r == is_off_word(word@),
{
    same_text(word, "0")
        || same_text(word, "false")
        || same_text(word, "no")
        || same_text(word, "off")
        || same_text(word, "baseline")
}

/// Whether a word forces the fast kernels.
pub open spec fn is_forced_word(word: Seq<char>) -> bool {
    ||| word == "1"@
    ||| word == "true"@
    ||| word == "yes"@
    ||| word == "on"@
    ||| word == "force"@
    ||| word == "forced"@
}

/// Whether a word forces the fast kernels.
pub fn matches_forced_word(word: &str) -> (r: bool)
    ensures
        r == is_forced_word(word@),
{
    same_text(word, "1")
        || same_text(word, "true")
        || same_text(word, "yes")
        || same_text(word, "on")
        || same_text(word, "force")
        || same_text(word, "forced")
}

/// Whether a word asks for routing that restores the order of the qubits.
pub open spec fn is_restore_word(word: Seq<char>) -> bool {
    ||| word == "restore"@
    ||| word == "restoring"@
    ||| word == "0"@
    ||| word == "false"@
    ||| word == "off"@
}

/// Whether a word asks for routing that restores the order of the qubits.
pub fn matches_restore_word(word: &str) -> (r: bool)
    ensures
        r == is_restore_word(word@),
{
    same_text(word, "restore")
        || same_text(word, "restoring")
        || same_text(word, "0")
        || same_text(word, "false")
        || same_text(word, "off")
}

/// Whether a word asks for routing that leaves the qubits where they are.
pub open spec fn is_lazy_routing_word(word: Seq<char>) -> bool {
    ||| word == "lazy"@
    ||| word == "1"@
    ||| word == "true"@
    ||| word == "yes"@
    ||| word == "on"@
}

/// Whether a word asks for routing that leaves the qubits where they are.
pub fn matches_lazy_routing_word(word: &str) -> (r: bool)
    ensures
        r == is_lazy_routing_word(word@),
{
    same_text(word, "lazy")
        || same_text(word, "1")
        || same_text(word, "true")
        || same_text(word, "yes")
        || same_text(word, "on")
}

/// Whether a word asks for routing that looks ahead.
pub open spec fn is_lookahead_word(word: Seq<char>) -> bool {
    ||| word == "lookahead"@
    ||| word == "look-ahead"@
    ||| word == "ahead"@
}

/// Whether a word asks for routing that looks ahead.
pub fn matches_lookahead_word(word: &str) -> (r: bool)
    ensures
        r == is_lookahead_word(word@),
{
    same_text(word, "lookahead")
        || same_text(word, "look-ahead")
        || same_text(word, "ahead")
}

/// Whether vector instructions are asked for. They are not by default.
pub fn statevector_simd_requested(value: Option<&str>) -> (r: bool)
    ensures
        r == (value is Some && is_simd_word(word_form(value->0@))),
{
    match value {
        Some(text) => matches_simd_word(to_word(text).as_str()),
        None => false,
    }
}

/// Whether vector instructions are asked for on every state.
pub fn statevector_simd_forced(value: Option<&str>) -> (r: bool)
    ensures
        r == (value is Some && is_force_word(word_form(value->0@))),
{
    match value {
        Some(text) => matches_force_word(to_word(text).as_str()),
        None => false,
    }
}

/// Whether vector instructions are used: asked for, and supported by the processor.
pub fn statevector_simd_enabled(value: Option<&str>, supported: bool) -> (r: bool)
    ensures
        r == (value is Some && is_simd_word(word_form(value->0@)) && supported),
{
    statevector_simd_requested(value) && supported
}

/// The name of the vector instructions in use.
pub fn statevector_simd_backend(enabled: bool) -> (r: Option<&'static str>)
    ensures
        enabled ==> r is Some && r->0@ == "avx"@,
        !enabled ==> r is None,
{
    if enabled {
        Some("avx")
    } else {
        None
    }
}

/// A number, or a default where it was not given or cannot be read.
pub open spec fn number_or(value: Option<Seq<char>>, default: usize) -> usize {
    match value {
        Some(text) => match parsed_usize(text) {
            Some(number) => number,
            None => default,
        },
        None => default,
    }
}

fn read_number(value: Option<&str>, default: usize) -> (r: usize)
    ensures
        r == number_or(
            match value {
                Some(text) => Some(text@),
                None => None,
            },
            default,
        ),
{
    match value {
        Some(text) => match parse_usize(text) {
            Some(number) => number,
            None => default,
        },
        None => default,
    }
}

fn read_trimmed_number(value: Option<&str>, default: usize) -> (r: usize)
    ensures
        r == number_or(
            match value {
                Some(text) => Some(trimmed(text@)),
                None => None,
            },
            default,
        ),
{
    match value {
        Some(text) => read_number(Some(trim_text(text)), default),
        None => default,
    }
}

/// From how many qubits on vector instructions are used: always where they are forced.
pub fn statevector_simd_min_qubits(simd: Option<&str>, min_qubits: Option<&str>) -> (r: usize)
    ensures
        r == if simd is Some && is_force_word(word_form(simd->0@)) {
            0
        } else {
            number_or(
                match min_qubits {
                    Some(text) => Some(text@),
                    None => None,
                },
                DEFAULT_SIMD_MIN_QUBITS,
            )
        },
{
    if statevector_simd_forced(simd) {
        return 0;
    }
    read_number(min_qubits, DEFAULT_SIMD_MIN_QUBITS)
}

/// Whether vector instructions are used on a state of `n` qubits.
pub fn statevector_simd_allowed_for_qubits(enabled: bool, min_qubits: usize, n: usize) -> (r: bool)
    ensures
        r == (enabled && n >= min_qubits),
{
    enabled && n >= min_qubits
}

/// Whether the specialised kernels are asked for. They are not by default.
pub fn statevector_two_qubit_kernels_enabled(value: Option<&str>) -> (r: bool)
    ensures
        r == (value is Some && is_kernel_word(word_form(value->0@))),
{
    match value {
        Some(text) => matches_kernel_word(to_word(text).as_str()),
        None => false,
    }
}

/// The gates that have a specialised kernel.
pub fn statevector_two_qubit_kernel_gates() -> (r: &'static str)
    ensures
        r@ == "cx,cz,cy,ch,swap,csx,crx,cry,crz,cu1,cp,cu3,cu,ccx,cswap,c3x,c3sqrtx,c4x"@,
{
    "cx,cz,cy,ch,swap,csx,crx,cry,crz,cu1,cp,cu3,cu,ccx,cswap,c3x,c3sqrtx,c4x"
}

/// From how many qubits on gates with several controls use their own kernels.
pub fn statevector_multi_control_kernel_min_qubits(value: Option<&str>) -> (r: usize)
    ensures
        r == number_or(
            match value {
                Some(text) => Some(text@),
                None => None,
            },
            DEFAULT_MULTI_CONTROL_KERNEL_MIN_QUBITS,
        ),
{
    read_number(value, DEFAULT_MULTI_CONTROL_KERNEL_MIN_QUBITS)
}

/// Which specialised kernels the state-vector simulator uses.
#[derive(Clone, Copy, Debug, PartialEq, Eq, Structural)]
pub struct KernelConfig {
    /// Whether the specialised kernels are used at all.
    pub two_qubit_kernels: bool,
    /// From how many qubits on gates with several controls use their own kernels.
    pub multi_control_min_qubits: usize,
}

/// Whether gates with several controls use their own kernels on a state of `n` qubits.
pub fn statevector_multi_control_kernels_enabled_for(config: KernelConfig, n: usize) -> (r: bool)
    ensures
        r == (config.two_qubit_kernels && n >= config.multi_control_min_qubits),
{
    config.two_qubit_kernels && n >= config.multi_control_min_qubits
}

/// Whether the removal of qubits that cannot influence the counts is asked for.
pub fn statevector_qubit_truncation_enabled(value: Option<&str>) -> (r: bool)
    ensures
        r == (value is Some && is_truncation_word(word_form(value->0@))),
{
    match value {
        Some(text) => matches_truncation_word(to_word(text).as_str()),
        None => false,
    }
}

/// Whether sampling of the measurements at the end of a circuit is asked for.
pub fn statevector_shot_branching_enabled(value: Option<&str>) -> (r: bool)
    ensures
        r == (value is Some && is_branching_word(word_form(value->0@))),
{
    match value {
        Some(text) => matches_branching_word(to_word(text).as_str()),
        None => false,
    }
}

/// Whether sampling of the measurements at the end of a circuit is asked for with matrix
/// product states.
pub fn mps_shot_branching_enabled(value: Option<&str>) -> (r: bool)
    ensures
        r == (value is Some && is_branching_word(word_form(value->0@))),
{
    match value {
        Some(text) => matches_branching_word(to_word(text).as_str()),
        None => false,
    }
}

/// Whether lazy ordering of the qubits is asked for.
pub fn mps_legacy_lazy_qubit_ordering_enabled(value: Option<&str>) -> (r: bool)
    ensures
        r == (value is Some && is_lazy_word(word_form(value->0@))),
{
    match value {
        Some(text) => matches_lazy_word(to_word(text).as_str()),
        None => false,
    }
}

/// The way of sampling that a word asks for.
pub open spec fn sampling_mode_of(word: Seq<char>) -> TerminalSamplingMode {
    if is_marginal_word(word) {
        TerminalSamplingMode::Marginal
    } else if is_full_state_word(word) {
        TerminalSamplingMode::FullState
    } else {
        TerminalSamplingMode::Auto
    }
}

/// The way of sampling that a word asks for.
pub fn sampling_mode_word(word: &str) -> (r: TerminalSamplingMode)
    ensures
        r == sampling_mode_of(word@),
{
    if matches_marginal_word(word) {
        TerminalSamplingMode::Marginal
    } else if matches_full_state_word(word) {
        TerminalSamplingMode::FullState
    } else {
        TerminalSamplingMode::Auto
    }
}

/// How the measurements at the end of a circuit are sampled.
pub fn statevector_shot_branching_sampling_mode(value: Option<&str>) -> (r: TerminalSamplingMode)
    ensures
        r == match value {
            Some(text) => sampling_mode_of(word_form(text@)),
            None => TerminalSamplingMode::Auto,
        },
{
    match value {
        Some(text) => sampling_mode_word(to_word(text).as_str()),
        None => TerminalSamplingMode::Auto,
    }
}

/// The use of the fast kernels that a word asks for.
pub open spec fn kernel_mode_of(word: Seq<char>) -> MpsTwoQKernelMode {
    if is_off_word(word) {
        MpsTwoQKernelMode::Off
    } else if is_forced_word(word) {
        MpsTwoQKernelMode::Force
    } else {
        MpsTwoQKernelMode::Auto
    }
}

/// The use of the fast kernels that a word asks for.
pub fn kernel_mode_word(word: &str) -> (r: MpsTwoQKernelMode)
    ensures
        r == kernel_mode_of(word@),
{
    if matches_off_word(word) {
        MpsTwoQKernelMode::Off
    } else if matches_forced_word(word) {
        MpsTwoQKernelMode::Force
    } else {
        MpsTwoQKernelMode::Auto
    }
}

/// When the fast kernels are used. The first of two settings that was made counts.
pub fn mps_two_qubit_fast_kernel_mode(value: Option<&str>, other: Option<&str>) -> (r:
    MpsTwoQKernelMode)
    ensures
        r == match (value, other) {
            (Some(text), _) => kernel_mode_of(word_form(text@)),
            (None, Some(text)) => kernel_mode_of(word_form(text@)),
            (None, None) => MpsTwoQKernelMode::Auto,
        },
{
    match (value, other) {
        (Some(text), _) => kernel_mode_word(to_word(text).as_str()),
        (None, Some(text)) => kernel_mode_word(to_word(text).as_str()),
        (None, None) => MpsTwoQKernelMode::Auto,
    }
}

/// The routing that a word asks for.
pub open spec fn routing_mode_of(word: Seq<char>) -> Option<MpsRoutingMode> {
    if is_restore_word(word) {
        Some(MpsRoutingMode::Restore)
    } else if is_lazy_routing_word(word) {
        Some(MpsRoutingMode::Lazy)
    } else if is_lookahead_word(word) {
        Some(MpsRoutingMode::Lookahead)
    } else {
        None
    }
}

/// The routing that a word asks for.
pub fn routing_mode_word(word: &str) -> (r: Option<MpsRoutingMode>)
    ensures
        r == routing_mode_of(word@),
{
    if matches_restore_word(word) {
        Some(MpsRoutingMode::Restore)
    } else if matches_lazy_routing_word(word) {
        Some(MpsRoutingMode::Lazy)
    } else if matches_lookahead_word(word) {
        Some(MpsRoutingMode::Lookahead)
    } else {
        None
    }
}

/// How qubits are brought together. Without a word that is known, the older setting for lazy
/// ordering counts.
pub fn mps_routing_mode(value: Option<&str>, legacy: Option<&str>) -> (r: MpsRoutingMode)
    ensures
        r == (match value {
            Some(text) => match routing_mode_of(word_form(text@)) {
                Some(mode) => mode,
                None => legacy_mode(legacy is Some && is_lazy_word(word_form(legacy->0@))),
            },
            None => legacy_mode(legacy is Some && is_lazy_word(word_form(legacy->0@))),
        }),
{
    match value {
        Some(text) => match routing_mode_word(to_word(text).as_str()) {
            Some(mode) => {
                return mode;
            },
            None => {},
        },
        None => {},
    }
    if mps_legacy_lazy_qubit_ordering_enabled(legacy) {
        MpsRoutingMode::Lazy
    } else {
        MpsRoutingMode::Restore
    }
}

/// The routing that the older setting stands for.
pub open spec fn legacy_mode(lazy: bool) -> MpsRoutingMode {
    if lazy {
        MpsRoutingMode::Lazy
    } else {
        MpsRoutingMode::Restore
    }
}

/// Up to how many shots product states are permuted by the fast kernels.
pub fn mps_product_permutation_fast_max_shots(value: Option<&str>) -> (r: usize)
    ensures
        r == number_or(
            match value {
                Some(text) => Some(trimmed(text@)),
                None => None,
            },
            DEFAULT_PRODUCT_PERMUTATION_FAST_MAX_SHOTS,
        ),
{
    read_trimmed_number(value, DEFAULT_PRODUCT_PERMUTATION_FAST_MAX_SHOTS)
}

/// From how much work on dense gates use the fast kernels.
pub fn mps_dense_fast_min_work_items(value: Option<&str>) -> (r: usize)
    ensures
        r == number_or(
            match value {
                Some(text) => Some(trimmed(text@)),
                None => None,
            },
            DEFAULT_DENSE_FAST_MIN_WORK_ITEMS,
        ),
{
    read_trimmed_number(value, DEFAULT_DENSE_FAST_MIN_WORK_ITEMS)
}

/// How many two-qubit gates routing looks ahead.
pub fn mps_lookahead_depth(value: Option<&str>) -> (r: usize)
    ensures
        r == number_or(
            match value {
                Some(text) => Some(trimmed(text@)),
                None => None,
            },
            DEFAULT_LOOKAHEAD_DEPTH,
        ),
{
    read_trimmed_number(value, DEFAULT_LOOKAHEAD_DEPTH)
}

} // verus!
