//! Gates that cannot be simulated.

use vstd::prelude::*;

use crate::text::{has_prefix, lower_text, lowercased, push_text, quote_text, quoted, same_text};

verus! {

/// Why an instruction cannot be simulated.
pub enum GateError {
    /// A symbolic gate between nodes.
    SymbolicRemoteCu1,
    /// A subcircuit that is known by name only.
    OpaqueSubcircuit { name: String },
    /// A gate that the state-vector simulator does not know.
    UnsupportedGate { name: String },
    /// A gate that the simulator with matrix product states does not know.
    UnsupportedByMps { name: String },
    /// A gate on more than two qubits.
    TooManyQubits,
    /// A pair of tensors is too large to be merged.
    TooLarge,
    /// A pair of tensors holds a number whose parts are too large together, or not finite, or
    /// its decomposition does not come out in numbers.
    NotFinite,
    /// A decomposition did not return its left factor.
    NoLeftFactor,
    /// A decomposition did not return its right factor.
    NoRightFactor,
}

impl GateError {
    /// The text of the error.
    pub open spec fn text(self) -> Seq<char> {
        match self {
            GateError::SymbolicRemoteCu1 =>
                "Symbolic 'remote_cu1' cannot be simulated natively. Distribute with lowered=True."@,
            GateError::OpaqueSubcircuit { name } => "Opaque symbolic subcircuit "@ + quoted(name@)
                + " cannot be simulated natively. Distribute with lowered=True."@,
            GateError::UnsupportedGate { name } => "Unsupported generic gate: "@ + quoted(name@)
                + ". Decompose it before simulating."@,
            GateError::UnsupportedByMps { name } => "MPS simulator does not support generic gate "@
                + quoted(name@),
            GateError::TooManyQubits =>
                "MPS simulator only supports one- and two-qubit unitary gates plus measurement, reset, and conditionals"@,
            GateError::TooLarge => "MPS tensor is too large"@,
            GateError::NotFinite => "MPS tensor is not finite"@,
            GateError::NoLeftFactor => "MPS SVD did not return U"@,
            GateError::NoRightFactor => "MPS SVD did not return Vt"@,
        }
    }

    /// The text of the error.
    pub fn message(&self) -> (r: String)
        ensures
            r@ == self.text(),
    {
        let mut out: String = String::new();
        match self {
            GateError::SymbolicRemoteCu1 => {
                push_text(
                    &mut out,
                    "Symbolic 'remote_cu1' cannot be simulated natively. Distribute with lowered=True.",
                );
            },
            GateError::OpaqueSubcircuit { name } => {
                push_text(&mut out, "Opaque symbolic subcircuit ");
                push_text(&mut out, quote_text(name.as_str()).as_str());
                push_text(
                    &mut out,
                    " cannot be simulated natively. Distribute with lowered=True.",
                );
            },
            GateError::UnsupportedGate { name } => {
                push_text(&mut out, "Unsupported generic gate: ");
                push_text(&mut out, quote_text(name.as_str()).as_str());
                push_text(&mut out, ". Decompose it before simulating.");
            },
            GateError::UnsupportedByMps { name } => {
                push_text(&mut out, "MPS simulator does not support generic gate ");
                push_text(&mut out, quote_text(name.as_str()).as_str());
            },
            GateError::TooManyQubits => {
                push_text(
                    &mut out,
                    "MPS simulator only supports one- and two-qubit unitary gates plus measurement, reset, and conditionals",
                );
            },
            GateError::TooLarge => {
                push_text(&mut out, "MPS tensor is too large");
            },
            GateError::NotFinite => {
                push_text(&mut out, "MPS tensor is not finite");
            },
            GateError::NoLeftFactor => {
                push_text(&mut out, "MPS SVD did not return U");
            },
            GateError::NoRightFactor => {
                push_text(&mut out, "MPS SVD did not return Vt");
            },
        }
        assert(out@ =~= self.text());
        out
    }
}

/// What a named gate between nodes does.
#[derive(Clone, Copy, Debug, PartialEq, Eq, Structural)]
pub enum RemoteGate {
    PhiPlus,
    PsiMinus,
    PsiPlus,
    Cz,
    Cx,
    Barrier,
    Cu1,
    Subcircuit,
    Other,
}

/// What a gate with a given name in lower case does.
pub open spec fn remote_gate_of(name: Seq<char>) -> RemoteGate {
    if name == "remote_link_phi_plus"@ || name == "remote_epr"@ {
        RemoteGate::PhiPlus
    } else if name == "remote_link_psi_minus"@ {
        RemoteGate::PsiMinus
    } else if name == "remote_link_psi_plus"@ {
        RemoteGate::PsiPlus
    } else if name == "nonlocal_cz"@ || name == "remote_cz"@ {
        RemoteGate::Cz
    } else if name == "remote_cx"@ {
        RemoteGate::Cx
    } else if name == "remote_barrier"@ {
        RemoteGate::Barrier
    } else if name == "remote_cu1"@ {
        RemoteGate::Cu1
    } else if "circuit-"@.is_prefix_of(name) {
        RemoteGate::Subcircuit
    } else {
        RemoteGate::Other
    }
}

/// What a gate with a given name in lower case does.
pub fn remote_gate(name: &str) -> (r: RemoteGate)
    ensures
        r == remote_gate_of(name@),
{
    if same_text(name, "remote_link_phi_plus") || same_text(name, "remote_epr") {
        RemoteGate::PhiPlus
    } else if same_text(name, "remote_link_psi_minus") {
        RemoteGate::PsiMinus
    } else if same_text(name, "remote_link_psi_plus") {
        RemoteGate::PsiPlus
    } else if same_text(name, "nonlocal_cz") || same_text(name, "remote_cz") {
        RemoteGate::Cz
    } else if same_text(name, "remote_cx") {
        RemoteGate::Cx
    } else if same_text(name, "remote_barrier") {
        RemoteGate::Barrier
    } else if same_text(name, "remote_cu1") {
        RemoteGate::Cu1
    } else if has_prefix(name, "circuit-") {
        RemoteGate::Subcircuit
    } else {
        RemoteGate::Other
    }
}

/// What a named gate does, whatever the case of its letters.
pub fn remote_gate_named(name: &str) -> (r: RemoteGate)
    ensures
        r == remote_gate_of(lowercased(name@)),
{
    remote_gate(lower_text(name).as_str())
}

} // verus!
