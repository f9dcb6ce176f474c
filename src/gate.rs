use vstd::prelude::*;

verus! {

/// The gates that a simulator request may name.
#[derive(Clone, Copy, Debug, PartialEq, Eq, Structural)]
pub enum GateKind {
    PauliX,
    PauliY,
    PauliZ,
    Hadamard,
    RX,
    RY,
    RZ,
    CNOT,
}

impl GateKind {
    /// How many wires it acts on.
    pub open spec fn wire_arity(self) -> nat {
        match self {
            GateKind::CNOT => 2,
            _ => 1,
        }
    }

    /// How many real parameters (rotation angles) it takes.
    pub open spec fn param_arity(self) -> nat {
        match self {
            GateKind::RX | GateKind::RY | GateKind::RZ => 1,
            _ => 0,
        }
    }

    pub fn wire_count(&self) -> (r: usize)
        ensures
            r == self.wire_arity(),
    {
        match self {
            GateKind::CNOT => 2,
            _ => 1,
        }
    }

    pub fn param_count(&self) -> (r: usize)
        ensures
            r == self.param_arity(),
    {
        match self {
            GateKind::RX | GateKind::RY | GateKind::RZ => 1,
            _ => 0,
        }
    }
}

/// The catalog entry that `name` denotes, with its accepted aliases.
pub open spec fn gate_named(name: Seq<char>) -> Option<GateKind> {
    if name == "PauliX"@ || name == "X"@ {
        Some(GateKind::PauliX)
    } else if name == "PauliY"@ || name == "Y"@ {
        Some(GateKind::PauliY)
    } else if name == "PauliZ"@ || name == "Z"@ {
        Some(GateKind::PauliZ)
    } else if name == "Hadamard"@ || name == "H"@ {
        Some(GateKind::Hadamard)
    } else if name == "RX"@ {
        Some(GateKind::RX)
    } else if name == "RY"@ {
        Some(GateKind::RY)
    } else if name == "RZ"@ {
        Some(GateKind::RZ)
    } else if name == "CNOT"@ || name == "CX"@ {
        Some(GateKind::CNOT)
    } else {
        None
    }
}

/// Resolves a gate name, aliases included.
pub fn resolve_gate(name: &str) -> (r: Option<GateKind>)
    ensures
        r == gate_named(name@),
{
    let s = name.to_owned();
    if s == "PauliX".to_owned() || s == "X".to_owned() {
        Some(GateKind::PauliX)
    } else if s == "PauliY".to_owned() || s == "Y".to_owned() {
        Some(GateKind::PauliY)
    } else if s == "PauliZ".to_owned() || s == "Z".to_owned() {
        Some(GateKind::PauliZ)
    } else if s == "Hadamard".to_owned() || s == "H".to_owned() {
        Some(GateKind::Hadamard)
    } else if s == "RX".to_owned() {
        Some(GateKind::RX)
    } else if s == "RY".to_owned() {
        Some(GateKind::RY)
    } else if s == "RZ".to_owned() {
        Some(GateKind::RZ)
    } else if s == "CNOT".to_owned() || s == "CX".to_owned() {
        Some(GateKind::CNOT)
    } else {
        None
    }
}


/// Why a gate request was refused. A refused request leaves the state untouched.
#[derive(Debug, PartialEq, Eq)]
pub enum GateError {
    /// The name is not in the catalog.
    UnknownGate { name: String },
    /// The wire count or the parameter count differs from the fixed arity of the named unitary.
    ArityMismatch {
        gate: GateKind,
        expected_wires: usize,
        actual_wires: usize,
        expected_params: usize,
        actual_params: usize,
    },
    /// A wire index is not below the qubit count.
    WireOutOfRange { wire: usize, num_qubits: usize },
    /// A multi-wire gate names the same wire twice.
    RepeatedWire { wire: usize },
}

/// Every wire index is below `n`.
pub open spec fn wires_in_range(wires: Seq<usize>, n: nat) -> bool {
    forall|i: int| 0 <= i < wires.len() ==> wires[i] < n
}

/// A request for gate `k` on `wires` with `num_params` parameters is one that a
/// simulator of `n` qubits carries out.
pub open spec fn request_valid(k: GateKind, wires: Seq<usize>, num_params: nat, n: nat) -> bool {
    &&& wires.len() == k.wire_arity()
    &&& num_params == k.param_arity()
    &&& wires_in_range(wires, n)
    &&& wires.no_duplicates()
}

/// Checks a gate request against the catalog, the fixed arity and the qubit count,
/// in that order, before any matrix is built.
pub fn validate_gate(name: &str, wires: &[usize], num_params: usize, num_qubits: usize) -> (r:
    Result<GateKind, GateError>)
    ensures
        r is Ok <==> (gate_named(name@) is Some && request_valid(
            gate_named(name@)->0,
            wires@,
            num_params as nat,
            num_qubits as nat,
        )),
        r is Ok ==> gate_named(name@) == Some(r->Ok_0),
        r matches Err(GateError::UnknownGate { name: s }) ==> s@ == name@,
        (r matches Err(GateError::UnknownGate { .. })) <==> gate_named(name@) is None,
        r matches Err(
            GateError::ArityMismatch { gate, expected_wires, actual_wires, expected_params, actual_params },
        ) ==> gate_named(name@) == Some(gate) && expected_wires == gate.wire_arity() && actual_wires
            == wires@.len() && expected_params == gate.param_arity() && actual_params == num_params,
        (r matches Err(GateError::ArityMismatch { .. })) <==> (gate_named(name@) is Some && (
        wires@.len() != gate_named(name@)->0.wire_arity() || num_params != gate_named(
            name@,
        )->0.param_arity())),
        r matches Err(GateError::WireOutOfRange { wire, num_qubits: q }) ==> q == num_qubits
            && num_qubits <= wire && wires@.contains(wire),
        (r matches Err(GateError::WireOutOfRange { .. })) <==> (gate_named(name@) is Some
            && wires@.len() == gate_named(name@)->0.wire_arity() && num_params == gate_named(
            name@,
        )->0.param_arity() && !wires_in_range(wires@, num_qubits as nat)),
        r matches Err(GateError::RepeatedWire { wire }) ==> exists|i: int, j: int|
            0 <= i < j < wires@.len() && wires@[i] == wire && wires@[j] == wire,
{
    let kind = match resolve_gate(name) {
        Some(k) => k,
        None => {
            return Err(GateError::UnknownGate { name: name.to_owned() });
        },
    };
    if wires.len() != kind.wire_count() || num_params != kind.param_count() {
        return Err(
            GateError::ArityMismatch {
                gate: kind,
                expected_wires: kind.wire_count(),
                actual_wires: wires.len(),
                expected_params: kind.param_count(),
                actual_params: num_params,
            },
        );
    }
    let mut i: usize = 0;
    while i < wires.len()
        invariant
            i <= wires@.len(),
            gate_named(name@) == Some(kind),
            wires@.len() == kind.wire_arity(),
            num_params == kind.param_arity(),
            wires_in_range(wires@.subrange(0, i as int), num_qubits as nat),
        decreases wires@.len() - i,
    {
        if wires[i] >= num_qubits {
            return Err(GateError::WireOutOfRange { wire: wires[i], num_qubits });
        }
        i = i + 1;
    }
    assert(wires@.subrange(0, wires@.len() as int) =~= wires@);
    if wires.len() == 2 && wires[0] == wires[1] {
        assert(wires@[0] == wires@[1]);
        return Err(GateError::RepeatedWire { wire: wires[0] });
    }
    assert(wires@.no_duplicates()) by {
        if wires@.len() == 2 {
            assert(wires@[0] != wires@[1]);
        }
    }
    Ok(kind)
}

} // verus!
