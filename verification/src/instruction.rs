//! Circuit instructions.

use num_complex::Complex64;
use vstd::prelude::*;
use vstd::slice::slice_to_vec;

verus! {

/// A test of the value of a classical register.
#[derive(Clone, Copy, Debug, PartialEq, Eq, Structural)]
pub struct Condition {
    /// The first classical bit of the register.
    pub creg_base: usize,
    /// The number of bits of the register.
    pub creg_size: usize,
    /// The value that the register must have.
    pub creg_value: u64,
}

/// One instruction of a circuit. Angles are real numbers, in radians.
#[derive(Debug)]
pub enum Instruction {
    Id { qubit: usize },
    X { qubit: usize },
    Y { qubit: usize },
    Z { qubit: usize },
    H { qubit: usize },
    S { qubit: usize },
    Sdg { qubit: usize },
    T { qubit: usize },
    Tdg { qubit: usize },
    Sx { qubit: usize },
    Sxdg { qubit: usize },
    U3 { qubit: usize, theta: Complex64, phi: Complex64, lam: Complex64 },
    U2 { qubit: usize, phi: Complex64, lam: Complex64 },
    U1 { qubit: usize, lam: Complex64 },
    U { qubit: usize, theta: Complex64, phi: Complex64, lam: Complex64 },
    P { qubit: usize, lam: Complex64 },
    Rx { qubit: usize, theta: Complex64 },
    Ry { qubit: usize, theta: Complex64 },
    Rz { qubit: usize, phi: Complex64 },
    U0 { qubit: usize },
    Cx { control: usize, target: usize },
    Cz { control: usize, target: usize },
    Cy { control: usize, target: usize },
    Ch { control: usize, target: usize },
    Swap { a: usize, b: usize },
    Csx { control: usize, target: usize },
    Crx { control: usize, target: usize, theta: Complex64 },
    Cry { control: usize, target: usize, theta: Complex64 },
    Crz { control: usize, target: usize, lam: Complex64 },
    Cu1 { control: usize, target: usize, lam: Complex64 },
    Cp { control: usize, target: usize, lam: Complex64 },
    Cu3 { control: usize, target: usize, theta: Complex64, phi: Complex64, lam: Complex64 },
    Cu {
        control: usize,
        target: usize,
        theta: Complex64,
        phi: Complex64,
        lam: Complex64,
        gamma: Complex64,
    },
    Rxx { a: usize, b: usize, theta: Complex64 },
    Rzz { a: usize, b: usize, theta: Complex64 },
    Ccx { control1: usize, control2: usize, target: usize },
    Cswap { control: usize, target1: usize, target2: usize },
    Rccx { control1: usize, control2: usize, target: usize },
    Rc3x { control1: usize, control2: usize, control3: usize, target: usize },
    C3x { control1: usize, control2: usize, control3: usize, target: usize },
    C3sqrtx { control1: usize, control2: usize, control3: usize, target: usize },
    C4x { control1: usize, control2: usize, control3: usize, control4: usize, target: usize },
    /// A named gate between nodes.
    Gate { name: String, params: Vec<Complex64>, qubits: Vec<usize> },
    Measure { qubit: usize, cbit: usize },
    Reset { qubit: usize },
    /// An instruction that runs only where a classical register has a given value.
    Conditional { condition: Condition, op: Box<Instruction> },
    Barrier,
    Classical { name: String },
}

/// What an instruction does, apart from its qubits, angles and other operands.
#[derive(Clone, Copy, Debug, PartialEq, Eq, Structural)]
pub enum Kind {
    Id,
    X,
    Y,
    Z,
    H,
    S,
    Sdg,
    T,
    Tdg,
    Sx,
    Sxdg,
    U3,
    U2,
    U1,
    U,
    P,
    Rx,
    Ry,
    Rz,
    U0,
    Cx,
    Cz,
    Cy,
    Ch,
    Swap,
    Csx,
    Crx,
    Cry,
    Crz,
    Cu1,
    Cp,
    Cu3,
    Cu,
    Rxx,
    Rzz,
    Ccx,
    Cswap,
    Rccx,
    Rc3x,
    C3x,
    C3sqrtx,
    C4x,
    Gate,
    Measure,
    Reset,
    Conditional,
    Barrier,
    Classical,
}

impl Instruction {
    /// What the instruction does.
    pub open spec fn kind(self) -> Kind {
        match self {
            Instruction::Id { .. } => Kind::Id,
            Instruction::X { .. } => Kind::X,
            Instruction::Y { .. } => Kind::Y,
            Instruction::Z { .. } => Kind::Z,
            Instruction::H { .. } => Kind::H,
            Instruction::S { .. } => Kind::S,
            Instruction::Sdg { .. } => Kind::Sdg,
            Instruction::T { .. } => Kind::T,
            Instruction::Tdg { .. } => Kind::Tdg,
            Instruction::Sx { .. } => Kind::Sx,
            Instruction::Sxdg { .. } => Kind::Sxdg,
            Instruction::U3 { .. } => Kind::U3,
            Instruction::U2 { .. } => Kind::U2,
            Instruction::U1 { .. } => Kind::U1,
            Instruction::U { .. } => Kind::U,
            Instruction::P { .. } => Kind::P,
            Instruction::Rx { .. } => Kind::Rx,
            Instruction::Ry { .. } => Kind::Ry,
            Instruction::Rz { .. } => Kind::Rz,
            Instruction::U0 { .. } => Kind::U0,
            Instruction::Cx { .. } => Kind::Cx,
            Instruction::Cz { .. } => Kind::Cz,
            Instruction::Cy { .. } => Kind::Cy,
            Instruction::Ch { .. } => Kind::Ch,
            Instruction::Swap { .. } => Kind::Swap,
            Instruction::Csx { .. } => Kind::Csx,
            Instruction::Crx { .. } => Kind::Crx,
            Instruction::Cry { .. } => Kind::Cry,
            Instruction::Crz { .. } => Kind::Crz,
            Instruction::Cu1 { .. } => Kind::Cu1,
            Instruction::Cp { .. } => Kind::Cp,
            Instruction::Cu3 { .. } => Kind::Cu3,
            Instruction::Cu { .. } => Kind::Cu,
            Instruction::Rxx { .. } => Kind::Rxx,
            Instruction::Rzz { .. } => Kind::Rzz,
            Instruction::Ccx { .. } => Kind::Ccx,
            Instruction::Cswap { .. } => Kind::Cswap,
            Instruction::Rccx { .. } => Kind::Rccx,
            Instruction::Rc3x { .. } => Kind::Rc3x,
            Instruction::C3x { .. } => Kind::C3x,
            Instruction::C3sqrtx { .. } => Kind::C3sqrtx,
            Instruction::C4x { .. } => Kind::C4x,
            Instruction::Gate { .. } => Kind::Gate,
            Instruction::Measure { .. } => Kind::Measure,
            Instruction::Reset { .. } => Kind::Reset,
            Instruction::Conditional { .. } => Kind::Conditional,
            Instruction::Barrier => Kind::Barrier,
            Instruction::Classical { .. } => Kind::Classical,
        }
    }

    /// The qubits that the instruction touches, in the order of its operands. A conditional
    /// instruction touches those of the instruction that it guards.
    pub open spec fn touched(self) -> Seq<usize>
        decreases self,
    {
        match self {
            Instruction::Id { qubit }
            | Instruction::X { qubit }
            | Instruction::Y { qubit }
            | Instruction::Z { qubit }
            | Instruction::H { qubit }
            | Instruction::S { qubit }
            | Instruction::Sdg { qubit }
            | Instruction::T { qubit }
            | Instruction::Tdg { qubit }
            | Instruction::Sx { qubit }
            | Instruction::Sxdg { qubit }
            | Instruction::U3 { qubit, .. }
            | Instruction::U2 { qubit, .. }
            | Instruction::U1 { qubit, .. }
            | Instruction::U { qubit, .. }
            | Instruction::P { qubit, .. }
            | Instruction::Rx { qubit, .. }
            | Instruction::Ry { qubit, .. }
            | Instruction::Rz { qubit, .. }
            | Instruction::U0 { qubit }
            | Instruction::Measure { qubit, .. }
            | Instruction::Reset { qubit } => seq![qubit],
            Instruction::Cx { control, target }
            | Instruction::Cz { control, target }
            | Instruction::Cy { control, target }
            | Instruction::Ch { control, target }
            | Instruction::Csx { control, target }
            | Instruction::Crx { control, target, .. }
            | Instruction::Cry { control, target, .. }
            | Instruction::Crz { control, target, .. }
            | Instruction::Cu1 { control, target, .. }
            | Instruction::Cp { control, target, .. }
            | Instruction::Cu3 { control, target, .. }
            | Instruction::Cu { control, target, .. } => seq![control, target],
            Instruction::Swap { a, b }
            | Instruction::Rxx { a, b, .. }
            | Instruction::Rzz { a, b, .. } => seq![a, b],
            Instruction::Ccx { control1, control2, target }
            | Instruction::Rccx { control1, control2, target } => seq![control1, control2, target],
            Instruction::Cswap { control, target1, target2 } => seq![control, target1, target2],
            Instruction::Rc3x { control1, control2, control3, target }
            | Instruction::C3x { control1, control2, control3, target }
            | Instruction::C3sqrtx { control1, control2, control3, target } => seq![control1, control2, control3, target],
            Instruction::C4x { control1, control2, control3, control4, target } => seq![control1, control2, control3, control4, target],
            Instruction::Gate { qubits, .. } => qubits@,
            Instruction::Conditional { op, .. } => op.touched(),
            Instruction::Barrier | Instruction::Classical { .. } => Seq::empty(),
        }
    }

    /// The angles of the instruction, in the order of its operands.
    pub open spec fn angles(self) -> Seq<Complex64>
        decreases self,
    {
        match self {
            Instruction::U3 { theta, phi, lam, .. } => seq![theta, phi, lam],
            Instruction::U2 { phi, lam, .. } => seq![phi, lam],
            Instruction::U1 { lam, .. } => seq![lam],
            Instruction::U { theta, phi, lam, .. } => seq![theta, phi, lam],
            Instruction::P { lam, .. } => seq![lam],
            Instruction::Rx { theta, .. } => seq![theta],
            Instruction::Ry { theta, .. } => seq![theta],
            Instruction::Rz { phi, .. } => seq![phi],
            Instruction::Crx { theta, .. } => seq![theta],
            Instruction::Cry { theta, .. } => seq![theta],
            Instruction::Crz { lam, .. } => seq![lam],
            Instruction::Cu1 { lam, .. } => seq![lam],
            Instruction::Cp { lam, .. } => seq![lam],
            Instruction::Cu3 { theta, phi, lam, .. } => seq![theta, phi, lam],
            Instruction::Cu { theta, phi, lam, gamma, .. } => seq![theta, phi, lam, gamma],
            Instruction::Rxx { theta, .. } => seq![theta],
            Instruction::Rzz { theta, .. } => seq![theta],
            Instruction::Gate { params, .. } => params@,
            Instruction::Conditional { op, .. } => op.angles(),
            _ => Seq::empty(),
        }
    }
}

/// Whether two instructions agree in everything but their qubits.
pub open spec fn same_shape(a: Instruction, b: Instruction) -> bool
    decreases a,
{
    &&& a.kind() == b.kind()
    &&& a.angles() == b.angles()
    &&& match (a, b) {
        (Instruction::Gate { name, .. }, Instruction::Gate { name: other, .. }) => name@ == other@,
        (Instruction::Classical { name }, Instruction::Classical { name: other }) => name@
            == other@,
        (Instruction::Measure { cbit, .. }, Instruction::Measure { cbit: other, .. }) => cbit
            == other,
        (
            Instruction::Conditional { condition, op },
            Instruction::Conditional { condition: condition2, op: op2 },
        ) => condition == condition2 && same_shape(*op, *op2),
        _ => true,
    }
}

/// Whether two instructions are the same.
pub open spec fn same_instruction(a: Instruction, b: Instruction) -> bool {
    same_shape(a, b) && a.touched() == b.touched()
}

impl Instruction {
    /// What the instruction does.
    pub fn kind_of(&self) -> (r: Kind)
        ensures
            r == self.kind(),
    {
        match self {
            Instruction::Id { .. } => Kind::Id,
            Instruction::X { .. } => Kind::X,
            Instruction::Y { .. } => Kind::Y,
            Instruction::Z { .. } => Kind::Z,
            Instruction::H { .. } => Kind::H,
            Instruction::S { .. } => Kind::S,
            Instruction::Sdg { .. } => Kind::Sdg,
            Instruction::T { .. } => Kind::T,
            Instruction::Tdg { .. } => Kind::Tdg,
            Instruction::Sx { .. } => Kind::Sx,
            Instruction::Sxdg { .. } => Kind::Sxdg,
            Instruction::U3 { .. } => Kind::U3,
            Instruction::U2 { .. } => Kind::U2,
            Instruction::U1 { .. } => Kind::U1,
            Instruction::U { .. } => Kind::U,
            Instruction::P { .. } => Kind::P,
            Instruction::Rx { .. } => Kind::Rx,
            Instruction::Ry { .. } => Kind::Ry,
            Instruction::Rz { .. } => Kind::Rz,
            Instruction::U0 { .. } => Kind::U0,
            Instruction::Cx { .. } => Kind::Cx,
            Instruction::Cz { .. } => Kind::Cz,
            Instruction::Cy { .. } => Kind::Cy,
            Instruction::Ch { .. } => Kind::Ch,
            Instruction::Swap { .. } => Kind::Swap,
            Instruction::Csx { .. } => Kind::Csx,
            Instruction::Crx { .. } => Kind::Crx,
            Instruction::Cry { .. } => Kind::Cry,
            Instruction::Crz { .. } => Kind::Crz,
            Instruction::Cu1 { .. } => Kind::Cu1,
            Instruction::Cp { .. } => Kind::Cp,
            Instruction::Cu3 { .. } => Kind::Cu3,
            Instruction::Cu { .. } => Kind::Cu,
            Instruction::Rxx { .. } => Kind::Rxx,
            Instruction::Rzz { .. } => Kind::Rzz,
            Instruction::Ccx { .. } => Kind::Ccx,
            Instruction::Cswap { .. } => Kind::Cswap,
            Instruction::Rccx { .. } => Kind::Rccx,
            Instruction::Rc3x { .. } => Kind::Rc3x,
            Instruction::C3x { .. } => Kind::C3x,
            Instruction::C3sqrtx { .. } => Kind::C3sqrtx,
            Instruction::C4x { .. } => Kind::C4x,
            Instruction::Gate { .. } => Kind::Gate,
            Instruction::Measure { .. } => Kind::Measure,
            Instruction::Reset { .. } => Kind::Reset,
            Instruction::Conditional { .. } => Kind::Conditional,
            Instruction::Barrier => Kind::Barrier,
            Instruction::Classical { .. } => Kind::Classical,
        }
    }

    /// Calls `f` with every qubit that the instruction touches, in the order of its operands.
    pub fn for_each_qubit<F: FnMut(usize)>(&self, mut f: F)
        requires
            forall|q: usize| self.touched().contains(q) ==> #[trigger] f.requires((q,)),
        ensures
            forall|q: usize| self.touched().contains(q) ==> #[trigger] f.ensures((q,), ()),
    {
        let ghost given = f;
        let qubits: Vec<usize> = self.qubits();
        let mut i: usize = 0;
        while i < qubits.len()
            invariant
                i <= qubits@.len(),
                qubits@ == self.touched(),
                f == given,
                forall|q: usize| self.touched().contains(q) ==> #[trigger] f.requires((q,)),
                forall|j: int| 0 <= j < i ==> f.ensures((#[trigger] qubits@[j],), ()),
            decreases qubits@.len() - i,
        {
            let q: usize = qubits[i];
            assert(qubits@[i as int] == q);
            f(q);
            i = i + 1;
        }
        assert forall|q: usize| self.touched().contains(q) implies #[trigger] f.ensures((q,), ()) by {
            let j = choose|j: int| 0 <= j < qubits@.len() && qubits@[j] == q;
            assert(f.ensures((qubits@[j],), ()));
        }
    }

    /// The qubits that the instruction touches, in the order of its operands.
    pub fn qubits(&self) -> (r: Vec<usize>)
        ensures
            r@ == self.touched(),
    {
        let mut out: Vec<usize> = Vec::new();
        self.visit_qubits(&mut out);
        assert(out@ =~= self.touched());
        out
    }

    /// Appends the qubits that the instruction touches.
    fn visit_qubits(&self, out: &mut Vec<usize>)
        ensures
            final(out)@ == old(out)@ + self.touched(),
        decreases self,
    {
        let ghost before = out@;
        match self {
            Instruction::Id { qubit }
            | Instruction::X { qubit }
            | Instruction::Y { qubit }
            | Instruction::Z { qubit }
            | Instruction::H { qubit }
            | Instruction::S { qubit }
            | Instruction::Sdg { qubit }
            | Instruction::T { qubit }
            | Instruction::Tdg { qubit }
            | Instruction::Sx { qubit }
            | Instruction::Sxdg { qubit }
            | Instruction::U3 { qubit, .. }
            | Instruction::U2 { qubit, .. }
            | Instruction::U1 { qubit, .. }
            | Instruction::U { qubit, .. }
            | Instruction::P { qubit, .. }
            | Instruction::Rx { qubit, .. }
            | Instruction::Ry { qubit, .. }
            | Instruction::Rz { qubit, .. }
            | Instruction::U0 { qubit }
            | Instruction::Measure { qubit, .. }
            | Instruction::Reset { qubit } => {
                out.push(*qubit);
                assert(out@ =~= before + seq![*qubit]);
            },
            Instruction::Cx { control, target }
            | Instruction::Cz { control, target }
            | Instruction::Cy { control, target }
            | Instruction::Ch { control, target }
            | Instruction::Csx { control, target }
            | Instruction::Crx { control, target, .. }
            | Instruction::Cry { control, target, .. }
            | Instruction::Crz { control, target, .. }
            | Instruction::Cu1 { control, target, .. }
            | Instruction::Cp { control, target, .. }
            | Instruction::Cu3 { control, target, .. }
            | Instruction::Cu { control, target, .. } => {
                out.push(*control);
                out.push(*target);
                assert(out@ =~= before + seq![*control, *target]);
            },
            Instruction::Swap { a, b }
            | Instruction::Rxx { a, b, .. }
            | Instruction::Rzz { a, b, .. } => {
                out.push(*a);
                out.push(*b);
                assert(out@ =~= before + seq![*a, *b]);
            },
            Instruction::Ccx { control1, control2, target }
            | Instruction::Rccx { control1, control2, target } => {
                out.push(*control1);
                out.push(*control2);
                out.push(*target);
                assert(out@ =~= before + seq![*control1, *control2, *target]);
            },
            Instruction::Cswap { control, target1, target2 } => {
                out.push(*control);
                out.push(*target1);
                out.push(*target2);
                assert(out@ =~= before + seq![*control, *target1, *target2]);
            },
            Instruction::Rc3x { control1, control2, control3, target }
            | Instruction::C3x { control1, control2, control3, target }
            | Instruction::C3sqrtx { control1, control2, control3, target } => {
                out.push(*control1);
                out.push(*control2);
                out.push(*control3);
                out.push(*target);
                assert(out@ =~= before + seq![*control1, *control2, *control3, *target]);
            },
            Instruction::C4x { control1, control2, control3, control4, target } => {
                out.push(*control1);
                out.push(*control2);
                out.push(*control3);
                out.push(*control4);
                out.push(*target);
                assert(out@ =~= before + seq![*control1, *control2, *control3, *control4, *target]);
            },
            Instruction::Gate { qubits, .. } => {
                let mut i: usize = 0;
                while i < qubits.len()
                    invariant
                        i <= qubits@.len(),
                        out@ == before + qubits@.take(i as int),
                    decreases qubits@.len() - i,
                {
                    out.push(qubits[i]);
                    i = i + 1;
                    assert(out@ =~= before + qubits@.take(i as int));
                }
                assert(qubits@.take(i as int) =~= qubits@);
            },
            Instruction::Conditional { op, .. } => {
                op.visit_qubits(out);
            },
            Instruction::Barrier | Instruction::Classical { .. } => {
                assert(out@ =~= before + Seq::<usize>::empty());
            },
        }
    }
}

impl Clone for Instruction {
    fn clone(&self) -> (r: Self)
        ensures
            same_instruction(r, *self),
        decreases self,
    {
        match self {
            Instruction::Id { qubit } => Instruction::Id { qubit: *qubit },
            Instruction::X { qubit } => Instruction::X { qubit: *qubit },
            Instruction::Y { qubit } => Instruction::Y { qubit: *qubit },
            Instruction::Z { qubit } => Instruction::Z { qubit: *qubit },
            Instruction::H { qubit } => Instruction::H { qubit: *qubit },
            Instruction::S { qubit } => Instruction::S { qubit: *qubit },
            Instruction::Sdg { qubit } => Instruction::Sdg { qubit: *qubit },
            Instruction::T { qubit } => Instruction::T { qubit: *qubit },
            Instruction::Tdg { qubit } => Instruction::Tdg { qubit: *qubit },
            Instruction::Sx { qubit } => Instruction::Sx { qubit: *qubit },
            Instruction::Sxdg { qubit } => Instruction::Sxdg { qubit: *qubit },
            Instruction::U3 { qubit, theta, phi, lam } => Instruction::U3 { qubit: *qubit, theta: *theta, phi: *phi, lam: *lam },
            Instruction::U2 { qubit, phi, lam } => Instruction::U2 { qubit: *qubit, phi: *phi, lam: *lam },
            Instruction::U1 { qubit, lam } => Instruction::U1 { qubit: *qubit, lam: *lam },
            Instruction::U { qubit, theta, phi, lam } => Instruction::U { qubit: *qubit, theta: *theta, phi: *phi, lam: *lam },
            Instruction::P { qubit, lam } => Instruction::P { qubit: *qubit, lam: *lam },
            Instruction::Rx { qubit, theta } => Instruction::Rx { qubit: *qubit, theta: *theta },
            Instruction::Ry { qubit, theta } => Instruction::Ry { qubit: *qubit, theta: *theta },
            Instruction::Rz { qubit, phi } => Instruction::Rz { qubit: *qubit, phi: *phi },
            Instruction::U0 { qubit } => Instruction::U0 { qubit: *qubit },
            Instruction::Cx { control, target } => Instruction::Cx { control: *control, target: *target },
            Instruction::Cz { control, target } => Instruction::Cz { control: *control, target: *target },
            Instruction::Cy { control, target } => Instruction::Cy { control: *control, target: *target },
            Instruction::Ch { control, target } => Instruction::Ch { control: *control, target: *target },
            Instruction::Swap { a, b } => Instruction::Swap { a: *a, b: *b },
            Instruction::Csx { control, target } => Instruction::Csx { control: *control, target: *target },
            Instruction::Crx { control, target, theta } => Instruction::Crx { control: *control, target: *target, theta: *theta },
            Instruction::Cry { control, target, theta } => Instruction::Cry { control: *control, target: *target, theta: *theta },
            Instruction::Crz { control, target, lam } => Instruction::Crz { control: *control, target: *target, lam: *lam },
            Instruction::Cu1 { control, target, lam } => Instruction::Cu1 { control: *control, target: *target, lam: *lam },
            Instruction::Cp { control, target, lam } => Instruction::Cp { control: *control, target: *target, lam: *lam },
            Instruction::Cu3 { control, target, theta, phi, lam } => Instruction::Cu3 { control: *control, target: *target, theta: *theta, phi: *phi, lam: *lam },
            Instruction::Cu { control, target, theta, phi, lam, gamma } => Instruction::Cu { control: *control, target: *target, theta: *theta, phi: *phi, lam: *lam, gamma: *gamma },
            Instruction::Rxx { a, b, theta } => Instruction::Rxx { a: *a, b: *b, theta: *theta },
            Instruction::Rzz { a, b, theta } => Instruction::Rzz { a: *a, b: *b, theta: *theta },
            Instruction::Ccx { control1, control2, target } => Instruction::Ccx { control1: *control1, control2: *control2, target: *target },
            Instruction::Cswap { control, target1, target2 } => Instruction::Cswap { control: *control, target1: *target1, target2: *target2 },
            Instruction::Rccx { control1, control2, target } => Instruction::Rccx { control1: *control1, control2: *control2, target: *target },
            Instruction::Rc3x { control1, control2, control3, target } => Instruction::Rc3x { control1: *control1, control2: *control2, control3: *control3, target: *target },
            Instruction::C3x { control1, control2, control3, target } => Instruction::C3x { control1: *control1, control2: *control2, control3: *control3, target: *target },
            Instruction::C3sqrtx { control1, control2, control3, target } => Instruction::C3sqrtx { control1: *control1, control2: *control2, control3: *control3, target: *target },
            Instruction::C4x { control1, control2, control3, control4, target } => Instruction::C4x { control1: *control1, control2: *control2, control3: *control3, control4: *control4, target: *target },
            Instruction::Gate { name, params, qubits } => Instruction::Gate {
                name: name.clone(),
                params: slice_to_vec(params.as_slice()),
                qubits: slice_to_vec(qubits.as_slice()),
            },
            Instruction::Measure { qubit, cbit } => Instruction::Measure {
                qubit: *qubit,
                cbit: *cbit,
            },
            Instruction::Reset { qubit } => Instruction::Reset { qubit: *qubit },
            Instruction::Conditional { condition, op } => {
                let inner: Instruction = (**op).clone();
                Instruction::Conditional { condition: *condition, op: Box::new(inner) }
            },
            Instruction::Barrier => Instruction::Barrier,
            Instruction::Classical { name } => Instruction::Classical { name: name.clone() },
        }
    }
}

} // verus!
