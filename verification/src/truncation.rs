//! Removal of the qubits that cannot influence the counts.
//!
//! A qubit is needed if it is measured into a counted classical bit, or if it shares an
//! instruction with a qubit that is needed later on. The others are removed, and the
//! remaining ones are numbered anew.

use vstd::prelude::*;

use crate::circuit::{registers_end, registers_fit, Circuit, Register};
use crate::instruction::{same_shape, Condition, Instruction};
use crate::text::{decimal_nat, push_decimal, push_text};

verus! {

/// Why a circuit cannot be reduced.
#[derive(Clone, Copy, Debug, PartialEq, Eq, Structural)]
pub enum TruncationError {
    /// An instruction touches a qubit that the circuit does not have.
    OutsideWidth { qubit: usize },
    /// An instruction touches qubits that stay and qubits that go.
    PartiallyRetained,
    /// A qubit that goes cannot be numbered anew.
    NotRetained { qubit: usize },
}

impl TruncationError {
    /// The text of the error.
    pub open spec fn text(self) -> Seq<char> {
        match self {
            TruncationError::OutsideWidth { qubit } => "qubit index "@ + decimal_nat(qubit as nat)
                + " is outside the circuit width"@,
            TruncationError::PartiallyRetained =>
                "qubit truncation found a partially retained instruction; relevance analysis is too aggressive"@,
            TruncationError::NotRetained { qubit } => "qubit index "@ + decimal_nat(qubit as nat)
                + " was not retained by truncation"@,
        }
    }

    /// The text of the error.
    pub fn message(&self) -> (r: String)
        ensures
            r@ == self.text(),
    {
        let mut out: String = String::new();
        match self {
            TruncationError::OutsideWidth { qubit } => {
                push_text(&mut out, "qubit index ");
                push_decimal(&mut out, *qubit as u64);
                push_text(&mut out, " is outside the circuit width");
            },
            TruncationError::PartiallyRetained => {
                push_text(
                    &mut out,
                    "qubit truncation found a partially retained instruction; relevance analysis is too aggressive",
                );
            },
            TruncationError::NotRetained { qubit } => {
                push_text(&mut out, "qubit index ");
                push_decimal(&mut out, *qubit as u64);
                push_text(&mut out, " was not retained by truncation");
            },
        }
        assert(out@ =~= self.text());
        out
    }
}

/// The new number of a qubit, if it has one.
pub open spec fn new_number(remap: Seq<Option<usize>>, q: usize) -> Option<usize> {
    if q < remap.len() {
        remap[q as int]
    } else {
        None
    }
}

/// Whether the first `count` qubits all have new numbers.
pub open spec fn all_numbered(qubits: Seq<usize>, remap: Seq<Option<usize>>, count: int) -> bool {
    forall|j: int| 0 <= j < count ==> new_number(remap, #[trigger] qubits[j]) is Some
}

/// The qubits with the first `count` of them numbered anew.
pub open spec fn renumbered(qubits: Seq<usize>, remap: Seq<Option<usize>>, count: int) -> Seq<
    usize,
> {
    Seq::new(
        qubits.len(),
        |j: int|
            if j < count {
                new_number(remap, qubits[j])->0
            } else {
                qubits[j]
            },
    )
}

/// Whether renumbering the qubits `before` ends with `result` and leaves `after`: it goes on
/// until a qubit has no new number.
pub open spec fn is_renumbering(
    before: Seq<usize>,
    after: Seq<usize>,
    remap: Seq<Option<usize>>,
    result: Result<(), TruncationError>,
) -> bool {
    match result {
        Ok(_) => all_numbered(before, remap, before.len() as int) && after == renumbered(
            before,
            remap,
            before.len() as int,
        ),
        Err(e) => exists|j: int|
            0 <= j < before.len() && #[trigger] all_numbered(before, remap, j) && new_number(
                remap,
                before[j],
            ) is None && e == (TruncationError::NotRetained { qubit: before[j] }) && after
                == renumbered(before, remap, j),
    }
}

/// Numbers one qubit anew.
fn remap_required_qubit(qubit: &mut usize, remap: &[Option<usize>]) -> (r: Result<
    (),
    TruncationError,
>)
    ensures
        match r {
            Ok(_) => new_number(remap@, *old(qubit)) == Some(*final(qubit)),
            Err(e) => new_number(remap@, *old(qubit)) is None && *final(qubit) == *old(qubit) && e
                == (TruncationError::NotRetained { qubit: *old(qubit) }),
        },
{
    let before: usize = *qubit;
    if before < remap.len() {
        match remap[before] {
            Some(after) => {
                *qubit = after;
                return Ok(());
            },
            None => {},
        }
    }
    Err(TruncationError::NotRetained { qubit: before })
}

/// Numbers the qubits of an instruction anew. Where a qubit has no new number, the qubits
/// before it have been changed already.
#[verifier::rlimit(60)]
pub fn remap_instruction_qubits_in_place(inst: &mut Instruction, remap: &[Option<usize>]) -> (r:
    Result<(), TruncationError>)
    ensures
        same_shape(*final(inst), *old(inst)),
        is_renumbering(old(inst).touched(), final(inst).touched(), remap@, r),
    decreases *old(inst),
{
    let ghost before = inst.touched();
    let r: Result<(), TruncationError> = match inst {
        Instruction::Id { qubit } => remap_operands_1(qubit, remap),
        Instruction::X { qubit } => remap_operands_1(qubit, remap),
        Instruction::Y { qubit } => remap_operands_1(qubit, remap),
        Instruction::Z { qubit } => remap_operands_1(qubit, remap),
        Instruction::H { qubit } => remap_operands_1(qubit, remap),
        Instruction::S { qubit } => remap_operands_1(qubit, remap),
        Instruction::Sdg { qubit } => remap_operands_1(qubit, remap),
        Instruction::T { qubit } => remap_operands_1(qubit, remap),
        Instruction::Tdg { qubit } => remap_operands_1(qubit, remap),
        Instruction::Sx { qubit } => remap_operands_1(qubit, remap),
        Instruction::Sxdg { qubit } => remap_operands_1(qubit, remap),
        Instruction::U3 { qubit, .. } => remap_operands_1(qubit, remap),
        Instruction::U2 { qubit, .. } => remap_operands_1(qubit, remap),
        Instruction::U1 { qubit, .. } => remap_operands_1(qubit, remap),
        Instruction::U { qubit, .. } => remap_operands_1(qubit, remap),
        Instruction::P { qubit, .. } => remap_operands_1(qubit, remap),
        Instruction::Rx { qubit, .. } => remap_operands_1(qubit, remap),
        Instruction::Ry { qubit, .. } => remap_operands_1(qubit, remap),
        Instruction::Rz { qubit, .. } => remap_operands_1(qubit, remap),
        Instruction::U0 { qubit } => remap_operands_1(qubit, remap),
        Instruction::Cx { control, target } => remap_operands_2(control, target, remap),
        Instruction::Cz { control, target } => remap_operands_2(control, target, remap),
        Instruction::Cy { control, target } => remap_operands_2(control, target, remap),
        Instruction::Ch { control, target } => remap_operands_2(control, target, remap),
        Instruction::Swap { a, b } => remap_operands_2(a, b, remap),
        Instruction::Csx { control, target } => remap_operands_2(control, target, remap),
        Instruction::Crx { control, target, .. } => remap_operands_2(control, target, remap),
        Instruction::Cry { control, target, .. } => remap_operands_2(control, target, remap),
        Instruction::Crz { control, target, .. } => remap_operands_2(control, target, remap),
        Instruction::Cu1 { control, target, .. } => remap_operands_2(control, target, remap),
        Instruction::Cp { control, target, .. } => remap_operands_2(control, target, remap),
        Instruction::Cu3 { control, target, .. } => remap_operands_2(control, target, remap),
        Instruction::Cu { control, target, .. } => remap_operands_2(control, target, remap),
        Instruction::Rxx { a, b, .. } => remap_operands_2(a, b, remap),
        Instruction::Rzz { a, b, .. } => remap_operands_2(a, b, remap),
        Instruction::Ccx { control1, control2, target } => remap_operands_3(control1, control2, target, remap),
        Instruction::Cswap { control, target1, target2 } => remap_operands_3(control, target1, target2, remap),
        Instruction::Rccx { control1, control2, target } => remap_operands_3(control1, control2, target, remap),
        Instruction::Rc3x { control1, control2, control3, target } => remap_operands_4(control1, control2, control3, target, remap),
        Instruction::C3x { control1, control2, control3, target } => remap_operands_4(control1, control2, control3, target, remap),
        Instruction::C3sqrtx { control1, control2, control3, target } => remap_operands_4(control1, control2, control3, target, remap),
        Instruction::C4x { control1, control2, control3, control4, target } => remap_operands_5(control1, control2, control3, control4, target, remap),
        Instruction::Measure { qubit, .. } => remap_operands_1(qubit, remap),
        Instruction::Reset { qubit } => remap_operands_1(qubit, remap),
        Instruction::Gate { qubits, .. } => remap_operand_list(qubits, remap),
        Instruction::Conditional { op, .. } => remap_instruction_qubits_in_place(op, remap),
        Instruction::Barrier | Instruction::Classical { .. } => {
            assert(Seq::<usize>::empty() =~= renumbered(Seq::<usize>::empty(), remap@, 0));
            Ok(())
        },
    };
    assert(is_renumbering(before, inst.touched(), remap@, r));
    r
}

fn remap_operands_1(q1: &mut usize, remap: &[Option<usize>]) -> (r: Result<(), TruncationError>)
    ensures
        is_renumbering(seq![*old(q1)], seq![*final(q1)], remap@, r),
{
    let mut list: Vec<usize> = Vec::new();
    list.push(*q1);
    assert(list@ =~= seq![*q1]);
    let r: Result<(), TruncationError> = remap_operand_list(&mut list, remap);
    *q1 = list[0];
    assert(list@ =~= seq![*q1]);
    r
}

fn remap_operands_2(q1: &mut usize, q2: &mut usize, remap: &[Option<usize>]) -> (r: Result<(), TruncationError>)
    ensures
        is_renumbering(seq![*old(q1), *old(q2)], seq![*final(q1), *final(q2)], remap@, r),
{
    let mut list: Vec<usize> = Vec::new();
    list.push(*q1);
    list.push(*q2);
    assert(list@ =~= seq![*q1, *q2]);
    let r: Result<(), TruncationError> = remap_operand_list(&mut list, remap);
    *q1 = list[0];
    *q2 = list[1];
    assert(list@ =~= seq![*q1, *q2]);
    r
}

fn remap_operands_3(q1: &mut usize, q2: &mut usize, q3: &mut usize, remap: &[Option<usize>]) -> (r: Result<(), TruncationError>)
    ensures
        is_renumbering(seq![*old(q1), *old(q2), *old(q3)], seq![*final(q1), *final(q2), *final(q3)], remap@, r),
{
    let mut list: Vec<usize> = Vec::new();
    list.push(*q1);
    list.push(*q2);
    list.push(*q3);
    assert(list@ =~= seq![*q1, *q2, *q3]);
    let r: Result<(), TruncationError> = remap_operand_list(&mut list, remap);
    *q1 = list[0];
    *q2 = list[1];
    *q3 = list[2];
    assert(list@ =~= seq![*q1, *q2, *q3]);
    r
}

fn remap_operands_4(q1: &mut usize, q2: &mut usize, q3: &mut usize, q4: &mut usize, remap: &[Option<usize>]) -> (r: Result<(), TruncationError>)
    ensures
        is_renumbering(seq![*old(q1), *old(q2), *old(q3), *old(q4)], seq![*final(q1), *final(q2), *final(q3), *final(q4)], remap@, r),
{
    let mut list: Vec<usize> = Vec::new();
    list.push(*q1);
    list.push(*q2);
    list.push(*q3);
    list.push(*q4);
    assert(list@ =~= seq![*q1, *q2, *q3, *q4]);
    let r: Result<(), TruncationError> = remap_operand_list(&mut list, remap);
    *q1 = list[0];
    *q2 = list[1];
    *q3 = list[2];
    *q4 = list[3];
    assert(list@ =~= seq![*q1, *q2, *q3, *q4]);
    r
}

fn remap_operands_5(q1: &mut usize, q2: &mut usize, q3: &mut usize, q4: &mut usize, q5: &mut usize, remap: &[Option<usize>]) -> (r: Result<(), TruncationError>)
    ensures
        is_renumbering(seq![*old(q1), *old(q2), *old(q3), *old(q4), *old(q5)], seq![*final(q1), *final(q2), *final(q3), *final(q4), *final(q5)], remap@, r),
{
    let mut list: Vec<usize> = Vec::new();
    list.push(*q1);
    list.push(*q2);
    list.push(*q3);
    list.push(*q4);
    list.push(*q5);
    assert(list@ =~= seq![*q1, *q2, *q3, *q4, *q5]);
    let r: Result<(), TruncationError> = remap_operand_list(&mut list, remap);
    *q1 = list[0];
    *q2 = list[1];
    *q3 = list[2];
    *q4 = list[3];
    *q5 = list[4];
    assert(list@ =~= seq![*q1, *q2, *q3, *q4, *q5]);
    r
}

fn remap_operand_list(qubits: &mut Vec<usize>, remap: &[Option<usize>]) -> (r: Result<
    (),
    TruncationError,
>)
    ensures
        is_renumbering(old(qubits)@, final(qubits)@, remap@, r),
{
    let ghost before = qubits@;
    let mut i: usize = 0;
    assert(qubits@ =~= renumbered(before, remap@, 0));
    while i < qubits.len()
        invariant
            i <= qubits@.len(),
            before == old(qubits)@,
            qubits@.len() == before.len(),
            all_numbered(before, remap@, i as int),
            qubits@ == renumbered(before, remap@, i as int),
        decreases qubits@.len() - i,
    {
        let mut q: usize = qubits[i];
        assert(q == before[i as int]);
        let step: Result<(), TruncationError> = remap_required_qubit(&mut q, remap);
        match step {
            Ok(_) => {},
            Err(e) => {
                assert(all_numbered(before, remap@, i as int) && new_number(
                    remap@,
                    before[i as int],
                ) is None);
                return Err(e);
            },
        }
        qubits[i] = q;
        i = i + 1;
        assert(qubits@ =~= renumbered(before, remap@, i as int));
    }
    Ok(())
}

/// Whether one of `qubits` is needed.
pub open spec fn touches_needed(qubits: Seq<usize>, needed: Seq<bool>) -> bool {
    exists|j: int| 0 <= j < qubits.len() && (#[trigger] qubits[j]) < needed.len() && needed[qubits[j] as int]
}

/// What is needed once `qubits` are needed too.
pub open spec fn with_needed(needed: Seq<bool>, qubits: Seq<usize>) -> Seq<bool> {
    Seq::new(needed.len(), |q: int| needed[q] || qubits.contains(q as usize))
}

/// The end of the register that a condition reads, as far as it fits.
pub open spec fn condition_end(condition: Condition) -> int {
    if condition.creg_base + condition.creg_size <= usize::MAX {
        condition.creg_base + condition.creg_size
    } else {
        usize::MAX as int
    }
}

/// Which classical bits are needed once a condition is needed too.
pub open spec fn with_condition(needed: Seq<bool>, condition: Condition) -> Seq<bool> {
    let end = condition_end(condition);
    Seq::new(
        if needed.len() < end {
            end as nat
        } else {
            needed.len()
        },
        |b: int| (b < needed.len() && needed[b]) || condition.creg_base <= b < end,
    )
}

/// The qubits and the classical bits needed before an instruction, given those needed after
/// it.
pub open spec fn needed_before(inst: Instruction, after: (Seq<bool>, Seq<bool>)) -> (
    Seq<bool>,
    Seq<bool>,
) {
    match inst {
        Instruction::Measure { qubit, cbit } => if cbit < after.1.len() && after.1[cbit as int] {
            (with_needed(after.0, seq![qubit]), after.1)
        } else {
            after
        },
        Instruction::Conditional { condition, op } => if touches_needed(op.touched(), after.0) {
            (with_needed(after.0, op.touched()), with_condition(after.1, condition))
        } else {
            after
        },
        _ => if touches_needed(inst.touched(), after.0) {
            (with_needed(after.0, inst.touched()), after.1)
        } else {
            after
        },
    }
}

/// The qubits and the classical bits needed before the instruction at `i`. After the last
/// one no qubit is needed any more, and every classical bit is.
pub open spec fn needed_at(
    instructions: Seq<Instruction>,
    i: int,
    num_qubits: nat,
    num_cbits: nat,
) -> (Seq<bool>, Seq<bool>)
    decreases instructions.len() - i,
{
    if i >= instructions.len() {
        (Seq::new(num_qubits, |q: int| false), Seq::new(num_cbits, |b: int| true))
    } else {
        needed_before(instructions[i], needed_at(instructions, i + 1, num_qubits, num_cbits))
    }
}

fn touches_required_qubit(qubits: &[usize], required_qubits: &[bool]) -> (r: bool)
    ensures
        r == touches_needed(qubits@, required_qubits@),
{
    let mut j: usize = 0;
    while j < qubits.len()
        invariant
            j <= qubits@.len(),
            forall|l: int|
                0 <= l < j ==> !((#[trigger] qubits@[l]) < required_qubits@.len()
                    && required_qubits@[qubits@[l] as int]),
        decreases qubits@.len() - j,
    {
        let q: usize = qubits[j];
        assert(q == qubits@[j as int]);
        if q < required_qubits.len() && required_qubits[q] {
            return true;
        }
        j = j + 1;
    }
    false
}

fn mark_qubit(required_qubits: &mut Vec<bool>, qubit: usize)
    ensures
        final(required_qubits)@ == with_needed(old(required_qubits)@, seq![qubit]),
{
    let ghost before = required_qubits@;
    if qubit < required_qubits.len() {
        required_qubits[qubit] = true;
    }
    assert(seq![qubit][0] == qubit);
    assert(required_qubits@ =~= with_needed(before, seq![qubit]));
}

fn mark_qubits(required_qubits: &mut Vec<bool>, qubits: &[usize])
    ensures
        final(required_qubits)@ == with_needed(old(required_qubits)@, qubits@),
{
    let ghost before = required_qubits@;
    let mut j: usize = 0;
    assert(required_qubits@ =~= with_needed(before, qubits@.take(0)));
    while j < qubits.len()
        invariant
            j <= qubits@.len(),
            required_qubits@ == with_needed(before, qubits@.take(j as int)),
        decreases qubits@.len() - j,
    {
        let q: usize = qubits[j];
        mark_qubit(required_qubits, q);
        proof {
            let now = qubits@.take(j as int);
            let next = qubits@.take(j + 1);
            assert(next =~= now.push(q));
            assert forall|x: usize| next.contains(x) <==> now.contains(x) || x == q by {
                if now.contains(x) {
                    let i = choose|i: int| 0 <= i < now.len() && now[i] == x;
                    assert(next[i] == x);
                }
                if next.contains(x) {
                    let i = choose|i: int| 0 <= i < next.len() && next[i] == x;
                    if i < now.len() {
                        assert(now[i] == x);
                    }
                }
                assert(next[j as int] == q);
            }
            assert forall|x: usize| seq![q].contains(x) <==> x == q by {
                assert(seq![q][0] == q);
            }
            assert(required_qubits@ =~= with_needed(before, next));
        }
        j = j + 1;
    }
    assert(qubits@.take(j as int) =~= qubits@);
}

fn mark_condition_cbits(required_cbits: &mut Vec<bool>, condition: &Condition)
    ensures
        final(required_cbits)@ == with_condition(old(required_cbits)@, *condition),
{
    let ghost before = required_cbits@;
    let end: usize = condition.creg_base.saturating_add(condition.creg_size);
    while required_cbits.len() < end
        invariant
            before.len() <= required_cbits@.len(),
            required_cbits@.len() <= before.len() || required_cbits@.len() <= end,
            forall|b: int|
                0 <= b < required_cbits@.len() ==> #[trigger] required_cbits@[b] == (b
                    < before.len() && before[b]),
        decreases end - required_cbits@.len(),
    {
        required_cbits.push(false);
    }
    let mut cbit: usize = condition.creg_base;
    while cbit < end
        invariant
            end == condition_end(*condition),
            end <= required_cbits@.len(),
            required_cbits@.len() == with_condition(before, *condition).len(),
            condition.creg_base <= cbit,
            cbit <= end || cbit == condition.creg_base,
            forall|b: int|
                0 <= b < required_cbits@.len() ==> #[trigger] required_cbits@[b] == ((b
                    < before.len() && before[b]) || condition.creg_base <= b < cbit),
        decreases end - cbit,
    {
        required_cbits[cbit] = true;
        cbit = cbit + 1;
    }
    assert(required_cbits@ =~= with_condition(before, *condition));
}

/// For each qubit, whether it can influence the counts.
pub fn count_relevant_qubits(circuit: &Circuit, num_qubits: usize) -> (r: Vec<bool>)
    requires
        circuit.wf(),
    ensures
        r@ == needed_at(circuit.instructions@, 0, num_qubits as nat, circuit.cbit_count()).0,
        r@.len() == num_qubits,
{
    let num_cbits: usize = circuit.num_cbits();
    let mut required_qubits: Vec<bool> = Vec::new();
    let mut q: usize = 0;
    while q < num_qubits
        invariant
            q <= num_qubits,
            required_qubits@ =~= Seq::new(q as nat, |j: int| false),
        decreases num_qubits - q,
    {
        required_qubits.push(false);
        q = q + 1;
    }
    let mut required_cbits: Vec<bool> = Vec::new();
    let mut b: usize = 0;
    while b < num_cbits
        invariant
            b <= num_cbits,
            required_cbits@ =~= Seq::new(b as nat, |j: int| true),
        decreases num_cbits - b,
    {
        required_cbits.push(true);
        b = b + 1;
    }
    let ghost instructions = circuit.instructions@;
    let mut i: usize = circuit.instructions.len();
    while i > 0
        invariant
            i <= instructions.len(),
            instructions == circuit.instructions@,
            required_qubits@.len() == num_qubits,
            (required_qubits@, required_cbits@) == needed_at(
                instructions,
                i as int,
                num_qubits as nat,
                num_cbits as nat,
            ),
        decreases i,
    {
        let inst: &Instruction = &circuit.instructions[i - 1];
        match inst {
            Instruction::Measure { qubit, cbit } => {
                if *cbit < required_cbits.len() && required_cbits[*cbit] {
                    mark_qubit(&mut required_qubits, *qubit);
                }
            },
            Instruction::Conditional { condition, op } => {
                let touched: Vec<usize> = op.qubits();
                if touches_required_qubit(touched.as_slice(), required_qubits.as_slice()) {
                    mark_qubits(&mut required_qubits, touched.as_slice());
                    mark_condition_cbits(&mut required_cbits, condition);
                }
            },
            _ => {
                let touched: Vec<usize> = inst.qubits();
                if touches_required_qubit(touched.as_slice(), required_qubits.as_slice()) {
                    mark_qubits(&mut required_qubits, touched.as_slice());
                }
            },
        }
        i = i - 1;
    }
    required_qubits
}

/// The sizes of what is needed, and that every counted classical bit stays needed.
pub proof fn lemma_needed_shape(
    instructions: Seq<Instruction>,
    i: int,
    num_qubits: nat,
    num_cbits: nat,
)
    requires
        0 <= i <= instructions.len(),
    ensures
        ({
            let at = needed_at(instructions, i, num_qubits, num_cbits);
            &&& at.0.len() == num_qubits
            &&& at.1.len() >= num_cbits
            &&& forall|b: int| 0 <= b < num_cbits ==> #[trigger] at.1[b]
            &&& forall|q: int|
                0 <= q < num_qubits && needed_at(
                    instructions,
                    instructions.len() as int,
                    num_qubits,
                    num_cbits,
                ).0[q] ==> #[trigger] at.0[q]
        }),
    decreases instructions.len() - i,
{
    if i < instructions.len() {
        lemma_needed_shape(instructions, i + 1, num_qubits, num_cbits);
    }
}

pub proof fn lemma_needed_grows(
    instructions: Seq<Instruction>,
    i: int,
    j: int,
    num_qubits: nat,
    num_cbits: nat,
    q: int,
)
    requires
        0 <= i <= j <= instructions.len(),
        0 <= q < num_qubits,
        needed_at(instructions, j, num_qubits, num_cbits).0[q],
    ensures
        needed_at(instructions, i, num_qubits, num_cbits).0[q],
    decreases j - i,
{
    if i < j {
        lemma_needed_grows(instructions, i + 1, j, num_qubits, num_cbits, q);
        lemma_needed_shape(instructions, i + 1, num_qubits, num_cbits);
    }
}

/// A qubit that is measured into a counted classical bit is never removed.
pub proof fn law_measured_qubits_stay(
    instructions: Seq<Instruction>,
    i: int,
    qubit: usize,
    cbit: usize,
    num_qubits: nat,
    num_cbits: nat,
)
    requires
        0 <= i < instructions.len(),
        instructions[i] == (Instruction::Measure { qubit, cbit }),
        qubit < num_qubits,
        cbit < num_cbits,
    ensures
        needed_at(instructions, 0, num_qubits, num_cbits).0[qubit as int],
{
    lemma_needed_shape(instructions, i + 1, num_qubits, num_cbits);
    let after = needed_at(instructions, i + 1, num_qubits, num_cbits);
    assert(after.1[cbit as int]);
    assert(seq![qubit][0] == qubit);
    assert(needed_at(instructions, i, num_qubits, num_cbits).0[qubit as int]);
    lemma_needed_grows(instructions, 0, i, num_qubits, num_cbits, qubit as int);
}

/// A qubit that no instruction touches is removed.
pub proof fn law_untouched_qubits_go(
    instructions: Seq<Instruction>,
    i: int,
    qubit: usize,
    num_qubits: nat,
    num_cbits: nat,
)
    requires
        0 <= i <= instructions.len(),
        qubit < num_qubits,
        forall|j: int|
            0 <= j < instructions.len() ==> !(#[trigger] instructions[j]).touched().contains(qubit),
    ensures
        !needed_at(instructions, i, num_qubits, num_cbits).0[qubit as int],
    decreases instructions.len() - i,
{
    if i < instructions.len() {
        law_untouched_qubits_go(instructions, i + 1, qubit, num_qubits, num_cbits);
        lemma_needed_shape(instructions, i + 1, num_qubits, num_cbits);
        assert(!instructions[i].touched().contains(qubit));
        match instructions[i] {
            Instruction::Measure { qubit: other, .. } => {
                assert(seq![other][0] == other);
                assert(instructions[i].touched() == seq![other]);
            },
            _ => {},
        }
    }
}

/// A gate on a qubit that is needed afterwards needs all its qubits.
pub proof fn law_partners_are_needed(
    instructions: Seq<Instruction>,
    i: int,
    q: usize,
    num_qubits: nat,
    num_cbits: nat,
)
    requires
        0 <= i < instructions.len(),
        !(instructions[i] is Measure),
        touches_needed(
            instructions[i].touched(),
            needed_at(instructions, i + 1, num_qubits, num_cbits).0,
        ),
        instructions[i].touched().contains(q),
        q < num_qubits,
    ensures
        needed_at(instructions, 0, num_qubits, num_cbits).0[q as int],
{
    lemma_needed_shape(instructions, i + 1, num_qubits, num_cbits);
    assert(needed_at(instructions, i, num_qubits, num_cbits).0[q as int]);
    lemma_needed_grows(instructions, 0, i, num_qubits, num_cbits, q as int);
}

/// The number of the first `q` qubits that stay.
pub open spec fn kept_below(keep: Seq<bool>, q: int) -> nat
    decreases q,
{
    if q <= 0 {
        0
    } else {
        kept_below(keep, q - 1) + if keep[q - 1] {
            1nat
        } else {
            0nat
        }
    }
}

/// The new numbers: the qubits that stay are counted from 0 on, in their old order.
pub open spec fn numbering(keep: Seq<bool>) -> Seq<Option<usize>> {
    Seq::new(
        keep.len(),
        |q: int|
            if keep[q] {
                Some(kept_below(keep, q) as usize)
            } else {
                None
            },
    )
}

/// Those among the first `q` qubits that go.
pub open spec fn removed_below(keep: Seq<bool>, q: int) -> Seq<usize>
    decreases q,
{
    if q <= 0 {
        Seq::empty()
    } else if keep[q - 1] {
        removed_below(keep, q - 1)
    } else {
        removed_below(keep, q - 1).push((q - 1) as usize)
    }
}

/// The number of qubits that stay grows by at most one for each qubit.
pub proof fn lemma_kept_below_bounds(keep: Seq<bool>, p: int, q: int)
    requires
        0 <= p <= q,
    ensures
        kept_below(keep, p) <= kept_below(keep, q) <= kept_below(keep, p) + (q - p),
    decreases q - p,
{
    if p < q {
        lemma_kept_below_bounds(keep, p, q - 1);
    }
}

/// The new numbers keep the order of the qubits, are different from each other, and leave no
/// gap: they lie below the number of qubits that stay.
pub proof fn law_numbering_is_order_preserving(keep: Seq<bool>, p: int, q: int)
    requires
        0 <= p < q < keep.len(),
        keep.len() <= usize::MAX,
        keep[p],
        keep[q],
    ensures
        numbering(keep)[p]->0 < numbering(keep)[q]->0,
        numbering(keep)[q]->0 < kept_below(keep, keep.len() as int),
{
    lemma_kept_below_bounds(keep, 0, p);
    lemma_kept_below_bounds(keep, 0, q);
    lemma_kept_below_bounds(keep, p + 1, q);
    lemma_kept_below_bounds(keep, q + 1, keep.len() as int);
}

/// A new number lies below the number of qubits that stay.
pub proof fn lemma_new_number_below(keep: Seq<bool>, q: int)
    requires
        0 <= q,
        keep.len() <= usize::MAX,
        q <= usize::MAX,
        new_number(numbering(keep), q as usize) is Some,
    ensures
        new_number(numbering(keep), q as usize)->0 < kept_below(keep, keep.len() as int),
{
    lemma_kept_below_bounds(keep, 0, q);
    lemma_kept_below_bounds(keep, q + 1, keep.len() as int);
}

/// Whether an instruction stays: an error if it touches a qubit that the circuit does not
/// have, or if only some of its qubits stay. An instruction without qubits stays.
pub open spec fn retention(touched: Seq<usize>, remap: Seq<Option<usize>>) -> Result<
    bool,
    TruncationError,
> {
    if exists|j: int| is_first_outside(touched, remap, j) {
        let j = choose|j: int| is_first_outside(touched, remap, j);
        Err(TruncationError::OutsideWidth { qubit: touched[j] })
    } else if touches_kept(touched, remap) && touches_removed(touched, remap) {
        Err(TruncationError::PartiallyRetained)
    } else {
        Ok(touched.len() == 0 || touches_kept(touched, remap))
    }
}

/// Whether the qubit at `j` is the first one that the circuit does not have.
pub open spec fn is_first_outside(
    touched: Seq<usize>,
    remap: Seq<Option<usize>>,
    j: int,
) -> bool {
    &&& 0 <= j < touched.len()
    &&& touched[j] >= remap.len()
    &&& forall|i: int| 0 <= i < j ==> (#[trigger] touched[i]) < remap.len()
}

/// Whether one of the qubits stays.
pub open spec fn touches_kept(touched: Seq<usize>, remap: Seq<Option<usize>>) -> bool {
    exists|j: int| 0 <= j < touched.len() && new_number(remap, #[trigger] touched[j]) is Some
}

/// Whether one of the qubits goes.
pub open spec fn touches_removed(touched: Seq<usize>, remap: Seq<Option<usize>>) -> bool {
    exists|j: int|
        0 <= j < touched.len() && (#[trigger] touched[j]) < remap.len() && new_number(
            remap,
            touched[j],
        ) is None
}

/// Whether `new` is `inst` with every qubit numbered anew.
pub open spec fn is_renumbered(
    new: Instruction,
    inst: Instruction,
    remap: Seq<Option<usize>>,
) -> bool {
    same_shape(new, inst) && new.touched() == renumbered(
        inst.touched(),
        remap,
        inst.touched().len() as int,
    )
}

fn instruction_touches_retained_qubits(touched: &[usize], remap: &[Option<usize>]) -> (r: Result<
    bool,
    TruncationError,
>)
    ensures
        touched@.len() > 0 ==> r == retention(touched@, remap@),
{
    let mut any_retained: bool = false;
    let mut any_removed: bool = false;
    let mut j: usize = 0;
    while j < touched.len()
        invariant
            j <= touched@.len(),
            forall|i: int| 0 <= i < j ==> (#[trigger] touched@[i]) < remap@.len(),
            any_retained == exists|i: int|
                0 <= i < j && new_number(remap@, #[trigger] touched@[i]) is Some,
            any_removed == exists|i: int|
                0 <= i < j && (#[trigger] touched@[i]) < remap@.len() && new_number(
                    remap@,
                    touched@[i],
                ) is None,
        decreases touched@.len() - j,
    {
        let q: usize = touched[j];
        assert(touched@[j as int] == q);
        if q >= remap.len() {
            proof {
                assert(is_first_outside(touched@, remap@, j as int));
                let first = choose|i: int| is_first_outside(touched@, remap@, i);
                assert(first == j) by {
                    if first < j {
                        assert(touched@[first] < remap@.len());
                    }
                    if j < first {
                        assert(touched@[j as int] < remap@.len());
                    }
                }
            }
            return Err(TruncationError::OutsideWidth { qubit: q });
        }
        let ghost was_retained = any_retained;
        let ghost was_removed = any_removed;
        match remap[q] {
            Some(_) => {
                any_retained = true;
            },
            None => {
                any_removed = true;
            },
        }
        proof {
            if was_retained {
                let i = choose|i: int|
                    0 <= i < j && new_number(remap@, #[trigger] touched@[i]) is Some;
                assert(0 <= i < j + 1 && new_number(remap@, touched@[i]) is Some);
            }
            if was_removed {
                let i = choose|i: int|
                    0 <= i < j && (#[trigger] touched@[i]) < remap@.len() && new_number(
                        remap@,
                        touched@[i],
                    ) is None;
                assert(0 <= i < j + 1 && touched@[i] < remap@.len());
            }
        }
        j = j + 1;
    }
    proof {
        assert(!exists|i: int| is_first_outside(touched@, remap@, i)) by {
            assert forall|i: int| !is_first_outside(touched@, remap@, i) by {
                if 0 <= i < touched@.len() {
                    assert(touched@[i] < remap@.len());
                }
            }
        }
    }
    if any_retained && any_removed {
        return Err(TruncationError::PartiallyRetained);
    }
    Ok(any_retained)
}

/// Numbers the qubits of an instruction anew, or drops it where all its qubits go.
pub fn remap_instruction_for_truncation(inst: &Instruction, remap: &[Option<usize>]) -> (r: Result<
    Option<Instruction>,
    TruncationError,
>)
    ensures
        match retention(inst.touched(), remap@) {
            Err(e) => r == Err::<Option<Instruction>, TruncationError>(e),
            Ok(false) => r == Ok::<Option<Instruction>, TruncationError>(None),
            Ok(true) => r is Ok && r->Ok_0 is Some && is_renumbered(r->Ok_0->0, *inst, remap@),
        },
{
    let touched: Vec<usize> = inst.qubits();
    if touched.len() == 0 {
        let kept: Instruction = inst.clone();
        proof {
            assert(!exists|i: int| is_first_outside(touched@, remap@, i));
            assert(kept.touched() =~= renumbered(inst.touched(), remap@, 0));
        }
        return Ok(Some(kept));
    }
    match instruction_touches_retained_qubits(touched.as_slice(), remap) {
        Err(e) => {
            return Err(e);
        },
        Ok(retained) => {
            if !retained {
                return Ok(None);
            }
        },
    }
    let mut remapped: Instruction = inst.clone();
    let result: Result<(), TruncationError> = remap_instruction_qubits_in_place(
        &mut remapped,
        remap,
    );
    proof {
        lemma_retained_is_numbered(touched@, remap@);
        lemma_same_shape_transitive(remapped, *inst);
    }
    match result {
        Ok(_) => Ok(Some(remapped)),
        Err(e) => {
            proof {
                let j = choose|j: int|
                    0 <= j < touched@.len() && #[trigger] all_numbered(touched@, remap@, j)
                        && new_number(remap@, touched@[j]) is None && e == (
                    TruncationError::NotRetained { qubit: touched@[j] }) && remapped.touched()
                        == renumbered(touched@, remap@, j);
                assert(new_number(remap@, touched@[j]) is Some);
            }
            Err(e)
        },
    }
}

/// An instruction that stays has new numbers for all its qubits.
pub proof fn lemma_retained_is_numbered(touched: Seq<usize>, remap: Seq<Option<usize>>)
    requires
        touched.len() > 0,
        retention(touched, remap) == Ok::<bool, TruncationError>(true),
    ensures
        all_numbered(touched, remap, touched.len() as int),
{
    assert forall|j: int| 0 <= j < touched.len() implies new_number(
        remap,
        #[trigger] touched[j],
    ) is Some by {
        if touched[j] >= remap.len() {
            lemma_some_first_outside(touched, remap, j);
        }
    }
}

proof fn lemma_some_first_outside(touched: Seq<usize>, remap: Seq<Option<usize>>, j: int)
    requires
        0 <= j < touched.len(),
        touched[j] >= remap.len(),
    ensures
        exists|i: int| is_first_outside(touched, remap, i),
    decreases j,
{
    if exists|i: int| 0 <= i < j && (#[trigger] touched[i]) >= remap.len() {
        let i = choose|i: int| 0 <= i < j && (#[trigger] touched[i]) >= remap.len();
        lemma_some_first_outside(touched, remap, i);
    } else {
        assert(is_first_outside(touched, remap, j));
    }
}

proof fn lemma_same_shape_transitive(a: Instruction, b: Instruction)
    ensures
        forall|m: Instruction| #[trigger]
            same_shape(a, m) && same_shape(m, b) ==> same_shape(a, b),
    decreases a,
{
    assert forall|m: Instruction| #[trigger] same_shape(a, m) && same_shape(m, b) implies same_shape(
        a,
        b,
    ) by {
        match (a, b) {
            (Instruction::Conditional { op, .. }, Instruction::Conditional { op: op2, .. }) => {
                lemma_same_shape_transitive(*op, *op2);
                match m {
                    Instruction::Conditional { op: mid, .. } => {
                        assert(same_shape(*op, *mid) && same_shape(*mid, *op2));
                    },
                    _ => {},
                }
            },
            _ => {},
        }
    }
}

/// A circuit without the qubits that cannot influence the counts.
pub struct QubitTruncation {
    pub circuit: Circuit,
    pub removed_qubits: Vec<usize>,
}

/// Whether `out` are the instructions that stay, numbered anew, in their old order.
pub open spec fn is_reduced(
    instructions: Seq<Instruction>,
    remap: Seq<Option<usize>>,
    out: Seq<Instruction>,
) -> bool
    decreases instructions.len(),
{
    if instructions.len() == 0 {
        out.len() == 0
    } else {
        match retention(instructions.last().touched(), remap) {
            Ok(false) => is_reduced(instructions.drop_last(), remap, out),
            Ok(true) => out.len() > 0 && is_renumbered(out.last(), instructions.last(), remap)
                && is_reduced(instructions.drop_last(), remap, out.drop_last()),
            Err(_) => false,
        }
    }
}

/// Whether the instruction at `i` is the first one that cannot be reduced, with error `e`.
pub open spec fn fails_first(
    instructions: Seq<Instruction>,
    remap: Seq<Option<usize>>,
    i: int,
    e: TruncationError,
) -> bool {
    &&& 0 <= i < instructions.len()
    &&& retention(instructions[i].touched(), remap) == Err::<bool, TruncationError>(e)
    &&& forall|j: int|
        0 <= j < i ==> retention((#[trigger] instructions[j]).touched(), remap) is Ok
}

/// Whether every qubit stays.
pub open spec fn all_kept(keep: Seq<bool>) -> bool {
    forall|q: int| 0 <= q < keep.len() ==> #[trigger] keep[q]
}

/// The qubits of a circuit that stay.
pub open spec fn kept_qubits(circuit: Circuit) -> Seq<bool> {
    needed_at(circuit.instructions@, 0, circuit.qubit_count(), circuit.cbit_count()).0
}

/// Whether two registers are the same.
pub open spec fn same_register(a: Register, b: Register) -> bool {
    a.name@ == b.name@ && a.size == b.size && a.base == b.base
}

/// Whether `t` is the reduced circuit.
pub open spec fn is_truncation(t: QubitTruncation, circuit: Circuit) -> bool {
    let keep = kept_qubits(circuit);
    let kept = kept_below(keep, keep.len() as int);
    &&& t.removed_qubits@ == removed_below(keep, keep.len() as int)
    &&& is_reduced(circuit.instructions@, numbering(keep), t.circuit.instructions@)
    &&& t.circuit.cregs@.len() == circuit.cregs@.len()
    &&& forall|i: int|
        0 <= i < circuit.cregs@.len() ==> same_register(
            #[trigger] t.circuit.cregs@[i],
            circuit.cregs@[i],
        )
    &&& t.circuit.wf()
    &&& t.circuit.qubit_count() == kept
    &&& t.circuit.cbit_count() == circuit.cbit_count()
    &&& kept == 0 ==> t.circuit.qregs@.len() == 0
    &&& kept > 0 ==> t.circuit.qregs@.len() == 1 && t.circuit.qregs@[0].name@
        == "__dqsim_truncated"@ && t.circuit.qregs@[0].base == 0
}

fn clone_registers(regs: &Vec<Register>) -> (r: Vec<Register>)
    ensures
        r@.len() == regs@.len(),
        forall|i: int| 0 <= i < regs@.len() ==> same_register(#[trigger] r@[i], regs@[i]),
{
    let mut out: Vec<Register> = Vec::new();
    let mut i: usize = 0;
    while i < regs.len()
        invariant
            i <= regs@.len(),
            out@.len() == i,
            forall|j: int| 0 <= j < i ==> same_register(#[trigger] out@[j], regs@[j]),
        decreases regs@.len() - i,
    {
        out.push(
            Register { name: regs[i].name.clone(), size: regs[i].size, base: regs[i].base },
        );
        i = i + 1;
    }
    out
}

proof fn lemma_same_end(a: Seq<Register>, b: Seq<Register>)
    requires
        a.len() == b.len(),
        registers_fit(b),
        forall|i: int| 0 <= i < b.len() ==> same_register(#[trigger] a[i], b[i]),
    ensures
        registers_end(a) == registers_end(b),
        registers_fit(a),
    decreases a.len(),
{
    assert forall|i: int| 0 <= i < a.len() implies (#[trigger] a[i]).base + a[i].size
        <= usize::MAX by {
        assert(same_register(a[i], b[i]));
        assert(b[i].base + b[i].size <= usize::MAX);
    }
    if a.len() > 0 {
        let c = a.drop_last();
        let d = b.drop_last();
        assert forall|i: int| 0 <= i < d.len() implies same_register(#[trigger] c[i], d[i]) by {
            assert(same_register(a[i], b[i]));
        }
        assert forall|i: int| 0 <= i < d.len() implies (#[trigger] d[i]).base + d[i].size
            <= usize::MAX by {
            assert(b[i].base + b[i].size <= usize::MAX);
        }
        lemma_same_end(c, d);
        assert(same_register(a[a.len() - 1], b[b.len() - 1]));
    }
}

/// Removes the qubits that cannot influence the counts. Nothing is to be done (`None`) where
/// there are no qubits or all of them stay.
pub fn build_count_qubit_truncation(circuit: &Circuit) -> (r: Result<
    Option<QubitTruncation>,
    TruncationError,
>)
    requires
        circuit.wf(),
    ensures
        ({
            let keep = kept_qubits(*circuit);
            let remap = numbering(keep);
            if all_kept(keep) {
                r == Ok::<Option<QubitTruncation>, TruncationError>(None)
            } else {
                match r {
                    Ok(Some(t)) => is_truncation(t, *circuit),
                    Ok(None) => false,
                    Err(e) => exists|i: int| #[trigger]
                        fails_first(circuit.instructions@, remap, i, e),
                }
            }
        }),
{
    let n: usize = circuit.num_qubits();
    if n == 0 {
        proof {
            lemma_needed_shape(circuit.instructions@, 0, 0, circuit.cbit_count());
        }
        return Ok(None);
    }
    let keep: Vec<bool> = count_relevant_qubits(circuit, n);
    let mut kept: usize = 0;
    let mut removed_qubits: Vec<usize> = Vec::new();
    let mut remap: Vec<Option<usize>> = Vec::new();
    let mut q: usize = 0;
    while q < n
        invariant
            q <= n,
            n == keep@.len(),
            kept == kept_below(keep@, q as int),
            kept <= q,
            removed_qubits@ == removed_below(keep@, q as int),
            removed_qubits@.len() == q - kept,
            remap@.len() == q,
            forall|j: int| 0 <= j < q ==> #[trigger] remap@[j] == numbering(keep@)[j],
        decreases n - q,
    {
        if keep[q] {
            remap.push(Some(kept));
            kept = kept + 1;
        } else {
            remap.push(None);
            removed_qubits.push(q);
        }
        q = q + 1;
    }
    assert(remap@ =~= numbering(keep@));
    if removed_qubits.len() == 0 {
        proof {
            assert forall|j: int| 0 <= j < keep@.len() implies #[trigger] keep@[j] by {
                if !keep@[j] {
                    lemma_kept_below_bounds(keep@, 0, j);
                    lemma_kept_below_bounds(keep@, j + 1, n as int);
                }
            }
        }
        return Ok(None);
    }
    proof {
        if all_kept(keep@) {
            lemma_all_kept_removes_nothing(keep@, n as int);
        }
    }
    let mut instructions: Vec<Instruction> = Vec::new();
    let mut i: usize = 0;
    while i < circuit.instructions.len()
        invariant
            i <= circuit.instructions@.len(),
            keep@ == kept_qubits(*circuit),
            !all_kept(keep@),
            remap@ == numbering(keep@),
            forall|j: int|
                0 <= j < i ==> retention(
                    (#[trigger] circuit.instructions@[j]).touched(),
                    remap@,
                ) is Ok,
            is_reduced(circuit.instructions@.take(i as int), remap@, instructions@),
        decreases circuit.instructions@.len() - i,
    {
        proof {
            let now = circuit.instructions@.take(i as int);
            let next = circuit.instructions@.take(i + 1);
            assert(next.drop_last() =~= now);
            assert(next.last() == circuit.instructions@[i as int]);
        }
        match remap_instruction_for_truncation(&circuit.instructions[i], remap.as_slice()) {
            Err(e) => {
                assert(fails_first(circuit.instructions@, remap@, i as int, e));
                return Err(e);
            },
            Ok(Some(remapped)) => {
                let ghost was = instructions@;
                instructions.push(remapped);
                assert(instructions@.drop_last() =~= was);
            },
            Ok(None) => {},
        }
        i = i + 1;
    }
    assert(circuit.instructions@.take(i as int) =~= circuit.instructions@);
    let cregs: Vec<Register> = clone_registers(&circuit.cregs);
    let mut qregs: Vec<Register> = Vec::new();
    if kept > 0 {
        let name: String = "__dqsim_truncated".to_owned();
        qregs.push(Register { name, size: kept, base: 0 });
        assert(qregs@.drop_last() =~= Seq::<Register>::empty());
    }
    proof {
        lemma_same_end(cregs@, circuit.cregs@);
        assert(registers_end(Seq::<Register>::empty()) == 0);
        assert(registers_end(qregs@) == kept);
    }
    let result: QubitTruncation = QubitTruncation {
        circuit: Circuit { qregs, cregs, instructions },
        removed_qubits,
    };
    assert(is_truncation(result, *circuit));
    Ok(Some(result))
}

proof fn lemma_all_kept_removes_nothing(keep: Seq<bool>, q: int)
    requires
        all_kept(keep),
        0 <= q <= keep.len(),
    ensures
        removed_below(keep, q).len() == 0,
    decreases q,
{
    if q > 0 {
        assert(keep[q - 1]);
        lemma_all_kept_removes_nothing(keep, q - 1);
    }
}

} // verus!
