//! Circuits and classical results.

use std::collections::HashMap;

use vstd::prelude::*;

use crate::instruction::Instruction;
use crate::text::{bit_char, decimal, push_signed_decimal};

verus! {

/// A register of qubits or of classical bits: the bits from `base` on, `size` of them.
pub struct Register {
    pub name: String,
    pub size: usize,
    pub base: usize,
}

/// A circuit. No two registers of one kind share a name.
pub struct Circuit {
    pub qregs: Vec<Register>,
    pub cregs: Vec<Register>,
    pub instructions: Vec<Instruction>,
}

/// Whether the ends of all registers are numbers that fit.
pub open spec fn registers_fit(regs: Seq<Register>) -> bool {
    forall|i: int|
        0 <= i < regs.len() ==> (#[trigger] regs[i]).base + regs[i].size <= usize::MAX
}

/// The end of the register that reaches furthest, or 0 without registers.
pub open spec fn registers_end(regs: Seq<Register>) -> nat
    decreases regs.len(),
{
    if regs.len() == 0 {
        0
    } else {
        let rest = registers_end(regs.drop_last());
        let end = (regs.last().base + regs.last().size) as nat;
        if rest < end {
            end
        } else {
            rest
        }
    }
}

/// Every register ends at or before the furthest end, and one of them ends there unless
/// there is none.
pub proof fn law_registers_end(regs: Seq<Register>)
    ensures
        forall|i: int|
            0 <= i < regs.len() ==> (#[trigger] regs[i]).base + regs[i].size <= registers_end(regs),
        regs.len() > 0 ==> exists|i: int|
            0 <= i < regs.len() && (#[trigger] regs[i]).base + regs[i].size == registers_end(regs),
    decreases regs.len(),
{
    if regs.len() > 0 {
        let rest = regs.drop_last();
        law_registers_end(rest);
        assert forall|i: int| 0 <= i < regs.len() implies (#[trigger] regs[i]).base + regs[i].size
            <= registers_end(regs) by {
            if i < rest.len() {
                assert(rest[i] == regs[i]);
            }
        }
        let end = (regs.last().base + regs.last().size) as nat;
        if registers_end(rest) < end || rest.len() == 0 {
            assert(regs[regs.len() - 1].base + regs[regs.len() - 1].size == registers_end(regs));
        } else {
            let i = choose|i: int|
                0 <= i < rest.len() && (#[trigger] rest[i]).base + rest[i].size == registers_end(
                    rest,
                );
            assert(regs[i] == rest[i]);
        }
    }
}

fn furthest_end(regs: &Vec<Register>) -> (r: usize)
    requires
        registers_fit(regs@),
    ensures
        r == registers_end(regs@),
{
    let mut end: usize = 0;
    let mut i: usize = 0;
    while i < regs.len()
        invariant
            i <= regs@.len(),
            registers_fit(regs@),
            end == registers_end(regs@.take(i as int)),
        decreases regs@.len() - i,
    {
        assert(regs@.take(i + 1).drop_last() =~= regs@.take(i as int));
        let here: usize = regs[i].base + regs[i].size;
        if end < here {
            end = here;
        }
        i = i + 1;
    }
    assert(regs@.take(i as int) =~= regs@);
    end
}

impl Circuit {
    /// Whether the ends of all registers are numbers that fit.
    pub open spec fn wf(&self) -> bool {
        registers_fit(self.qregs@) && registers_fit(self.cregs@)
    }

    /// The number of qubits.
    pub open spec fn qubit_count(&self) -> nat {
        registers_end(self.qregs@)
    }

    /// The number of classical bits.
    pub open spec fn cbit_count(&self) -> nat {
        registers_end(self.cregs@)
    }

    /// The number of qubits: the end of the quantum register that reaches furthest.
    pub fn num_qubits(&self) -> (r: usize)
        requires
            self.wf(),
        ensures
            r == self.qubit_count(),
    {
        furthest_end(&self.qregs)
    }

    /// The number of classical bits: the end of the classical register that reaches furthest.
    pub fn num_cbits(&self) -> (r: usize)
        requires
            self.wf(),
        ensures
            r == self.cbit_count(),
    {
        furthest_end(&self.cregs)
    }
}

/// The value of a classical bit; a bit that was never written is 0.
pub open spec fn cbit_value(cbits: Map<usize, i32>, i: usize) -> i32 {
    if cbits.dom().contains(i) {
        cbits[i]
    } else {
        0
    }
}

/// The values of the classical bits below `count`, the highest bit first.
pub open spec fn cbits_text(cbits: Map<usize, i32>, count: nat) -> Seq<char>
    decreases count,
{
    if count == 0 {
        Seq::empty()
    } else {
        decimal(cbit_value(cbits, (count - 1) as usize) as int) + cbits_text(
            cbits,
            (count - 1) as nat,
        )
    }
}

/// The value of a classical bit.
pub fn read_cbit(cbits: &HashMap<usize, i32>, i: usize) -> (r: i32)
    ensures
        r == cbit_value(cbits@, i),
{
    broadcast use vstd::std_specs::hash::group_hash_axioms;

    match cbits.get(&i) {
        Some(value) => *value,
        None => 0,
    }
}

/// Writes the classical bits as a text with the most significant bit first. Bits that were
/// never written are 0.
pub fn format_cbits(cbits: &HashMap<usize, i32>, num_cbits: usize) -> (r: String)
    ensures
        r@ == cbits_text(cbits@, num_cbits as nat),
{
    let mut text: String = String::new();
    let mut i: usize = num_cbits;
    assert(text@ + cbits_text(cbits@, i as nat) =~= cbits_text(cbits@, num_cbits as nat));
    while i > 0
        invariant
            i <= num_cbits,
            text@ + cbits_text(cbits@, i as nat) == cbits_text(cbits@, num_cbits as nat),
        decreases i,
    {
        let value: i32 = read_cbit(cbits, i - 1);
        let ghost before = text@;
        push_signed_decimal(&mut text, value);
        assert(text@ + cbits_text(cbits@, (i - 1) as nat) =~= before + cbits_text(cbits@, i as nat));
        i = i - 1;
    }
    assert(text@ =~= cbits_text(cbits@, num_cbits as nat));
    text
}

/// Bits that are all 0 or 1 are written with one digit each, the highest bit leftmost.
pub proof fn law_one_digit_per_bit(cbits: Map<usize, i32>, count: nat)
    requires
        forall|i: usize| #[trigger] cbits.dom().contains(i) ==> cbits[i] == 0 || cbits[i] == 1,
    ensures
        cbits_text(cbits, count) == Seq::new(
            count,
            |j: int| bit_char(cbit_value(cbits, (count - 1 - j) as usize) == 1),
        ),
    decreases count,
{
    if count > 0 {
        law_one_digit_per_bit(cbits, (count - 1) as nat);
        let value = cbit_value(cbits, (count - 1) as usize);
        assert(value == 0 || value == 1) by {
            if cbits.dom().contains((count - 1) as usize) {
            }
        }
        assert(decimal(value as int) =~= seq![bit_char(value == 1)]);
        assert(cbits_text(cbits, count) =~= Seq::new(
            count,
            |j: int| bit_char(cbit_value(cbits, (count - 1 - j) as usize) == 1),
        ));
    } else {
        assert(cbits_text(cbits, count) =~= Seq::new(
            count,
            |j: int| bit_char(cbit_value(cbits, (count - 1 - j) as usize) == 1),
        ));
    }
}

} // verus!
