//! Fusion of consecutive one-qubit gates.
//!
//! The one-qubit gates on a qubit are multiplied up until an instruction of another kind
//! touches the qubit; the product then takes their place. A product that is the identity is
//! left out.

use std::collections::HashMap;

use vstd::prelude::*;

use crate::circuit::Circuit;
use crate::engine::Matrix2;
use crate::gate_matrix::{
    gate_matrix_1q, identity_2x2, is_fixed_gate, is_identity_2x2, is_matrix_of, is_product, reads_as_identity,
    matmul2x2, single_gate_qubit,
};
use crate::instruction::{Instruction, Kind};

verus! {

/// A piece of a fused stream of instructions: one of the instructions, by its place in the
/// stream, or a one-qubit gate that stands for a run of gates.
#[derive(Clone, Copy)]
pub enum FusedPiece {
    Original { place: usize },
    Fused1Q { qubit: usize, matrix: Matrix2 },
}

/// Where fusion stands: for each qubit the product of the gates that are still to be emitted,
/// and the pieces emitted so far.
pub struct FusionState {
    pub pending: Seq<Option<Matrix2>>,
    pub pieces: Seq<FusedPiece>,
}

/// The product that waits on a qubit.
pub open spec fn pending_on(pending: Seq<Option<Matrix2>>, q: usize) -> Option<Matrix2> {
    if q < pending.len() {
        pending[q as int]
    } else {
        None
    }
}

/// Whether a gate on qubit `q` has been multiplied to what was waiting there, or to the
/// identity where nothing was.
pub open spec fn accumulates(
    inst: Instruction,
    q: usize,
    before: FusionState,
    after: FusionState,
) -> bool {
    &&& after.pieces == before.pieces
    &&& forall|p: usize|
        p != q ==> #[trigger] pending_on(after.pending, p) == pending_on(before.pending, p)
    &&& pending_on(after.pending, q) is Some
    &&& exists|m: Matrix2, acc: Matrix2| #[trigger]
        is_product(pending_on(after.pending, q)->0, m, acc) && is_matrix_of(inst, m) && (
        match pending_on(before.pending, q) {
            Some(waiting) => acc == waiting,
            None => is_fixed_gate(Kind::Id, acc),
        })
    &&& is_identity_gate(inst) && waits_as_identity(before.pending, q) ==> waits_as_identity(
        after.pending,
        q,
    )
}

/// Whether an instruction is an identity on one qubit.
pub open spec fn is_identity_gate(inst: Instruction) -> bool {
    inst is Id || inst is U0
}

/// Whether nothing but the identity waits on a qubit.
pub open spec fn waits_as_identity(pending: Seq<Option<Matrix2>>, q: usize) -> bool {
    pending_on(pending, q) matches Some(matrix) ==> is_fixed_gate(Kind::Id, matrix)
}

/// Whether the product on qubit `q` has been emitted, or left out where it reads as the
/// identity, as the identity itself does.
pub open spec fn flushes(q: usize, before: FusionState, after: FusionState) -> bool {
    match pending_on(before.pending, q) {
        None => after == before,
        Some(matrix) => {
            &&& after.pending == before.pending.update(q as int, None)
            &&& {
                ||| reads_as_identity(matrix, true) && after.pieces == before.pieces
                ||| reads_as_identity(matrix, false) && !is_fixed_gate(Kind::Id, matrix)
                    && after.pieces == before.pieces.push(
                    FusedPiece::Fused1Q { qubit: q, matrix },
                )
            }
        },
    }
}

/// Whether the products on the first `count` of some qubits have been flushed, one after
/// another.
pub open spec fn flushes_all(
    qubits: Seq<usize>,
    count: int,
    before: FusionState,
    after: FusionState,
) -> bool
    decreases count,
{
    if count <= 0 {
        after == before
    } else {
        exists|mid: FusionState| #[trigger]
            flushes(qubits[count - 1], mid, after) && flushes_all(qubits, count - 1, before, mid)
    }
}

/// Whether the instruction at `place` has been taken in: a one-qubit gate is multiplied up;
/// any other instruction is emitted, after the products on its qubits.
pub open spec fn takes_in(
    inst: Instruction,
    place: usize,
    before: FusionState,
    after: FusionState,
) -> bool {
    match single_gate_qubit(inst) {
        Some(q) => accumulates(inst, q, before, after),
        None => exists|mid: FusionState| #[trigger]
            flushes_all(inst.touched(), inst.touched().len() as int, before, mid) && after
                == (FusionState {
                pending: mid.pending,
                pieces: mid.pieces.push(FusedPiece::Original { place }),
            }),
    }
}

/// The numbers below `n`.
pub open spec fn ascending(n: nat) -> Seq<usize> {
    Seq::new(n, |i: int| i as usize)
}

/// Whether `trace` are the states through which the fusion of a stream goes: from nothing,
/// instruction by instruction.
pub open spec fn is_trace(stream: Seq<Instruction>, trace: Seq<FusionState>) -> bool {
    &&& trace.len() == stream.len() + 1
    &&& trace[0] == (FusionState { pending: Seq::empty(), pieces: Seq::empty() })
    &&& forall|i: int|
        #![trigger trace[i + 1]]
        0 <= i < stream.len() ==> takes_in(stream[i], i as usize, trace[i], trace[i + 1])
}

/// Whether `pieces` are what the fusion of a stream emits; what waits at the end is flushed
/// in the order of the qubits.
pub open spec fn is_fusion(stream: Seq<Instruction>, pieces: Seq<FusedPiece>) -> bool {
    exists|trace: Seq<FusionState>, last: FusionState|
        is_trace(stream, trace) && #[trigger] flushes_all(
            ascending(trace[stream.len() as int].pending.len()),
            trace[stream.len() as int].pending.len() as int,
            trace[stream.len() as int],
            last,
        ) && pieces == last.pieces
}

/// The places of the instructions among the first `count` of a stream that are not one-qubit
/// gates.
pub open spec fn kept_places(stream: Seq<Instruction>, count: int) -> Seq<usize>
    decreases count,
{
    if count <= 0 {
        Seq::empty()
    } else if single_gate_qubit(stream[count - 1]) is None {
        kept_places(stream, count - 1).push((count - 1) as usize)
    } else {
        kept_places(stream, count - 1)
    }
}

/// The places of the instructions among some pieces.
pub open spec fn original_places(pieces: Seq<FusedPiece>) -> Seq<usize>
    decreases pieces.len(),
{
    if pieces.len() == 0 {
        Seq::empty()
    } else {
        match pieces.last() {
            FusedPiece::Original { place } => original_places(pieces.drop_last()).push(place),
            FusedPiece::Fused1Q { .. } => original_places(pieces.drop_last()),
        }
    }
}

proof fn lemma_original_push(pieces: Seq<FusedPiece>, piece: FusedPiece)
    ensures
        original_places(pieces.push(piece)) == (match piece {
            FusedPiece::Original { place } => original_places(pieces).push(place),
            FusedPiece::Fused1Q { .. } => original_places(pieces),
        }),
{
    assert(pieces.push(piece).drop_last() =~= pieces);
}

proof fn lemma_flushes_keep_originals(
    qubits: Seq<usize>,
    count: int,
    before: FusionState,
    after: FusionState,
)
    requires
        flushes_all(qubits, count, before, after),
    ensures
        original_places(after.pieces) == original_places(before.pieces),
        after.pending.len() == before.pending.len(),
        forall|p: usize|
            pending_on(before.pending, p) is None ==> #[trigger] pending_on(
                after.pending,
                p,
            ) is None,
        forall|j: int|
            0 <= j < count ==> pending_on(after.pending, #[trigger] qubits[j]) is None,
    decreases count,
{
    if count > 0 {
        let mid = choose|mid: FusionState| #[trigger]
            flushes(qubits[count - 1], mid, after) && flushes_all(qubits, count - 1, before, mid);
        lemma_flushes_keep_originals(qubits, count - 1, before, mid);
        match pending_on(mid.pending, qubits[count - 1]) {
            Some(matrix) => {
                lemma_original_push(
                    mid.pieces,
                    FusedPiece::Fused1Q { qubit: qubits[count - 1], matrix },
                );
            },
            None => {},
        }
        assert forall|p: usize| pending_on(before.pending, p) is None implies #[trigger] pending_on(
            after.pending,
            p,
        ) is None by {
            assert(pending_on(mid.pending, p) is None);
        }
        assert forall|j: int| 0 <= j < count implies pending_on(
            after.pending,
            #[trigger] qubits[j],
        ) is None by {
            if j < count - 1 {
                assert(pending_on(mid.pending, qubits[j]) is None);
            }
        }
    }
}

proof fn lemma_trace_originals(stream: Seq<Instruction>, trace: Seq<FusionState>, i: int)
    requires
        is_trace(stream, trace),
        0 <= i <= stream.len(),
    ensures
        original_places(trace[i].pieces) == kept_places(stream, i),
    decreases i,
{
    if i > 0 {
        lemma_trace_originals(stream, trace, i - 1);
        let inst = stream[i - 1];
        assert(takes_in(inst, (i - 1) as usize, trace[i - 1], trace[i - 1 + 1]));
        if single_gate_qubit(inst) is None {
            let mid = choose|mid: FusionState| #[trigger]
                flushes_all(inst.touched(), inst.touched().len() as int, trace[i - 1], mid)
                    && trace[i] == (FusionState {
                    pending: mid.pending,
                    pieces: mid.pieces.push(FusedPiece::Original { place: (i - 1) as usize }),
                });
            lemma_flushes_keep_originals(
                inst.touched(),
                inst.touched().len() as int,
                trace[i - 1],
                mid,
            );
            lemma_original_push(mid.pieces, FusedPiece::Original { place: (i - 1) as usize });
        }
    }
}

/// Fusion keeps every instruction that is not a one-qubit gate, once and in its old order.
pub proof fn law_fusion_keeps_other_instructions(
    stream: Seq<Instruction>,
    pieces: Seq<FusedPiece>,
)
    requires
        is_fusion(stream, pieces),
    ensures
        original_places(pieces) == kept_places(stream, stream.len() as int),
{
    let (trace, last) = choose|trace: Seq<FusionState>, last: FusionState|
        is_trace(stream, trace) && #[trigger] flushes_all(
            ascending(trace[stream.len() as int].pending.len()),
            trace[stream.len() as int].pending.len() as int,
            trace[stream.len() as int],
            last,
        ) && pieces == last.pieces;
    let end = trace[stream.len() as int];
    lemma_trace_originals(stream, trace, stream.len() as int);
    lemma_flushes_keep_originals(
        ascending(end.pending.len()),
        end.pending.len() as int,
        end,
        last,
    );
}

/// When an instruction that is not a one-qubit gate is emitted, no gate is left waiting on
/// any of its qubits.
pub proof fn law_no_gate_waits_on_a_touched_qubit(
    inst: Instruction,
    place: usize,
    before: FusionState,
    after: FusionState,
    q: usize,
)
    requires
        single_gate_qubit(inst) is None,
        takes_in(inst, place, before, after),
        inst.touched().contains(q),
    ensures
        pending_on(after.pending, q) is None,
{
    let mid = choose|mid: FusionState| #[trigger]
        flushes_all(inst.touched(), inst.touched().len() as int, before, mid) && after == (
        FusionState {
            pending: mid.pending,
            pieces: mid.pieces.push(FusedPiece::Original { place }),
        });
    lemma_flushes_keep_originals(inst.touched(), inst.touched().len() as int, before, mid);
    let j = choose|j: int| 0 <= j < inst.touched().len() && inst.touched()[j] == q;
    assert(pending_on(mid.pending, inst.touched()[j]) is None);
}

/// Emits the product that waits on a qubit, unless it is the identity.
fn flush_pending(qubit: usize, pending: &mut Vec<Option<Matrix2>>, out: &mut Vec<FusedPiece>)
    ensures
        flushes(
            qubit,
            (FusionState { pending: old(pending)@, pieces: old(out)@ }),
            (FusionState { pending: final(pending)@, pieces: final(out)@ }),
        ),
{
    if qubit < pending.len() {
        let waiting: Option<Matrix2> = pending[qubit];
        match waiting {
            Some(matrix) => {
                pending[qubit] = None;
                if !is_identity_2x2(&matrix) {
                    out.push(FusedPiece::Fused1Q { qubit, matrix });
                }
            },
            None => {},
        }
    }
}

/// Emits the products that wait on some qubits.
fn flush_qubits(qubits: &Vec<usize>, pending: &mut Vec<Option<Matrix2>>, out: &mut Vec<FusedPiece>)
    ensures
        flushes_all(
            qubits@,
            qubits@.len() as int,
            (FusionState { pending: old(pending)@, pieces: old(out)@ }),
            (FusionState { pending: final(pending)@, pieces: final(out)@ }),
        ),
{
    let ghost before = FusionState { pending: pending@, pieces: out@ };
    let mut i: usize = 0;
    while i < qubits.len()
        invariant
            i <= qubits@.len(),
            flushes_all(
                qubits@,
                i as int,
                before,
                (FusionState { pending: pending@, pieces: out@ }),
            ),
        decreases qubits@.len() - i,
    {
        let ghost mid = FusionState { pending: pending@, pieces: out@ };
        flush_pending(qubits[i], pending, out);
        assert(flushes(
            qubits@[i + 1 - 1],
            mid,
            (FusionState { pending: pending@, pieces: out@ }),
        ));
        assert(flushes_all(qubits@, i + 1 - 1, before, mid));
        i = i + 1;
    }
}

/// Fuses the one-qubit gates of a stream of instructions.
pub fn fuse_stream(stream: &Vec<&Instruction>) -> (out: Vec<FusedPiece>)
    requires
        forall|i: int|
            #![trigger stream@[i]]
            0 <= i < stream@.len() ==> (single_gate_qubit(*stream@[i]) matches Some(q) ==> q
                < usize::MAX),
    ensures
        is_fusion(stream@.map_values(|inst: &Instruction| *inst), out@),
{
    let ghost insts = stream@.map_values(|inst: &Instruction| *inst);
    let mut pending: Vec<Option<Matrix2>> = Vec::new();
    let mut out: Vec<FusedPiece> = Vec::new();
    let ghost mut trace: Seq<FusionState> = seq![
        FusionState { pending: pending@, pieces: out@ },
    ];
    let mut i: usize = 0;
    while i < stream.len()
        invariant
            i <= stream@.len(),
            forall|j: int|
                #![trigger stream@[j]]
                0 <= j < stream@.len() ==> (single_gate_qubit(*stream@[j]) matches Some(q) ==> q
                    < usize::MAX),
            insts == stream@.map_values(|inst: &Instruction| *inst),
            trace.len() == i + 1,
            trace[0] == (FusionState { pending: Seq::empty(), pieces: Seq::empty() }),
            trace[i as int] == (FusionState { pending: pending@, pieces: out@ }),
            forall|j: int|
                #![trigger trace[j + 1]]
                0 <= j < i ==> takes_in(insts[j], j as usize, trace[j], trace[j + 1]),
        decreases stream@.len() - i,
    {
        let inst: &Instruction = stream[i];
        assert(insts[i as int] == *inst);
        let ghost before = FusionState { pending: pending@, pieces: out@ };
        match gate_matrix_1q(inst) {
            Some((qubit, mat)) => {
                assert(single_gate_qubit(*stream@[i as int]) == Some(qubit));
                accumulate(&mut pending, qubit, mat);
                proof {
                    let after = FusionState { pending: pending@, pieces: out@ };
                    let acc = choose|acc: Matrix2| #[trigger]
                        is_product(pending_on(after.pending, qubit)->0, mat, acc) && (
                        match pending_on(before.pending, qubit) {
                            Some(waiting) => acc == waiting,
                            None => is_fixed_gate(Kind::Id, acc),
                        });
                    assert(is_product(pending_on(after.pending, qubit)->0, mat, acc));
                    assert(accumulates(*inst, qubit, before, after));
                }
            },
            None => {
                let touched: Vec<usize> = inst.qubits();
                flush_qubits(&touched, &mut pending, &mut out);
                let ghost mid = FusionState { pending: pending@, pieces: out@ };
                out.push(FusedPiece::Original { place: i });
                assert(flushes_all(inst.touched(), inst.touched().len() as int, before, mid));
            },
        }
        proof {
            let after = FusionState { pending: pending@, pieces: out@ };
            let next = trace.push(after);
            assert(takes_in(*inst, i, before, after));
            assert forall|j: int| #![trigger next[j + 1]] 0 <= j < i + 1 implies takes_in(
                insts[j],
                j as usize,
                next[j],
                next[j + 1],
            ) by {
                assert(next[j] == trace[j]);
                if j < i {
                    assert(next[j + 1] == trace[j + 1]);
                }
            }
            trace = next;
        }
        i = i + 1;
    }
    let ghost end = FusionState { pending: pending@, pieces: out@ };
    let all: Vec<usize> = first_numbers(pending.len());
    flush_qubits(&all, &mut pending, &mut out);
    proof {
        let last = FusionState { pending: pending@, pieces: out@ };
        assert(trace[insts.len() as int] == end);
        assert(flushes_all(ascending(end.pending.len()), end.pending.len() as int, end, last));
        assert(is_trace(insts, trace));
    }
    out
}

/// The numbers below `n`.
fn first_numbers(n: usize) -> (r: Vec<usize>)
    ensures
        r@ == ascending(n as nat),
{
    let mut out: Vec<usize> = Vec::new();
    let mut i: usize = 0;
    while i < n
        invariant
            i <= n,
            out@ =~= ascending(i as nat),
        decreases n - i,
    {
        out.push(i);
        i = i + 1;
    }
    out
}

/// Multiplies a gate to what waits on a qubit.
fn accumulate(pending: &mut Vec<Option<Matrix2>>, qubit: usize, mat: Matrix2)
    requires
        qubit < usize::MAX,
    ensures
        forall|p: usize|
            p != qubit ==> #[trigger] pending_on(final(pending)@, p) == pending_on(
                old(pending)@,
                p,
            ),
        pending_on(final(pending)@, qubit) is Some,
        exists|acc: Matrix2| #[trigger]
            is_product(pending_on(final(pending)@, qubit)->0, mat, acc) && (match pending_on(
                old(pending)@,
                qubit,
            ) {
                Some(waiting) => acc == waiting,
                None => is_fixed_gate(Kind::Id, acc),
            }),
        is_fixed_gate(Kind::Id, mat) && waits_as_identity(old(pending)@, qubit)
            ==> waits_as_identity(final(pending)@, qubit),
{
    let ghost before = pending@;
    while pending.len() <= qubit
        invariant
            qubit < usize::MAX,
            before.len() <= pending@.len(),
            pending@.len() <= before.len() || pending@.len() <= qubit + 1,
            forall|p: usize| #[trigger] pending_on(pending@, p) == pending_on(before, p),
        decreases qubit + 1 - pending@.len(),
    {
        let ghost was = pending@;
        pending.push(None);
        assert forall|p: usize| #[trigger] pending_on(pending@, p) == pending_on(before, p) by {
            assert(pending_on(was, p) == pending_on(before, p));
        }
    }
    assert(pending_on(pending@, qubit) == pending_on(before, qubit));
    let acc: Matrix2 = match pending[qubit] {
        Some(waiting) => waiting,
        None => identity_2x2(),
    };
    let product: Matrix2 = matmul2x2(mat, acc);
    let ghost grown = pending@;
    pending[qubit] = Some(product);
    assert forall|p: usize| p != qubit implies #[trigger] pending_on(pending@, p) == pending_on(
        before,
        p,
    ) by {
        assert(pending_on(grown, p) == pending_on(before, p));
    }
    assert(is_product(pending_on(pending@, qubit)->0, mat, acc));
}

/// A fused instruction: one of the instructions of a circuit, or a one-qubit gate that stands
/// for a run of gates.
pub enum FusedInstruction<'a> {
    Original(&'a Instruction),
    Fused1Q { qubit: usize, matrix: Matrix2 },
}

/// Whether `fused` is what a piece stands for.
pub open spec fn is_piece_of(
    fused: FusedInstruction<'_>,
    piece: FusedPiece,
    instructions: Seq<Instruction>,
) -> bool {
    match piece {
        FusedPiece::Original { place } => place < instructions.len() && fused
            == FusedInstruction::Original(&instructions[place as int]),
        FusedPiece::Fused1Q { qubit, matrix } => fused == (FusedInstruction::Fused1Q {
            qubit,
            matrix,
        }),
    }
}

/// Whether `out` is the fused form of some instructions.
pub open spec fn is_fused_circuit(
    instructions: Seq<Instruction>,
    out: Seq<FusedInstruction<'_>>,
) -> bool {
    exists|pieces: Seq<FusedPiece>| #[trigger]
        is_fusion(instructions, pieces) && pieces.len() == out.len() && forall|i: int|
            0 <= i < out.len() ==> is_piece_of(#[trigger] out[i], pieces[i], instructions)
}

/// Whether every qubit number can be followed by another one.
pub open spec fn gates_fit(instructions: Seq<Instruction>) -> bool {
    forall|i: int|
        0 <= i < instructions.len() ==> (single_gate_qubit(#[trigger] instructions[i]) matches Some(
            q,
        ) ==> q < usize::MAX)
}

proof fn lemma_places_below(stream: Seq<Instruction>, count: int)
    requires
        0 <= count <= stream.len() <= usize::MAX,
    ensures
        forall|i: int|
            0 <= i < kept_places(stream, count).len() ==> (#[trigger] kept_places(
                stream,
                count,
            )[i]) < count,
    decreases count,
{
    if count > 0 {
        lemma_places_below(stream, count - 1);
        let rest = kept_places(stream, count - 1);
        assert forall|i: int| 0 <= i < kept_places(stream, count).len() implies (
        #[trigger] kept_places(stream, count)[i]) < count by {
            if i < rest.len() {
                assert(rest[i] < count - 1);
            }
        }
    }
}

proof fn lemma_original_place_listed(pieces: Seq<FusedPiece>, i: int, place: usize)
    requires
        0 <= i < pieces.len(),
        pieces[i] == (FusedPiece::Original { place }),
    ensures
        original_places(pieces).contains(place),
    decreases pieces.len(),
{
    let rest = pieces.drop_last();
    if i < rest.len() {
        lemma_original_place_listed(rest, i, place);
        let j = choose|j: int|
            0 <= j < original_places(rest).len() && original_places(rest)[j] == place;
        assert(original_places(pieces)[j] == place);
    } else {
        assert(original_places(pieces)[original_places(rest).len() as int] == place);
    }
}

/// The instruction that a piece stands for has its place in the stream.
proof fn lemma_piece_place(stream: Seq<Instruction>, pieces: Seq<FusedPiece>, i: int, place: usize)
    requires
        is_fusion(stream, pieces),
        stream.len() <= usize::MAX,
        0 <= i < pieces.len(),
        pieces[i] == (FusedPiece::Original { place }),
    ensures
        place < stream.len(),
{
    law_fusion_keeps_other_instructions(stream, pieces);
    lemma_places_below(stream, stream.len() as int);
    lemma_original_place_listed(pieces, i, place);
}

/// Fuses consecutive one-qubit gates on the same qubit into one gate each.
pub fn fuse_circuit<'a>(instructions: &'a [Instruction]) -> (out: Vec<FusedInstruction<'a>>)
    requires
        gates_fit(instructions@),
    ensures
        is_fused_circuit(instructions@, out@),
{
    let mut stream: Vec<&Instruction> = Vec::new();
    let mut i: usize = 0;
    while i < instructions.len()
        invariant
            i <= instructions@.len(),
            gates_fit(instructions@),
            stream@.len() == i,
            forall|j: int| 0 <= j < i ==> *(#[trigger] stream@[j]) == instructions@[j],
        decreases instructions@.len() - i,
    {
        stream.push(&instructions[i]);
        i = i + 1;
    }
    proof {
        assert forall|j: int| #![trigger stream@[j]] 0 <= j < stream@.len() implies (
            single_gate_qubit(*stream@[j]) matches Some(q) ==> q < usize::MAX) by {
            assert(single_gate_qubit(instructions@[j]) matches Some(q) ==> q < usize::MAX);
        }
        assert(stream@.map_values(|inst: &Instruction| *inst) =~= instructions@);
    }
    let pieces: Vec<FusedPiece> = fuse_stream(&stream);
    let mut out: Vec<FusedInstruction<'a>> = Vec::new();
    let mut p: usize = 0;
    while p < pieces.len()
        invariant
            p <= pieces@.len(),
            instructions@.len() <= usize::MAX,
            is_fusion(instructions@, pieces@),
            out@.len() == p,
            forall|j: int|
                0 <= j < p ==> is_piece_of(#[trigger] out@[j], pieces@[j], instructions@),
        decreases pieces@.len() - p,
    {
        match pieces[p] {
            FusedPiece::Original { place } => {
                proof {
                    lemma_piece_place(instructions@, pieces@, p as int, place);
                }
                out.push(FusedInstruction::Original(&instructions[place]));
            },
            FusedPiece::Fused1Q { qubit, matrix } => {
                out.push(FusedInstruction::Fused1Q { qubit, matrix });
            },
        }
        p = p + 1;
    }
    out
}

/// A fused entry of the globally ordered stream of several nodes.
pub enum FusedPBlockEntry {
    /// An instruction, by its node and its place in the node's circuit.
    Original { node: usize, local_idx: usize },
    /// A one-qubit gate that stands for a run of gates.
    Fused1Q { qubit: usize, matrix: Matrix2 },
}

/// Whether every entry names an instruction of some node.
pub open spec fn entries_valid(
    entries: Seq<(i64, usize, usize)>,
    node_circuits: Map<usize, Circuit>,
) -> bool {
    forall|i: int|
        0 <= i < entries.len() ==> node_circuits.dom().contains((#[trigger] entries[i]).1)
            && entries[i].2 < node_circuits[entries[i].1].instructions@.len()
}

/// The instructions that the entries name.
pub open spec fn entry_instructions(
    entries: Seq<(i64, usize, usize)>,
    node_circuits: Map<usize, Circuit>,
) -> Seq<Instruction> {
    entries.map_values(
        |entry: (i64, usize, usize)| node_circuits[entry.1].instructions@[entry.2 as int],
    )
}

/// Whether `fused` is what a piece stands for.
pub open spec fn is_entry_of(
    fused: FusedPBlockEntry,
    piece: FusedPiece,
    entries: Seq<(i64, usize, usize)>,
) -> bool {
    match piece {
        FusedPiece::Original { place } => place < entries.len() && fused
            == (FusedPBlockEntry::Original {
            node: entries[place as int].1,
            local_idx: entries[place as int].2,
        }),
        FusedPiece::Fused1Q { qubit, matrix } => fused == (FusedPBlockEntry::Fused1Q {
            qubit,
            matrix,
        }),
    }
}

/// Whether `out` is the fused form of some entries.
pub open spec fn is_fused_entries(
    entries: Seq<(i64, usize, usize)>,
    node_circuits: Map<usize, Circuit>,
    out: Seq<FusedPBlockEntry>,
) -> bool {
    exists|pieces: Seq<FusedPiece>| #[trigger]
        is_fusion(entry_instructions(entries, node_circuits), pieces) && pieces.len() == out.len()
            && forall|i: int|
            0 <= i < out.len() ==> is_entry_of(#[trigger] out[i], pieces[i], entries)
}

/// Whether two fused pieces are the same gate, or one names the instruction that the other is.
pub open spec fn is_same_piece(
    entry: FusedPBlockEntry,
    fused: FusedInstruction<'_>,
    node_circuits: Map<usize, Circuit>,
) -> bool {
    match entry {
        FusedPBlockEntry::Original { node, local_idx } => fused == FusedInstruction::Original(
            &node_circuits[node].instructions@[local_idx as int],
        ),
        FusedPBlockEntry::Fused1Q { qubit, matrix } => fused == (FusedInstruction::Fused1Q {
            qubit,
            matrix,
        }),
    }
}

/// Entries are fused as the instructions that they name are: what agrees, piece by piece, with
/// fused entries is the fused form of the instructions.
pub proof fn law_entries_fuse_like_a_circuit(
    entries: Seq<(i64, usize, usize)>,
    node_circuits: Map<usize, Circuit>,
    out: Seq<FusedPBlockEntry>,
    fused: Seq<FusedInstruction<'_>>,
)
    requires
        is_fused_entries(entries, node_circuits, out),
        out.len() == fused.len(),
        forall|i: int|
            0 <= i < out.len() ==> is_same_piece(#[trigger] out[i], fused[i], node_circuits),
    ensures
        is_fused_circuit(entry_instructions(entries, node_circuits), fused),
{
    let insts = entry_instructions(entries, node_circuits);
    let pieces = choose|pieces: Seq<FusedPiece>| #[trigger]
        is_fusion(insts, pieces) && pieces.len() == out.len() && forall|i: int|
            0 <= i < out.len() ==> is_entry_of(#[trigger] out[i], pieces[i], entries);
    assert forall|i: int| 0 <= i < fused.len() implies is_piece_of(
        #[trigger] fused[i],
        pieces[i],
        insts,
    ) by {
        assert(is_entry_of(out[i], pieces[i], entries));
        assert(is_same_piece(out[i], fused[i], node_circuits));
    }
}

/// Every fused form of the instructions that some entries name is, piece by piece, a fused form
/// of the entries.
pub proof fn law_circuits_fuse_like_entries(
    entries: Seq<(i64, usize, usize)>,
    node_circuits: Map<usize, Circuit>,
    fused: Seq<FusedInstruction<'_>>,
) -> (out: Seq<FusedPBlockEntry>)
    requires
        is_fused_circuit(entry_instructions(entries, node_circuits), fused),
    ensures
        is_fused_entries(entries, node_circuits, out),
        out.len() == fused.len(),
        forall|i: int|
            0 <= i < out.len() ==> is_same_piece(#[trigger] out[i], fused[i], node_circuits),
{
    let insts = entry_instructions(entries, node_circuits);
    let pieces = choose|pieces: Seq<FusedPiece>| #[trigger]
        is_fusion(insts, pieces) && pieces.len() == fused.len() && forall|i: int|
            0 <= i < fused.len() ==> is_piece_of(#[trigger] fused[i], pieces[i], insts);
    let out = pieces.map_values(
        |piece: FusedPiece|
            match piece {
                FusedPiece::Original { place } => FusedPBlockEntry::Original {
                    node: entries[place as int].1,
                    local_idx: entries[place as int].2,
                },
                FusedPiece::Fused1Q { qubit, matrix } => FusedPBlockEntry::Fused1Q {
                    qubit,
                    matrix,
                },
            },
    );
    assert forall|i: int| 0 <= i < out.len() implies is_entry_of(
        #[trigger] out[i],
        pieces[i],
        entries,
    ) && is_same_piece(out[i], fused[i], node_circuits) by {
        assert(is_piece_of(fused[i], pieces[i], insts));
    }
    out
}

/// The places in the global order that entries carry play no part: their sequence decides.
pub proof fn law_order_numbers_play_no_part(
    entries: Seq<(i64, usize, usize)>,
    others: Seq<(i64, usize, usize)>,
    node_circuits: Map<usize, Circuit>,
    out: Seq<FusedPBlockEntry>,
)
    requires
        entries.len() == others.len(),
        forall|i: int|
            0 <= i < entries.len() ==> (#[trigger] entries[i]).1 == others[i].1 && entries[i].2
                == others[i].2,
        is_fused_entries(entries, node_circuits, out),
    ensures
        is_fused_entries(others, node_circuits, out),
{
    let insts = entry_instructions(entries, node_circuits);
    assert(insts =~= entry_instructions(others, node_circuits));
    let pieces = choose|pieces: Seq<FusedPiece>| #[trigger]
        is_fusion(insts, pieces) && pieces.len() == out.len() && forall|i: int|
            0 <= i < out.len() ==> is_entry_of(#[trigger] out[i], pieces[i], entries);
    assert forall|i: int| 0 <= i < out.len() implies is_entry_of(
        #[trigger] out[i],
        pieces[i],
        others,
    ) by {
        assert(is_entry_of(out[i], pieces[i], entries));
    }
}

/// Fuses consecutive one-qubit gates in the globally ordered stream of entries. An entry
/// holds its place in the order, a node and a place in the node's circuit.
pub fn fuse_pblock_entries(
    entries: &[(i64, usize, usize)],
    node_circuits: &HashMap<usize, Circuit>,
) -> (out: Vec<FusedPBlockEntry>)
    requires
        entries_valid(entries@, node_circuits@),
        gates_fit(entry_instructions(entries@, node_circuits@)),
    ensures
        is_fused_entries(entries@, node_circuits@, out@),
{
    broadcast use vstd::std_specs::hash::group_hash_axioms;

    let ghost insts = entry_instructions(entries@, node_circuits@);
    let mut stream: Vec<&Instruction> = Vec::new();
    let mut i: usize = 0;
    while i < entries.len()
        invariant
            i <= entries@.len(),
            entries_valid(entries@, node_circuits@),
            insts == entry_instructions(entries@, node_circuits@),
            stream@.len() == i,
            forall|j: int| 0 <= j < i ==> *(#[trigger] stream@[j]) == insts[j],
        decreases entries@.len() - i,
    {
        let (_, node, local_idx): (i64, usize, usize) = entries[i];
        assert(entries@[i as int].1 == node);
        match node_circuits.get(&node) {
            Some(circuit) => {
                stream.push(&circuit.instructions[local_idx]);
            },
            None => {
                assert(false);
            },
        }
        i = i + 1;
    }
    proof {
        assert forall|j: int| #![trigger stream@[j]] 0 <= j < stream@.len() implies (
            single_gate_qubit(*stream@[j]) matches Some(q) ==> q < usize::MAX) by {
            assert(single_gate_qubit(insts[j]) matches Some(q) ==> q < usize::MAX);
        }
        assert(stream@.map_values(|inst: &Instruction| *inst) =~= insts);
    }
    let pieces: Vec<FusedPiece> = fuse_stream(&stream);
    let mut out: Vec<FusedPBlockEntry> = Vec::new();
    let mut p: usize = 0;
    while p < pieces.len()
        invariant
            p <= pieces@.len(),
            entries@.len() <= usize::MAX,
            insts == entry_instructions(entries@, node_circuits@),
            is_fusion(insts, pieces@),
            out@.len() == p,
            forall|j: int| 0 <= j < p ==> is_entry_of(#[trigger] out@[j], pieces@[j], entries@),
        decreases pieces@.len() - p,
    {
        match pieces[p] {
            FusedPiece::Original { place } => {
                proof {
                    lemma_piece_place(insts, pieces@, p as int, place);
                }
                out.push(
                    FusedPBlockEntry::Original { node: entries[place].1, local_idx: entries[place].2 },
                );
            },
            FusedPiece::Fused1Q { qubit, matrix } => {
                out.push(FusedPBlockEntry::Fused1Q { qubit, matrix });
            },
        }
        p = p + 1;
    }
    out
}

/// Whether every one-qubit gate of a stream, apart from identities, is on one of the first `n`
/// qubits.
pub open spec fn gates_below(stream: Seq<Instruction>, n: int) -> bool {
    forall|i: int| 0 <= i < stream.len() ==> is_gate_below(#[trigger] stream[i], n)
}

/// Whether an instruction that is a one-qubit gate, and no identity, is on one of the first `n`
/// qubits.
pub open spec fn is_gate_below(inst: Instruction, n: int) -> bool {
    !is_identity_gate(inst) ==> (single_gate_qubit(inst) matches Some(q) ==> q < n)
}

/// Whether nothing but the identity waits on, and nothing was emitted for, any but the first `n`
/// qubits.
spec fn state_below(state: FusionState, n: int) -> bool {
    &&& forall|q: usize| q >= n ==> #[trigger] waits_as_identity(state.pending, q)
    &&& forall|i: int|
        0 <= i < state.pieces.len() ==> (#[trigger] state.pieces[i] matches FusedPiece::Fused1Q {
            qubit,
            ..
        } ==> qubit < n)
}

proof fn lemma_flushes_below(
    qubits: Seq<usize>,
    count: int,
    before: FusionState,
    after: FusionState,
    n: int,
)
    requires
        flushes_all(qubits, count, before, after),
        state_below(before, n),
    ensures
        state_below(after, n),
    decreases count,
{
    if count > 0 {
        let mid = choose|mid: FusionState| #[trigger]
            flushes(qubits[count - 1], mid, after) && flushes_all(qubits, count - 1, before, mid);
        lemma_flushes_below(qubits, count - 1, before, mid, n);
        let q = qubits[count - 1];
        assert(q >= n ==> waits_as_identity(mid.pending, q));
        assert forall|p: usize| p >= n implies #[trigger] waits_as_identity(after.pending, p) by {
            assert(waits_as_identity(mid.pending, p));
        }
        assert forall|i: int| 0 <= i < after.pieces.len() implies (
        #[trigger] after.pieces[i] matches FusedPiece::Fused1Q { qubit, .. } ==> qubit < n) by {
            if i < mid.pieces.len() {
                assert(after.pieces[i] == mid.pieces[i]);
            }
        }
    }
}

proof fn lemma_trace_below(stream: Seq<Instruction>, trace: Seq<FusionState>, i: int, n: int)
    requires
        is_trace(stream, trace),
        0 <= i <= stream.len(),
        gates_below(stream.take(i), n),
    ensures
        state_below(trace[i], n),
    decreases i,
{
    if i > 0 {
        assert forall|j: int| 0 <= j < i - 1 implies is_gate_below(
            #[trigger] stream.take(i - 1)[j],
            n,
        ) by {
            assert(stream.take(i)[j] == stream.take(i - 1)[j]);
        }
        lemma_trace_below(stream, trace, i - 1, n);
        let inst = stream[i - 1];
        assert(stream.take(i)[i - 1] == inst);
        assert(takes_in(inst, (i - 1) as usize, trace[i - 1], trace[i - 1 + 1]));
        match single_gate_qubit(inst) {
            Some(q) => {
                assert(is_gate_below(stream.take(i)[i - 1], n));
                assert forall|p: usize| p >= n implies #[trigger] waits_as_identity(
                    trace[i].pending,
                    p,
                ) by {
                    assert(waits_as_identity(trace[i - 1].pending, p));
                    if p != q {
                        assert(pending_on(trace[i].pending, p) == pending_on(
                            trace[i - 1].pending,
                            p,
                        ));
                    }
                }
            },
            None => {
                let mid = choose|mid: FusionState| #[trigger]
                    flushes_all(inst.touched(), inst.touched().len() as int, trace[i - 1], mid)
                        && trace[i] == (FusionState {
                        pending: mid.pending,
                        pieces: mid.pieces.push(FusedPiece::Original { place: (i - 1) as usize }),
                    });
                lemma_flushes_below(
                    inst.touched(),
                    inst.touched().len() as int,
                    trace[i - 1],
                    mid,
                    n,
                );
                assert forall|j: int| 0 <= j < trace[i].pieces.len() implies (
                #[trigger] trace[i].pieces[j] matches FusedPiece::Fused1Q { qubit, .. } ==> qubit
                    < n) by {
                    if j < mid.pieces.len() {
                        assert(trace[i].pieces[j] == mid.pieces[j]);
                    }
                }
            },
        }
    }
}

/// Pieces that were emitted stay.
proof fn lemma_flushes_extend(
    qubits: Seq<usize>,
    count: int,
    before: FusionState,
    after: FusionState,
)
    requires
        flushes_all(qubits, count, before, after),
    ensures
        before.pieces.is_prefix_of(after.pieces),
    decreases count,
{
    if count > 0 {
        let mid = choose|mid: FusionState| #[trigger]
            flushes(qubits[count - 1], mid, after) && flushes_all(qubits, count - 1, before, mid);
        lemma_flushes_extend(qubits, count - 1, before, mid);
    }
}

proof fn lemma_trace_extends(
    stream: Seq<Instruction>,
    trace: Seq<FusionState>,
    i: int,
    j: int,
)
    requires
        is_trace(stream, trace),
        0 <= i <= j <= stream.len(),
    ensures
        trace[i].pieces.is_prefix_of(trace[j].pieces),
    decreases j - i,
{
    if i < j {
        lemma_trace_extends(stream, trace, i, j - 1);
        let inst = stream[j - 1];
        assert(takes_in(inst, (j - 1) as usize, trace[j - 1], trace[j - 1 + 1]));
        if single_gate_qubit(inst) is None {
            let mid = choose|mid: FusionState| #[trigger]
                flushes_all(inst.touched(), inst.touched().len() as int, trace[j - 1], mid)
                    && trace[j] == (FusionState {
                    pending: mid.pending,
                    pieces: mid.pieces.push(FusedPiece::Original { place: (j - 1) as usize }),
                });
            lemma_flushes_extend(
                inst.touched(),
                inst.touched().len() as int,
                trace[j - 1],
                mid,
            );
        }
    }
}

/// What fusion emits before an instruction that is not a one-qubit gate comes from earlier
/// instructions: such instructions themselves, and gates on qubits that had gates other than
/// identities.
pub proof fn law_fusion_keeps_what_is_earlier(
    stream: Seq<Instruction>,
    pieces: Seq<FusedPiece>,
    place: int,
    n: int,
) -> (at: int)
    requires
        is_fusion(stream, pieces),
        stream.len() <= usize::MAX,
        0 <= place < stream.len(),
        single_gate_qubit(stream[place]) is None,
        gates_below(stream.take(place), n),
    ensures
        0 <= at < pieces.len(),
        pieces[at] == (FusedPiece::Original { place: place as usize }),
        forall|i: int|
            0 <= i < at ==> (match #[trigger] pieces[i] {
                FusedPiece::Fused1Q { qubit, .. } => qubit < n,
                FusedPiece::Original { place: earlier } => earlier < place,
            }),
{
    let (trace, last) = choose|trace: Seq<FusionState>, last: FusionState|
        is_trace(stream, trace) && #[trigger] flushes_all(
            ascending(trace[stream.len() as int].pending.len()),
            trace[stream.len() as int].pending.len() as int,
            trace[stream.len() as int],
            last,
        ) && pieces == last.pieces;
    let end = trace[stream.len() as int];
    let inst = stream[place];
    assert(takes_in(inst, place as usize, trace[place], trace[place + 1]));
    let mid = choose|mid: FusionState| #[trigger]
        flushes_all(inst.touched(), inst.touched().len() as int, trace[place], mid) && trace[place
            + 1] == (FusionState {
            pending: mid.pending,
            pieces: mid.pieces.push(FusedPiece::Original { place: place as usize }),
        });
    lemma_trace_below(stream, trace, place, n);
    lemma_flushes_below(inst.touched(), inst.touched().len() as int, trace[place], mid, n);
    lemma_trace_originals(stream, trace, place);
    lemma_flushes_keep_originals(
        inst.touched(),
        inst.touched().len() as int,
        trace[place],
        mid,
    );
    lemma_trace_extends(stream, trace, place + 1, stream.len() as int);
    lemma_flushes_extend(ascending(end.pending.len()), end.pending.len() as int, end, last);
    let at = mid.pieces.len() as int;
    let through = trace[place + 1].pieces;
    assert(through[at] == (FusedPiece::Original { place: place as usize }));
    assert(end.pieces[at] == through[at]);
    assert(pieces[at] == end.pieces[at]);
    lemma_places_below(stream, place);
    assert forall|i: int| 0 <= i < at implies (match #[trigger] pieces[i] {
        FusedPiece::Fused1Q { qubit, .. } => qubit < n,
        FusedPiece::Original { place: earlier } => earlier < place,
    }) by {
        assert(through[i] == mid.pieces[i]);
        assert(end.pieces[i] == through[i]);
        assert(pieces[i] == end.pieces[i]);
        match mid.pieces[i] {
            FusedPiece::Original { place: earlier } => {
                lemma_original_place_listed(mid.pieces, i, earlier);
                let places = kept_places(stream, place);
                let k = choose|k: int| 0 <= k < places.len() && places[k] == earlier;
                assert(places[k] < place);
            },
            FusedPiece::Fused1Q { .. } => {},
        }
    }
    at
}

/// Fusion emits gates only on qubits that had gates other than identities.
pub proof fn law_fusion_stays_on_its_qubits(
    stream: Seq<Instruction>,
    pieces: Seq<FusedPiece>,
    n: int,
)
    requires
        is_fusion(stream, pieces),
        gates_below(stream, n),
    ensures
        forall|i: int|
            0 <= i < pieces.len() ==> (#[trigger] pieces[i] matches FusedPiece::Fused1Q {
                qubit,
                ..
            } ==> qubit < n),
{
    let (trace, last) = choose|trace: Seq<FusionState>, last: FusionState|
        is_trace(stream, trace) && #[trigger] flushes_all(
            ascending(trace[stream.len() as int].pending.len()),
            trace[stream.len() as int].pending.len() as int,
            trace[stream.len() as int],
            last,
        ) && pieces == last.pieces;
    let end = trace[stream.len() as int];
    assert(stream.take(stream.len() as int) =~= stream);
    lemma_trace_below(stream, trace, stream.len() as int, n);
    lemma_flushes_below(
        ascending(end.pending.len()),
        end.pending.len() as int,
        end,
        last,
        n,
    );
}

} // verus!
