//! Blocks of qubits that are simulated together.
//!
//! The qubits of a distributed circuit are split into blocks, each with a state vector of its
//! own. Two blocks are merged when a gate acts on qubits of both.

use std::collections::HashMap;

use num_complex::Complex64;
use vstd::prelude::*;
use vstd::std_specs::iter::IteratorSpec;

use crate::bits::{
    bit_mask, bit_set, dimension, lemma_bit_ops, lemma_combine_below, lemma_dimension_positive,
    lemma_mask_below, lemma_mask_bit,
};
use crate::complex::{complex_mul, mul_complex};
use crate::statevector_shots::{ground_amps, ground_state};

verus! {

/// Whether numbers stand in ascending order, each once.
pub open spec fn is_ascending(s: Seq<usize>) -> bool {
    forall|i: int, j: int| 0 <= i < j < s.len() ==> #[trigger] s[i] < #[trigger] s[j]
}

/// Inserts a number where it belongs, unless it is there.
fn insert_ascending(list: &mut Vec<usize>, x: usize)
    requires
        is_ascending(old(list)@),
    ensures
        is_ascending(final(list)@),
        final(list)@.len() <= old(list)@.len() + 1,
        old(list)@.len() <= final(list)@.len(),
        forall|y: usize|
            #[trigger] final(list)@.contains(y) <==> old(list)@.contains(y) || y == x,
{
    let ghost before = list@;
    let mut i: usize = 0;
    while i < list.len() && list[i] < x
        invariant
            list@ == before,
            is_ascending(list@),
            i <= list@.len(),
            forall|j: int| 0 <= j < i ==> #[trigger] list@[j] < x,
        decreases list@.len() - i,
    {
        i = i + 1;
    }
    if i < list.len() && list[i] == x {
        assert(before[i as int] == x);
        return;
    }
    list.insert(i, x);
    proof {
        assert(list@ =~= before.insert(i as int, x));
        assert forall|a: int, b: int| 0 <= a < b < list@.len() implies #[trigger] list@[a]
            < #[trigger] list@[b] by {
            if a > i {
                assert(before[a - 1] < before[b - 1]);
            } else if a == i {
                if i < before.len() {
                    assert(x < before[i as int]);
                    if i < b - 1 {
                        assert(before[i as int] < before[b - 1]);
                    }
                }
            } else if b > i {
                assert(before[a] < x);
                if b > i && b - 1 > a {
                    assert(before[a] < before[b - 1]);
                }
            } else if b < i {
                assert(before[a] < before[b]);
            }
        }
        assert forall|y: usize| #[trigger] list@.contains(y) <==> before.contains(y) || y == x by {
            if before.contains(y) {
                let j = choose|j: int| 0 <= j < before.len() && before[j] == y;
                if j < i {
                    assert(list@[j] == y);
                } else {
                    assert(list@[j + 1] == y);
                }
            }
            if list@.contains(y) {
                let j = choose|j: int| 0 <= j < list@.len() && list@[j] == y;
                if j < i {
                    assert(before[j] == y);
                } else if j > i {
                    assert(before[j - 1] == y);
                }
            }
            assert(list@[i as int] == x);
        }
    }
}

/// The numbers that occur in a list, in ascending order.
pub fn sorted_distinct(list: &Vec<usize>) -> (r: Vec<usize>)
    ensures
        is_ascending(r@),
        r@.len() <= list@.len(),
        forall|y: usize| #[trigger] r@.contains(y) <==> list@.contains(y),
{
    let mut out: Vec<usize> = Vec::new();
    let mut i: usize = 0;
    assert forall|y: usize| #[trigger] out@.contains(y) <==> list@.take(0).contains(y) by {}
    while i < list.len()
        invariant
            i <= list@.len(),
            is_ascending(out@),
            out@.len() <= i,
            forall|y: usize| #[trigger] out@.contains(y) <==> list@.take(i as int).contains(y),
        decreases list@.len() - i,
    {
        let ghost was = out@;
        let ghost now = list@.take(i as int);
        let x: usize = list[i];
        insert_ascending(&mut out, x);
        proof {
            let next = list@.take(i + 1);
            assert(next =~= now.push(x));
            assert forall|y: usize| #[trigger] out@.contains(y) <==> next.contains(y) by {
                assert(was.contains(y) <==> now.contains(y));
                if now.contains(y) {
                    let j = choose|j: int| 0 <= j < now.len() && now[j] == y;
                    assert(next[j] == y);
                }
                if next.contains(y) {
                    let j = choose|j: int| 0 <= j < next.len() && next[j] == y;
                    if j < now.len() {
                        assert(now[j] == y);
                    }
                }
                assert(next[i as int] == x);
            }
        }
        i = i + 1;
    }
    assert(list@.take(i as int) =~= list@);
    out
}

/// Some qubits with a state vector of their own. The qubit at place `j` is bit `j` of an
/// index.
pub struct Block {
    pub state: Vec<Complex64>,
    pub qubits: Vec<usize>,
}

impl Block {
    /// The qubits stand in ascending order, and the state has the size for them.
    pub open spec fn wf(&self) -> bool {
        &&& is_ascending(self.qubits@)
        &&& self.qubits@.len() < usize::BITS
        &&& self.state@.len() == dimension(self.qubits@.len() as usize)
    }

    /// A block of the given qubits, all of them 0.
    pub fn new(qubits: Vec<usize>) -> (r: Block)
        requires
            qubits@.len() < usize::BITS,
        ensures
            r.wf(),
            forall|q: usize| #[trigger] r.qubits@.contains(q) <==> qubits@.contains(q),
            r.qubits@.len() <= qubits@.len(),
            r.state@ == ground_amps(r.qubits@.len() as usize),
    {
        let distinct: Vec<usize> = sorted_distinct(&qubits);
        let state: Vec<Complex64> = ground_state(distinct.len());
        Block { state, qubits: distinct }
    }

    /// The place of a qubit of the block.
    pub fn local(&self, phys: usize) -> (r: usize)
        requires
            self.qubits@.contains(phys),
        ensures
            r < self.qubits@.len(),
            self.qubits@[r as int] == phys,
    {
        place_of(&self.qubits, phys)
    }
}

/// The place of a number in a list.
fn place_of(list: &Vec<usize>, x: usize) -> (r: usize)
    requires
        list@.contains(x),
    ensures
        r < list@.len(),
        list@[r as int] == x,
{
    let ghost place = choose|i: int| 0 <= i < list@.len() && list@[i] == x;
    assert(list.len() <= usize::MAX);
    let mut i: usize = 0;
    while list[i] != x
        invariant
            0 <= place < list@.len() <= usize::MAX,
            list@[place] == x,
            i <= place,
        decreases place - i,
    {
        i = i + 1;
    }
    i
}

/// The place of a number in an ascending list.
pub open spec fn place_in(list: Seq<usize>, x: usize) -> int {
    choose|i: int| 0 <= i < list.len() && list[i] == x
}

proof fn lemma_place_unique(list: Seq<usize>, x: usize, i: int)
    requires
        is_ascending(list),
        0 <= i < list.len(),
        list[i] == x,
    ensures
        place_in(list, x) == i,
{
    let j = place_in(list, x);
    if i < j {
        assert(list[i] < list[j]);
    }
    if j < i {
        assert(list[j] < list[i]);
    }
}

/// The index of a part of the qubits in a basis state `i` of all of them: bit `j` of the
/// result is the value of the qubit `part[j]`.
pub open spec fn part_index(i: usize, all: Seq<usize>, part: Seq<usize>) -> usize
    decreases part.len(),
{
    if part.len() == 0 {
        0
    } else {
        let rest = part_index(i, all, part.drop_last());
        if bit_set(i, place_in(all, part.last()) as usize) {
            rest | bit_mask((part.len() - 1) as usize)
        } else {
            rest
        }
    }
}

proof fn lemma_part_index_below(i: usize, all: Seq<usize>, part: Seq<usize>, n: usize)
    requires
        part.len() <= n < usize::BITS,
    ensures
        part_index(i, all, part) < dimension(n),
    decreases part.len(),
{
    lemma_dimension_positive(n);
    if part.len() > 0 {
        lemma_part_index_below(i, all, part.drop_last(), n);
        lemma_mask_below((part.len() - 1) as usize, n);
        lemma_combine_below(
            part_index(i, all, part.drop_last()),
            bit_mask((part.len() - 1) as usize),
            n,
        );
    }
}

/// Each bit of a part's index is the value of its qubit.
pub proof fn law_part_index_reads_its_qubits(
    i: usize,
    all: Seq<usize>,
    part: Seq<usize>,
    j: usize,
)
    requires
        part.len() < usize::BITS,
        j < usize::BITS,
    ensures
        bit_set(part_index(i, all, part), j) == (j < part.len() && bit_set(
            i,
            place_in(all, part[j as int]) as usize,
        )),
    decreases part.len(),
{
    if part.len() == 0 {
        lemma_bit_ops(0, 0, j);
    } else {
        let rest = part.drop_last();
        law_part_index_reads_its_qubits(i, all, rest, j);
        lemma_bit_ops(part_index(i, all, rest), bit_mask((part.len() - 1) as usize), j);
        lemma_mask_bit((part.len() - 1) as usize, j);
        if j < rest.len() {
            assert(rest[j as int] == part[j as int]);
        }
    }
}

/// The index of a part of the qubits in a basis state of all of them.
fn part_of(i: usize, all: &Vec<usize>, part: &Vec<usize>) -> (r: usize)
    requires
        is_ascending(all@),
        all@.len() < usize::BITS,
        part@.len() < usize::BITS,
        forall|q: usize| #[trigger] part@.contains(q) ==> all@.contains(q),
    ensures
        r == part_index(i, all@, part@),
{
    let mut index: usize = 0;
    let mut j: usize = 0;
    while j < part.len()
        invariant
            j <= part@.len(),
            is_ascending(all@),
            all@.len() < usize::BITS,
            part@.len() < usize::BITS,
            forall|q: usize| #[trigger] part@.contains(q) ==> all@.contains(q),
            index == part_index(i, all@, part@.take(j as int)),
        decreases part@.len() - j,
    {
        let q: usize = part[j];
        assert(part@[j as int] == q);
        assert(part@.contains(q));
        let place: usize = place_of(all, q);
        proof {
            lemma_place_unique(all@, q, place as int);
            assert(part@.take(j + 1).drop_last() =~= part@.take(j as int));
        }
        if i & (1usize << place) != 0 {
            index = index | (1usize << j);
        }
        j = j + 1;
    }
    assert(part@.take(j as int) =~= part@);
    index
}

/// Whether `all` are the qubits of two blocks together, in ascending order.
pub open spec fn is_union(all: Seq<usize>, a: Seq<usize>, b: Seq<usize>) -> bool {
    is_ascending(all) && forall|q: usize|
        #[trigger] all.contains(q) <==> a.contains(q) || b.contains(q)
}

/// Whether `r` is the block of two blocks together: each amplitude is the product of the
/// amplitudes of the parts.
pub open spec fn is_merged(a: Block, b: Block, r: Block) -> bool {
    &&& is_union(r.qubits@, a.qubits@, b.qubits@)
    &&& r.state@.len() == dimension(r.qubits@.len() as usize)
    &&& forall|i: usize|
        #![trigger r.state@[i as int]]
        i < r.state@.len() ==> r.state@[i as int] == complex_mul(
            a.state@[part_index(i, r.qubits@, a.qubits@) as int],
            b.state@[part_index(i, r.qubits@, b.qubits@) as int],
        )
}

proof fn lemma_ascending_unique(a: Seq<usize>, b: Seq<usize>)
    requires
        is_ascending(a),
        is_ascending(b),
        forall|q: usize| #[trigger] a.contains(q) <==> b.contains(q),
    ensures
        a == b,
    decreases a.len(),
{
    if a.len() == 0 {
        if b.len() > 0 {
            assert(b.contains(b[0]));
            assert(a.contains(b[0]));
        }
        assert(a =~= b);
    } else {
        assert(a.contains(a[0]));
        assert(b.len() > 0);
        let x = a.last();
        let y = b.last();
        assert(a.contains(a[a.len() - 1]));
        assert(b.contains(b[b.len() - 1]));
        assert(b.contains(x) && a.contains(y));
        let i = choose|i: int| 0 <= i < b.len() && b[i] == x;
        let j = choose|j: int| 0 <= j < a.len() && a[j] == y;
        if i < b.len() - 1 {
            assert(b[i] < b[b.len() - 1]);
        }
        if j < a.len() - 1 {
            assert(a[j] < a[a.len() - 1]);
        }
        assert(x == y);
        let rest_a = a.drop_last();
        let rest_b = b.drop_last();
        assert forall|q: usize| #[trigger] rest_a.contains(q) <==> rest_b.contains(q) by {
            if rest_a.contains(q) {
                let m = choose|m: int| 0 <= m < rest_a.len() && rest_a[m] == q;
                assert(a[m] == q && a[m] < a[a.len() - 1]);
                assert(a.contains(q));
                let l = choose|l: int| 0 <= l < b.len() && b[l] == q;
                assert(rest_b[l] == q);
            }
            if rest_b.contains(q) {
                let m = choose|m: int| 0 <= m < rest_b.len() && rest_b[m] == q;
                assert(b[m] == q && b[m] < b[b.len() - 1]);
                assert(b.contains(q));
                assert(a.contains(q));
                let l = choose|l: int| 0 <= l < a.len() && a[l] == q;
                assert(rest_a[l] == q);
            }
        }
        lemma_ascending_unique(rest_a, rest_b);
        assert(a =~= rest_a.push(x));
        assert(b =~= rest_b.push(y));
    }
}

/// Two blocks make only one block: its qubits and its amplitudes are fixed.
pub proof fn law_merged_block_is_unique(a: Block, b: Block, first: Block, second: Block)
    requires
        is_merged(a, b, first),
        is_merged(a, b, second),
    ensures
        first.qubits@ == second.qubits@,
        first.state@ == second.state@,
{
    assert forall|q: usize| #[trigger] first.qubits@.contains(q) <==> second.qubits@.contains(
        q,
    ) by {
        assert(first.qubits@.contains(q) <==> a.qubits@.contains(q) || b.qubits@.contains(q));
    }
    lemma_ascending_unique(first.qubits@, second.qubits@);
    assert forall|i: int| 0 <= i < first.state@.len() implies first.state@[i] == second.state@[i] by {
        let k = i as usize;
        assert(first.state@[k as int] == second.state@[k as int]);
    }
    assert(first.state@ =~= second.state@);
}

/// Makes one block of two. It does not matter which one comes first.
pub fn merge_blocks(a: Block, b: Block) -> (r: Block)
    requires
        a.wf(),
        b.wf(),
        a.qubits@.len() + b.qubits@.len() < usize::BITS,
    ensures
        r.wf(),
        r.qubits@.len() <= a.qubits@.len() + b.qubits@.len(),
        is_merged(a, b, r),
        is_merged(b, a, r),
{
    let mut list: Vec<usize> = vstd::slice::slice_to_vec(a.qubits.as_slice());
    let mut j: usize = 0;
    while j < b.qubits.len()
        invariant
            j <= b.qubits@.len(),
            list@ == a.qubits@ + b.qubits@.take(j as int),
        decreases b.qubits@.len() - j,
    {
        list.push(b.qubits[j]);
        j = j + 1;
        assert(list@ =~= a.qubits@ + b.qubits@.take(j as int));
    }
    assert(b.qubits@.take(j as int) =~= b.qubits@);
    let qubits: Vec<usize> = sorted_distinct(&list);
    proof {
        assert forall|q: usize| #[trigger] qubits@.contains(q) <==> a.qubits@.contains(q)
            || b.qubits@.contains(q) by {
            assert(qubits@.contains(q) <==> list@.contains(q));
            if a.qubits@.contains(q) {
                let i = choose|i: int| 0 <= i < a.qubits@.len() && a.qubits@[i] == q;
                assert(list@[i] == q);
            }
            if b.qubits@.contains(q) {
                let i = choose|i: int| 0 <= i < b.qubits@.len() && b.qubits@[i] == q;
                assert(list@[a.qubits@.len() + i] == q);
            }
            if list@.contains(q) {
                let i = choose|i: int| 0 <= i < list@.len() && list@[i] == q;
                if i < a.qubits@.len() {
                    assert(a.qubits@[i] == q);
                } else {
                    assert(b.qubits@[i - a.qubits@.len()] == q);
                }
            }
        }
    }
    let n: usize = qubits.len();
    let dim: usize = 1usize << n;
    let mut state: Vec<Complex64> = Vec::new();
    let mut i: usize = 0;
    while i < dim
        invariant
            i <= dim,
            a.wf(),
            b.wf(),
            n == qubits@.len(),
            n < usize::BITS,
            is_union(qubits@, a.qubits@, b.qubits@),
            state@.len() == i,
            forall|k: usize|
                #![trigger state@[k as int]]
                k < i ==> state@[k as int] == complex_mul(
                    a.state@[part_index(k, qubits@, a.qubits@) as int],
                    b.state@[part_index(k, qubits@, b.qubits@) as int],
                ) && state@[k as int] == complex_mul(
                    b.state@[part_index(k, qubits@, b.qubits@) as int],
                    a.state@[part_index(k, qubits@, a.qubits@) as int],
                ),
        decreases dim - i,
    {
        let in_a: usize = part_of(i, &qubits, &a.qubits);
        let in_b: usize = part_of(i, &qubits, &b.qubits);
        proof {
            lemma_part_index_below(i, qubits@, a.qubits@, a.qubits@.len() as usize);
            lemma_part_index_below(i, qubits@, b.qubits@, b.qubits@.len() as usize);
        }
        state.push(mul_complex(a.state[in_a], b.state[in_b]));
        i = i + 1;
    }
    Block { state, qubits }
}

/// The blocks of a simulation, and the block of each qubit. A block that was merged into
/// another one has left its place empty.
pub struct BlockPool {
    pub blocks: Vec<Option<Block>>,
    pub qubit_to_block: HashMap<usize, usize>,
}

/// The number of qubits in the first `count` blocks.
pub open spec fn pool_size(blocks: Seq<Option<Block>>, count: int) -> nat
    decreases count,
{
    if count <= 0 {
        0
    } else {
        pool_size(blocks, count - 1) + match blocks[count - 1] {
            Some(block) => block.qubits@.len(),
            None => 0,
        }
    }
}

/// Whether every block is well formed, and every known qubit is in its block.
pub open spec fn pool_wf(blocks: Seq<Option<Block>>, of: Map<usize, usize>) -> bool {
    &&& forall|i: int|
        #![trigger blocks[i]]
        0 <= i < blocks.len() ==> (blocks[i] matches Some(block) ==> block.wf())
    &&& forall|q: usize| #[trigger]
        of.dom().contains(q) ==> of[q] < blocks.len() && blocks[of[q] as int] is Some
            && blocks[of[q] as int]->0.qubits@.contains(q)
}

/// The last of the first `count` nodes that has a qubit; nothing if none has it.
pub open spec fn last_node_with(
    per_node: Map<usize, Vec<usize>>,
    nodes: Seq<usize>,
    count: int,
    q: usize,
) -> Option<int>
    decreases count,
{
    if count <= 0 {
        None
    } else if per_node[nodes[count - 1]]@.contains(q) {
        Some(count - 1)
    } else {
        last_node_with(per_node, nodes, count - 1, q)
    }
}

/// The number of qubits in the blocks of the first `count` of some qubits, each block counted
/// once.
pub open spec fn joint_size(
    blocks: Seq<Option<Block>>,
    of: Map<usize, usize>,
    qubits: Seq<usize>,
    count: int,
) -> nat
    decreases count,
{
    if count <= 0 {
        0
    } else {
        joint_size(blocks, of, qubits, count - 1) + if shares_block(
            of,
            qubits,
            count - 1,
            of[qubits[count - 1]],
        ) {
            0
        } else {
            blocks[of[qubits[count - 1]] as int]->0.qubits@.len()
        }
    }
}

/// Whether one of the first `count` of some qubits is in a block.
pub open spec fn shares_block(
    of: Map<usize, usize>,
    qubits: Seq<usize>,
    count: int,
    block: usize,
) -> bool {
    exists|i: int| 0 <= i < count && of[#[trigger] qubits[i]] == block
}

/// The number of qubits in those of the blocks that are counted but not merged into the block
/// at `target`.
spec fn waiting_size(
    blocks: Seq<Option<Block>>,
    of: Map<usize, usize>,
    qubits: Seq<usize>,
    target: usize,
    count: int,
) -> nat
    decreases count,
{
    if count <= 0 {
        0
    } else {
        let b = of[qubits[count - 1]];
        waiting_size(blocks, of, qubits, target, count - 1) + if shares_block(
            of,
            qubits,
            count - 1,
            b,
        ) || b == target || blocks[b as int] is None {
            0
        } else {
            blocks[b as int]->0.qubits@.len()
        }
    }
}

proof fn lemma_waiting_same(
    a: Seq<Option<Block>>,
    b: Seq<Option<Block>>,
    of: Map<usize, usize>,
    qubits: Seq<usize>,
    target: usize,
    count: int,
)
    requires
        a.len() == b.len(),
        forall|i: int| 0 <= i < a.len() && i != target ==> #[trigger] a[i] == b[i],
        forall|i: int| 0 <= i < count ==> of[#[trigger] qubits[i]] < a.len(),
    ensures
        waiting_size(a, of, qubits, target, count) == waiting_size(b, of, qubits, target, count),
    decreases count,
{
    if count > 0 {
        lemma_waiting_same(a, b, of, qubits, target, count - 1);
        let x = of[qubits[count - 1]] as int;
        if x != target {
            assert(a[x] == b[x]);
        }
    }
}

/// A block that is merged no longer waits.
proof fn lemma_waiting_removed(
    blocks: Seq<Option<Block>>,
    of: Map<usize, usize>,
    qubits: Seq<usize>,
    target: usize,
    count: int,
    gone: usize,
)
    requires
        gone != target,
        gone < blocks.len(),
        blocks[gone as int] is Some,
        forall|i: int| 0 <= i < count ==> of[#[trigger] qubits[i]] < blocks.len(),
    ensures
        waiting_size(blocks.update(gone as int, None), of, qubits, target, count) + (
        if shares_block(of, qubits, count, gone) {
            blocks[gone as int]->0.qubits@.len()
        } else {
            0
        }) == waiting_size(blocks, of, qubits, target, count),
    decreases count,
{
    if count > 0 {
        lemma_waiting_removed(blocks, of, qubits, target, count - 1, gone);
        let b = of[qubits[count - 1]];
        assert(b < blocks.len());
        if shares_block(of, qubits, count - 1, gone) {
            let i = choose|i: int| 0 <= i < count - 1 && of[#[trigger] qubits[i]] == gone;
            assert(0 <= i < count && of[qubits[i]] == gone);
        }
        if shares_block(of, qubits, count, gone) && !shares_block(of, qubits, count - 1, gone) {
            let i = choose|i: int| 0 <= i < count && of[#[trigger] qubits[i]] == gone;
            assert(i == count - 1);
        }
        if b == gone {
            assert(of[qubits[count - 1]] == gone);
            assert(shares_block(of, qubits, count, gone));
        }
        if b != gone && b < blocks.len() {
            assert(blocks.update(gone as int, None)[b as int] == blocks[b as int]);
        }
    }
}

proof fn lemma_joint_size_grows(
    blocks: Seq<Option<Block>>,
    of: Map<usize, usize>,
    qubits: Seq<usize>,
    i: int,
    j: int,
)
    requires
        i <= j,
    ensures
        joint_size(blocks, of, qubits, i) <= joint_size(blocks, of, qubits, j),
    decreases j - i,
{
    if i < j {
        lemma_joint_size_grows(blocks, of, qubits, i, j - 1);
    }
}

/// The keys of a map, in the order in which it is walked.
fn keys_of(map: &HashMap<usize, Vec<usize>>) -> (r: Vec<usize>)
    ensures
        forall|key: usize| #[trigger] r@.contains(key) <==> map@.dom().contains(key),
{
    broadcast use vstd::std_specs::hash::group_hash_axioms;

    let ghost walked: Seq<&usize> = map.keys().remaining();
    let mut keys: Vec<usize> = Vec::new();
    for key in it: map.keys()
        invariant
            it.seq() == walked,
            keys@.len() == it.index(),
            forall|i: int| 0 <= i < keys@.len() ==> #[trigger] keys@[i] == *walked[i],
    {
        keys.push(*key);
    }
    proof {
        assert(keys@ =~= walked.unref());
        assert forall|key: usize| #[trigger] keys@.contains(key) <==> map@.dom().contains(key) by {
            assert(keys@.to_set().contains(key) <==> keys@.contains(key));
        }
    }
    keys
}

impl BlockPool {
    /// Every block is well formed, and every known qubit is in its block.
    pub open spec fn wf(&self) -> bool {
        pool_wf(self.blocks@, self.qubit_to_block@)
    }

    /// A pool with a block for each node, in the order of the nodes, all qubits 0. A qubit of
    /// several nodes belongs to the block of the last one.
    pub fn new(qubits_per_node: &HashMap<usize, Vec<usize>>) -> (r: BlockPool)
        requires
            forall|node: usize| #[trigger]
                qubits_per_node@.dom().contains(node) ==> qubits_per_node@[node]@.len()
                    < usize::BITS,
        ensures
            r.wf(),
            exists|nodes: Seq<usize>| #[trigger]
                are_nodes_of(qubits_per_node@, nodes) && is_fresh_pool(
                    qubits_per_node@,
                    nodes,
                    nodes.len() as int,
                    r.blocks@,
                    r.qubit_to_block@,
                ),
    {
        broadcast use vstd::std_specs::hash::group_hash_axioms;

        let ids: Vec<usize> = keys_of(qubits_per_node);
        let nodes: Vec<usize> = sorted_distinct(&ids);
        proof {
            assert forall|node: usize| #[trigger]
                nodes@.contains(node) <==> qubits_per_node@.dom().contains(node) by {
                assert(nodes@.contains(node) <==> ids@.contains(node));
            }
        }
        let mut blocks: Vec<Option<Block>> = Vec::new();
        let mut qubit_to_block: HashMap<usize, usize> = HashMap::new();
        let mut b: usize = 0;
        while b < nodes.len()
            invariant
                b <= nodes@.len(),
                are_nodes_of(qubits_per_node@, nodes@),
                forall|node: usize| #[trigger]
                    qubits_per_node@.dom().contains(node) ==> qubits_per_node@[node]@.len()
                        < usize::BITS,
                pool_wf(blocks@, qubit_to_block@),
                is_fresh_pool(
                    qubits_per_node@,
                    nodes@,
                    b as int,
                    blocks@,
                    qubit_to_block@,
                ),
            decreases nodes@.len() - b,
        {
            let node: usize = nodes[b];
            assert(nodes@.contains(node));
            assert(qubits_per_node@.dom().contains(node));
            let given: Vec<usize> = match qubits_per_node.get(&node) {
                Some(given) => vstd::slice::slice_to_vec(given.as_slice()),
                None => Vec::new(),
            };
            assert(given@ == qubits_per_node@[node]@);
            let ghost was = qubit_to_block@;
            let mut j: usize = 0;
            while j < given.len()
                invariant
                    j <= given@.len(),
                    forall|q: usize|
                        #[trigger] qubit_to_block@.dom().contains(q) <==> was.dom().contains(q)
                            || given@.take(j as int).contains(q),
                    forall|q: usize| #[trigger]
                        qubit_to_block@.dom().contains(q) ==> qubit_to_block@[q] == (
                        if given@.take(j as int).contains(q) {
                            b
                        } else {
                            was[q]
                        }),
                decreases given@.len() - j,
            {
                let q: usize = given[j];
                let ghost mid = qubit_to_block@;
                qubit_to_block.insert(q, b);
                proof {
                    lemma_take_one_more(given@, j as int);
                    assert forall|y: usize|
                        #[trigger] qubit_to_block@.dom().contains(y) <==> was.dom().contains(y)
                            || given@.take(j + 1).contains(y) by {
                        assert(mid.dom().contains(y) <==> was.dom().contains(y) || given@.take(
                            j as int,
                        ).contains(y));
                    }
                    assert forall|y: usize| #[trigger]
                        qubit_to_block@.dom().contains(y) implies qubit_to_block@[y] == (
                    if given@.take(j + 1).contains(y) {
                        b
                    } else {
                        was[y]
                    }) by {
                        if y != q {
                            assert(mid.dom().contains(y));
                        }
                    }
                }
                j = j + 1;
            }
            assert(given@.take(j as int) =~= given@);
            let block: Block = Block::new(given);
            let ghost earlier = blocks@;
            blocks.push(Some(block));
            proof {
                assert forall|q: usize| #[trigger]
                    qubit_to_block@.dom().contains(q) implies qubit_to_block@[q] < blocks@.len()
                    && blocks@[qubit_to_block@[q] as int] is Some
                    && blocks@[qubit_to_block@[q] as int]->0.qubits@.contains(q) by {
                    if given@.contains(q) {
                        assert(block.qubits@.contains(q));
                    } else {
                        assert(was.dom().contains(q));
                        assert(blocks@[was[q] as int] == earlier[was[q] as int]);
                    }
                }
                assert forall|i: int| #![trigger blocks@[i]] 0 <= i < blocks@.len() implies (
                blocks@[i] matches Some(x) ==> x.wf()) by {
                    if i < earlier.len() {
                        assert(blocks@[i] == earlier[i]);
                    }
                }
                assert forall|i: int| 0 <= i < b + 1 implies is_fresh_block(
                    #[trigger] blocks@[i],
                    qubits_per_node@[nodes@[i]]@,
                ) by {
                    if i < b {
                        assert(blocks@[i] == earlier[i]);
                    }
                }
                assert forall|q: usize|
                    #[trigger] qubit_to_block@.dom().contains(q) <==> last_node_with(
                        qubits_per_node@,
                        nodes@,
                        b + 1,
                        q,
                    ) is Some by {
                    assert(was.dom().contains(q) <==> last_node_with(
                        qubits_per_node@,
                        nodes@,
                        b as int,
                        q,
                    ) is Some);
                }
                assert forall|q: usize| #[trigger]
                    qubit_to_block@.dom().contains(q) implies Some(qubit_to_block@[q] as int)
                    == last_node_with(qubits_per_node@, nodes@, b + 1, q) by {
                    if !given@.contains(q) {
                        assert(was.dom().contains(q));
                    }
                }
            }
            b = b + 1;
        }
        let pool: BlockPool = BlockPool { blocks, qubit_to_block };
        assert(are_nodes_of(qubits_per_node@, nodes@));
        pool
    }

    /// The block of a known qubit.
    pub fn block_of(&self, phys: usize) -> (r: usize)
        requires
            self.wf(),
            self.qubit_to_block@.dom().contains(phys),
        ensures
            r == self.qubit_to_block@[phys],
            r < self.blocks@.len(),
            self.blocks@[r as int] is Some,
            self.blocks@[r as int]->0.qubits@.contains(phys),
    {
        broadcast use vstd::std_specs::hash::group_hash_axioms;

        match self.qubit_to_block.get(&phys) {
            Some(index) => *index,
            None => 0,
        }
    }

    /// Merges the block at `drop_idx` into the one at `keep_idx`. All qubits of the first
    /// belong to the second afterwards.
    pub fn merge(&mut self, keep_idx: usize, drop_idx: usize)
        requires
            old(self).wf(),
            keep_idx < old(self).blocks@.len(),
            drop_idx < old(self).blocks@.len(),
            old(self).blocks@[keep_idx as int] is Some,
            old(self).blocks@[drop_idx as int] is Some,
            keep_idx == drop_idx || old(self).blocks@[keep_idx as int]->0.qubits@.len() + old(
                self).blocks@[drop_idx as int]->0.qubits@.len() < usize::BITS,
        ensures
            final(self).wf(),
            pool_merges(
                old(self).blocks@,
                old(self).qubit_to_block@,
                keep_idx,
                drop_idx,
                final(self).blocks@,
                final(self).qubit_to_block@,
            ),
            keep_idx != drop_idx ==> final(self).blocks@[keep_idx as int]->0.qubits@.len() <= old(
                self).blocks@[keep_idx as int]->0.qubits@.len() + old(
                self).blocks@[drop_idx as int]->0.qubits@.len(),
    {
        broadcast use vstd::std_specs::hash::group_hash_axioms;

        if keep_idx == drop_idx {
            return;
        }
        let ghost blocks = self.blocks@;
        let ghost of = self.qubit_to_block@;
        let mut taken_a: Option<Block> = None;
        let mut taken_b: Option<Block> = None;
        std::mem::swap(&mut self.blocks[keep_idx], &mut taken_a);
        std::mem::swap(&mut self.blocks[drop_idx], &mut taken_b);
        assert(taken_a == blocks[keep_idx as int]);
        assert(taken_b == blocks[drop_idx as int]);
        let a: Block = taken_a.unwrap();
        let b: Block = taken_b.unwrap();
        let mut j: usize = 0;
        while j < b.qubits.len()
            invariant
                j <= b.qubits@.len(),
                self.blocks@ == blocks.update(keep_idx as int, None).update(drop_idx as int, None),
                forall|q: usize|
                    #[trigger] self.qubit_to_block@.dom().contains(q) <==> of.dom().contains(q)
                        || b.qubits@.take(j as int).contains(q),
                forall|q: usize| #[trigger]
                    self.qubit_to_block@.dom().contains(q) ==> self.qubit_to_block@[q] == (
                    if b.qubits@.take(j as int).contains(q) {
                        keep_idx
                    } else {
                        of[q]
                    }),
            decreases b.qubits@.len() - j,
        {
            let q: usize = b.qubits[j];
            let ghost was = self.qubit_to_block@;
            self.qubit_to_block.insert(q, keep_idx);
            proof {
                let now = b.qubits@.take(j as int);
                let next = b.qubits@.take(j + 1);
                assert(next =~= now.push(q));
                assert forall|y: usize| #[trigger] next.contains(y) <==> now.contains(y) || y == q by {
                    if now.contains(y) {
                        let i = choose|i: int| 0 <= i < now.len() && now[i] == y;
                        assert(next[i] == y);
                    }
                    if next.contains(y) {
                        let i = choose|i: int| 0 <= i < next.len() && next[i] == y;
                        if i < now.len() {
                            assert(now[i] == y);
                        }
                    }
                    assert(next[j as int] == q);
                }
                assert forall|y: usize|
                    #[trigger] self.qubit_to_block@.dom().contains(y) <==> of.dom().contains(y)
                        || next.contains(y) by {
                    assert(was.dom().contains(y) <==> of.dom().contains(y) || now.contains(y));
                    assert(next.contains(y) <==> now.contains(y) || y == q);
                }
                assert forall|y: usize| #[trigger]
                    self.qubit_to_block@.dom().contains(y) implies self.qubit_to_block@[y] == (
                if next.contains(y) {
                    keep_idx
                } else {
                    of[y]
                }) by {
                    assert(next.contains(y) <==> now.contains(y) || y == q);
                    if y != q {
                        assert(was.dom().contains(y));
                    }
                }
            }
            j = j + 1;
        }
        assert(b.qubits@.take(j as int) =~= b.qubits@);
        assert(blocks[keep_idx as int] == Some(a));
        assert(blocks[drop_idx as int] == Some(b));
        let ghost emptied = self.blocks@;
        let merged: Block = merge_blocks(a, b);
        self.blocks[keep_idx] = Some(merged);
        proof {
            assert(self.blocks@ =~= emptied.update(keep_idx as int, Some(merged)));
            assert forall|q: usize| #[trigger]
                self.qubit_to_block@.dom().contains(q) implies self.qubit_to_block@[q]
                < self.blocks@.len() && self.blocks@[self.qubit_to_block@[q] as int] is Some
                && self.blocks@[self.qubit_to_block@[q] as int]->0.qubits@.contains(q) by {
                if b.qubits@.contains(q) {
                    assert(merged.qubits@.contains(q));
                } else {
                    assert(of.dom().contains(q));
                    if of[q] == keep_idx {
                        assert(merged.qubits@.contains(q));
                    }
                }
            }
        }
    }

    /// Merges the blocks of the given qubits into that of the first one, and returns its place;
    /// 0 without qubits.
    pub fn ensure_single_block(&mut self, qubits: &[usize]) -> (r: usize)
        requires
            old(self).wf(),
            forall|j: int|
                0 <= j < qubits@.len() ==> old(self).qubit_to_block@.dom().contains(
                    #[trigger] qubits@[j],
                ),
            joint_size(
                old(self).blocks@,
                old(self).qubit_to_block@,
                qubits@,
                qubits@.len() as int,
            ) < usize::BITS,
        ensures
            final(self).wf(),
            final(self).blocks@.len() == old(self).blocks@.len(),
            r == if qubits@.len() == 0 {
                0
            } else {
                old(self).qubit_to_block@[qubits@[0]]
            },
            joins_to(
                old(self).blocks@,
                old(self).qubit_to_block@,
                qubits@,
                r,
                qubits@.len() as int,
                final(self).blocks@,
                final(self).qubit_to_block@,
            ),
            forall|j: int|
                0 <= j < qubits@.len() ==> final(self).qubit_to_block@.dom().contains(
                    #[trigger] qubits@[j],
                ) && final(self).qubit_to_block@[qubits@[j]] == r,
            qubits@.len() > 0 ==> final(self).blocks@[r as int] is Some,
            forall|i: int|
                0 <= i < old(self).blocks@.len() && i != r && final(self).blocks@[i] is Some
                    ==> #[trigger] final(self).blocks@[i] == old(self).blocks@[i],
            forall|q: usize|
                old(self).qubit_to_block@.dom().contains(q) ==> #[trigger] final(self).qubit_to_block@.dom().contains(q) && (final(self).qubit_to_block@[q] == r
                    || final(self).qubit_to_block@[q] == old(self).qubit_to_block@[q]),
    {
        if qubits.len() == 0 {
            return 0;
        }
        let ghost of = self.qubit_to_block@;
        let ghost blocks = self.blocks@;
        let ghost count = self.blocks@.len();
        assert(of.dom().contains(qubits@[0]));
        let target: usize = self.block_of(qubits[0]);
        proof {
            lemma_joint_size_grows(blocks, of, qubits@, 1, qubits@.len() as int);
            assert(joint_size(blocks, of, qubits@, 0) == 0);
            assert(!shares_block(of, qubits@, 0, target));
            assert(waiting_size(blocks, of, qubits@, target, 0) == 0);
            assert forall|l: int| 0 <= l < qubits@.len() implies of[#[trigger] qubits@[l]]
                < count by {
                assert(of.dom().contains(qubits@[l]));
            }
        }
        let mut j: usize = 1;
        while j < qubits.len()
            invariant
                1 <= j <= qubits@.len(),
                self.wf(),
                self.blocks@.len() == count,
                target < count,
                target == of[qubits@[0]],
                self.blocks@[target as int] is Some,
                pool_wf(blocks, of),
                blocks.len() == count,
                forall|l: int| 0 <= l < qubits@.len() ==> of[#[trigger] qubits@[l]] < count,
                self.blocks@[target as int]->0.qubits@.len() + waiting_size(
                    self.blocks@,
                    of,
                    qubits@,
                    target,
                    j as int,
                ) <= joint_size(blocks, of, qubits@, j as int),
                joint_size(blocks, of, qubits@, qubits@.len() as int) < usize::BITS,
                joins_to(
                    blocks,
                    of,
                    qubits@,
                    target,
                    j as int,
                    self.blocks@,
                    self.qubit_to_block@,
                ),
                forall|i: int|
                    0 <= i < count && i != target && self.blocks@[i] is Some
                        ==> #[trigger] self.blocks@[i] == blocks[i],
                forall|l: int|
                    0 <= l < qubits@.len() ==> of.dom().contains(#[trigger] qubits@[l]),
                forall|q: usize|
                    of.dom().contains(q) ==> #[trigger] self.qubit_to_block@.dom().contains(q) && (
                    self.qubit_to_block@[q] == target || self.qubit_to_block@[q] == of[q]),
                forall|l: int|
                    0 <= l < j ==> self.qubit_to_block@.dom().contains(#[trigger] qubits@[l])
                        && self.qubit_to_block@[qubits@[l]] == target,
            decreases qubits@.len() - j,
        {
            let q: usize = qubits[j];
            assert(of.dom().contains(qubits@[j as int]));
            let other: usize = self.block_of(q);
            let ghost was = self.qubit_to_block@;
            let ghost dropped = self.blocks@[other as int]->0;
            let ghost earlier = self.blocks@;
            proof {
                lemma_joint_size_grows(blocks, of, qubits@, j + 1, qubits@.len() as int);
                if other != target {
                    assert(was.dom().contains(q));
                    assert(was[q] == of[q]);
                    assert(self.blocks@[other as int] == blocks[other as int]);
                    lemma_waiting_removed(
                        self.blocks@,
                        of,
                        qubits@,
                        target,
                        j as int,
                        other,
                    );
                }
            }
            if other != target {
                self.merge(target, other);
                proof {
                    assert forall|i: int|
                        0 <= i < count && i != target && self.blocks@[i] is Some implies
                        #[trigger] self.blocks@[i] == blocks[i] by {
                        assert(i != other);
                        assert(earlier[i] == blocks[i]);
                    }
                    lemma_waiting_same(
                        self.blocks@,
                        earlier.update(other as int, None),
                        of,
                        qubits@,
                        target,
                        j as int,
                    );
                    assert forall|x: usize| of.dom().contains(x) implies #[trigger] self.qubit_to_block@.dom().contains(
                        x,
                    ) && (self.qubit_to_block@[x] == target || self.qubit_to_block@[x] == of[x]) by {
                        assert(was.dom().contains(x));
                        assert(self.qubit_to_block@.dom().contains(x));
                        assert(self.qubit_to_block@[x] == (if dropped.qubits@.contains(x) {
                            target
                        } else {
                            was[x]
                        }));
                    }
                    assert forall|l: int| 0 <= l < j + 1 implies self.qubit_to_block@.dom().contains(
                        #[trigger] qubits@[l],
                    ) && self.qubit_to_block@[qubits@[l]] == target by {
                        assert(of.dom().contains(qubits@[l]));
                        assert(was.dom().contains(qubits@[l]));
                        assert(self.qubit_to_block@.dom().contains(qubits@[l]));
                        assert(self.qubit_to_block@[qubits@[l]] == (if dropped.qubits@.contains(
                            qubits@[l],
                        ) {
                            target
                        } else {
                            was[qubits@[l]]
                        }));
                        if l == j {
                            assert(dropped.qubits@.contains(q));
                        }
                    }
                }
            }
            proof {
                assert(pool_merges(
                    earlier,
                    was,
                    target,
                    was[qubits@[j as int]],
                    self.blocks@,
                    self.qubit_to_block@,
                ));
                assert(joins_to(
                    blocks,
                    of,
                    qubits@,
                    target,
                    j + 1,
                    self.blocks@,
                    self.qubit_to_block@,
                ));
            }
            assert(waiting_size(self.blocks@, of, qubits@, target, j + 1) <= waiting_size(
                self.blocks@,
                of,
                qubits@,
                target,
                j as int,
            ) + (if shares_block(of, qubits@, j as int, of[q]) || of[q] == target
                || self.blocks@[of[q] as int] is None {
                0
            } else {
                blocks[of[q] as int]->0.qubits@.len()
            }));
            j = j + 1;
        }
        target
    }

    /// Merges all blocks into one, in the order of their places; a block without qubits where
    /// there is none.
    pub fn merge_all(self) -> (r: Block)
        requires
            self.wf(),
            pool_size(self.blocks@, self.blocks@.len() as int) < usize::BITS,
        ensures
            r.wf(),
            forall|q: usize|
                #[trigger] r.qubits@.contains(q) <==> in_some_block(
                    self.blocks@,
                    self.blocks@.len() as int,
                    q,
                ),
            is_chain(self.blocks@, self.blocks@.len() as int, r),
    {
        let ghost all = self.blocks@;
        let mut rest: Vec<Option<Block>> = self.blocks;
        let mut acc: Option<Block> = None;
        let mut i: usize = 0;
        let empty: Vec<usize> = Vec::new();
        while i < rest.len()
            invariant
                i <= rest@.len(),
                rest@.len() == all.len(),
                forall|k: int|
                    #![trigger all[k]]
                    0 <= k < all.len() ==> (all[k] matches Some(block) ==> block.wf()),
                pool_size(all, all.len() as int) < usize::BITS,
                forall|k: int| i <= k < all.len() ==> #[trigger] rest@[k] == all[k],
                match acc {
                    Some(block) => block.wf() && block.qubits@.len() <= pool_size(all, i as int)
                        && some_block(all, i as int) && is_chain(all, i as int, block) && forall|
                        q: usize,
                    |
                        #[trigger] block.qubits@.contains(q) <==> in_some_block(all, i as int, q),
                    None => !some_block(all, i as int),
                },
            decreases rest@.len() - i,
        {
            let mut taken: Option<Block> = None;
            std::mem::swap(&mut rest[i], &mut taken);
            assert(taken == all[i as int]);
            proof {
                lemma_pool_size_grows(all, i + 1, all.len() as int);
            }
            let ghost before = acc;
            match taken {
                Some(block) => {
                    acc = match acc {
                        None => {
                            proof {
                                assert forall|q: usize| #[trigger] block.qubits@.contains(q)
                                    <==> in_some_block(all, i + 1, q) by {
                                    lemma_in_no_block(all, i as int, q);
                                }
                            }
                            Some(block)
                        },
                        Some(earlier) => {
                            let merged: Block = merge_blocks(earlier, block);
                            proof {
                                assert forall|q: usize| #[trigger] merged.qubits@.contains(q)
                                    <==> in_some_block(all, i + 1, q) by {
                                    assert(earlier.qubits@.contains(q) <==> in_some_block(
                                        all,
                                        i as int,
                                        q,
                                    ));
                                }
                                assert(is_merged(earlier, block, merged));
                            }
                            Some(merged)
                        },
                    };
                },
                None => {},
            }
            i = i + 1;
        }
        match acc {
            Some(block) => block,
            None => {
                let block: Block = Block::new(empty);
                proof {
                    assert forall|q: usize| #[trigger] block.qubits@.contains(q) <==> in_some_block(
                        all,
                        all.len() as int,
                        q,
                    ) by {
                        assert(block.qubits@.contains(q) <==> empty@.contains(q));
                        lemma_in_no_block(all, all.len() as int, q);
                    }
                    lemma_chain_of_none(all, all.len() as int, block);
                }
                block
            },
        }
    }
}

/// Whether merging the block at `drop` into the one at `keep` leads from one pool to another:
/// the first place is left empty, the second holds the merged block, and the qubits of the first
/// belong to it. Nothing changes where the two are one.
pub open spec fn pool_merges(
    blocks: Seq<Option<Block>>,
    of: Map<usize, usize>,
    keep: usize,
    drop: usize,
    after: Seq<Option<Block>>,
    after_of: Map<usize, usize>,
) -> bool {
    if keep == drop {
        after == blocks && after_of == of
    } else {
        &&& after.len() == blocks.len()
        &&& after[drop as int] is None
        &&& after[keep as int] is Some
        &&& is_merged(blocks[keep as int]->0, blocks[drop as int]->0, after[keep as int]->0)
        &&& forall|i: int|
            0 <= i < blocks.len() && i != keep && i != drop ==> #[trigger] after[i] == blocks[i]
        &&& forall|q: usize|
            #[trigger] after_of.dom().contains(q) <==> of.dom().contains(q)
                || blocks[drop as int]->0.qubits@.contains(q)
        &&& forall|q: usize| #[trigger]
            after_of.dom().contains(q) ==> after_of[q] == (if blocks[drop as int]->0.qubits@.contains(
                q,
            ) {
                keep
            } else {
                of[q]
            })
    }
}

/// Whether merging the blocks of the first `count` of some qubits into the one at `target`, one
/// after another, leads from one pool to another. A qubit that is in that block already changes
/// nothing.
pub open spec fn joins_to(
    blocks: Seq<Option<Block>>,
    of: Map<usize, usize>,
    qubits: Seq<usize>,
    target: usize,
    count: int,
    after: Seq<Option<Block>>,
    after_of: Map<usize, usize>,
) -> bool
    decreases count,
{
    if count <= 1 {
        after == blocks && after_of == of
    } else {
        exists|mid: Seq<Option<Block>>, mid_of: Map<usize, usize>| #[trigger]
            pool_merges(mid, mid_of, target, mid_of[qubits[count - 1]], after, after_of)
                && joins_to(blocks, of, qubits, target, count - 1, mid, mid_of)
    }
}

/// Whether `nodes` are the nodes of a map, in ascending order.
pub open spec fn are_nodes_of(per_node: Map<usize, Vec<usize>>, nodes: Seq<usize>) -> bool {
    is_ascending(nodes) && forall|node: usize|
        #[trigger] nodes.contains(node) <==> per_node.dom().contains(node)
}

/// Whether a place holds a block of the given qubits, all of them 0.
pub open spec fn is_fresh_block(block: Option<Block>, given: Seq<usize>) -> bool {
    block matches Some(b) && is_ascending(b.qubits@) && (forall|q: usize|
        #[trigger] b.qubits@.contains(q) <==> given.contains(q)) && b.state@ == ground_amps(
        b.qubits@.len() as usize,
    )
}

/// Whether the first `count` nodes have a block each, and each qubit belongs to the last block
/// that has it.
pub open spec fn is_fresh_pool(
    per_node: Map<usize, Vec<usize>>,
    nodes: Seq<usize>,
    count: int,
    blocks: Seq<Option<Block>>,
    of: Map<usize, usize>,
) -> bool {
    &&& blocks.len() == count
    &&& forall|i: int|
        0 <= i < count ==> is_fresh_block(#[trigger] blocks[i], per_node[nodes[i]]@)
    &&& forall|q: usize|
        #[trigger] of.dom().contains(q) <==> last_node_with(per_node, nodes, count, q) is Some
    &&& forall|q: usize| #[trigger]
        of.dom().contains(q) ==> Some(of[q] as int) == last_node_with(per_node, nodes, count, q)
}

proof fn lemma_take_one_more(s: Seq<usize>, j: int)
    requires
        0 <= j < s.len(),
    ensures
        forall|y: usize| #[trigger] s.take(j + 1).contains(y) <==> s.take(j).contains(y) || y == s[j],
{
    let now = s.take(j);
    let next = s.take(j + 1);
    assert forall|y: usize| #[trigger] next.contains(y) <==> now.contains(y) || y == s[j] by {
        if now.contains(y) {
            let i = choose|i: int| 0 <= i < now.len() && now[i] == y;
            assert(next[i] == y);
        }
        if next.contains(y) {
            let i = choose|i: int| 0 <= i < next.len() && next[i] == y;
            if i < now.len() {
                assert(now[i] == y);
            }
        }
        assert(next[j] == s[j]);
    }
}

/// Whether one of the first `count` places holds a block.
pub open spec fn some_block(blocks: Seq<Option<Block>>, count: int) -> bool
    decreases count,
{
    count > 0 && (blocks[count - 1] is Some || some_block(blocks, count - 1))
}

/// Whether a qubit is in one of the first `count` blocks.
pub open spec fn in_some_block(blocks: Seq<Option<Block>>, count: int, q: usize) -> bool
    decreases count,
{
    count > 0 && ((blocks[count - 1] matches Some(block) && block.qubits@.contains(q))
        || in_some_block(blocks, count - 1, q))
}

/// Whether `r` comes from merging the first `count` blocks one after another; a block without
/// qubits in the ground state where there is none.
pub open spec fn is_chain(blocks: Seq<Option<Block>>, count: int, r: Block) -> bool
    decreases count,
{
    if count <= 0 {
        r.qubits@.len() == 0 && r.state@ == ground_amps(0)
    } else {
        match blocks[count - 1] {
            None => is_chain(blocks, count - 1, r),
            Some(block) => if some_block(blocks, count - 1) {
                exists|earlier: Block| #[trigger]
                    is_merged(earlier, block, r) && is_chain(blocks, count - 1, earlier)
            } else {
                r == block
            },
        }
    }
}

proof fn lemma_in_no_block(blocks: Seq<Option<Block>>, count: int, q: usize)
    requires
        !some_block(blocks, count),
    ensures
        !in_some_block(blocks, count, q),
    decreases count,
{
    if count > 0 {
        lemma_in_no_block(blocks, count - 1, q);
    }
}

proof fn lemma_chain_of_none(blocks: Seq<Option<Block>>, count: int, r: Block)
    requires
        !some_block(blocks, count),
        r.qubits@.len() == 0,
        r.state@ == ground_amps(0),
    ensures
        is_chain(blocks, count, r),
    decreases count,
{
    if count > 0 {
        lemma_chain_of_none(blocks, count - 1, r);
    }
}

proof fn lemma_pool_size_grows(blocks: Seq<Option<Block>>, i: int, j: int)
    requires
        i <= j,
    ensures
        pool_size(blocks, i) <= pool_size(blocks, j),
    decreases j - i,
{
    if i < j {
        lemma_pool_size_grows(blocks, i, j - 1);
    }
}

} // verus!
