//! Tensors of a matrix product state.

use num_complex::Complex64;
use vstd::prelude::*;

use crate::complex::{complex_zero, zero};

verus! {

/// The tensor of one qubit: a number for each value of the left bond, of the qubit and of the
/// right bond.
pub struct Tensor {
    pub left: usize,
    pub right: usize,
    pub data: Vec<Complex64>,
}

/// Where an entry stands.
pub open spec fn entry_place(right: int, l: int, state: int, r: int) -> int {
    (l * 2 + state) * right + r
}

/// Whether an entry exists.
pub open spec fn is_entry(left: int, right: int, l: int, state: int, r: int) -> bool {
    0 <= l < left && 0 <= state < 2 && 0 <= r < right
}

/// An entry stands inside the tensor, and two different entries stand at different places.
pub proof fn lemma_entry_place(left: int, right: int, l: int, state: int, r: int)
    requires
        is_entry(left, right, l, state, r),
    ensures
        0 <= entry_place(right, l, state, r) < left * 2 * right,
        entry_place(right, l, state, r) / right == l * 2 + state,
        entry_place(right, l, state, r) % right == r,
        0 <= l * 2 + state < left * 2,
        (l * 2 + state) * right <= left * 2 * right,
{
    let row = l * 2 + state;
    assert(row * right + r < (row + 1) * right) by (nonlinear_arith)
        requires
            r < right,
    ;
    assert((row + 1) * right <= left * 2 * right) by (nonlinear_arith)
        requires
            row + 1 <= left * 2,
            0 <= right,
    ;
    assert(row * right <= left * 2 * right) by (nonlinear_arith)
        requires
            row <= left * 2,
            0 <= right,
    ;
    assert(0 <= row * right) by (nonlinear_arith)
        requires
            0 <= row,
            0 <= right,
    ;
    vstd::arithmetic::div_mod::lemma_fundamental_div_mod_converse(row * right + r, right, row, r);
}

/// The entry at a given place.
pub proof fn lemma_same_place(
    left: int,
    right: int,
    l: int,
    state: int,
    r: int,
    l2: int,
    state2: int,
    r2: int,
)
    requires
        is_entry(left, right, l, state, r),
        is_entry(left, right, l2, state2, r2),
        entry_place(right, l, state, r) == entry_place(right, l2, state2, r2),
    ensures
        l == l2,
        state == state2,
        r == r2,
{
    lemma_entry_place(left, right, l, state, r);
    lemma_entry_place(left, right, l2, state2, r2);
}

impl Tensor {
    /// The tensor has the entries that it needs, and no bond is empty.
    pub open spec fn wf(&self) -> bool {
        &&& self.left >= 1
        &&& self.right >= 1
        &&& self.data@.len() == self.left * 2 * self.right
    }

    /// An entry.
    pub open spec fn at(&self, l: int, state: int, r: int) -> Complex64 {
        self.data@[entry_place(self.right as int, l, state, r)]
    }

    /// Reads an entry.
    pub fn get(&self, l: usize, state: usize, r: usize) -> (value: Complex64)
        requires
            self.wf(),
            is_entry(self.left as int, self.right as int, l as int, state as int, r as int),
        ensures
            value == self.at(l as int, state as int, r as int),
    {
        let place: usize = self.idx(l, state, r);
        self.data[place]
    }

    /// Where an entry stands.
    pub fn idx(&self, l: usize, state: usize, r: usize) -> (place: usize)
        requires
            self.wf(),
            is_entry(self.left as int, self.right as int, l as int, state as int, r as int),
        ensures
            place == entry_place(self.right as int, l as int, state as int, r as int),
            place < self.data@.len(),
    {
        assert(self.data.len() <= usize::MAX);
        proof {
            lemma_entry_place(
                self.left as int,
                self.right as int,
                l as int,
                state as int,
                r as int,
            );
            assert(self.left * 2 <= self.left * 2 * self.right) by (nonlinear_arith)
                requires
                    self.right >= 1,
                    self.left >= 1,
            ;
        }
        (l * 2 + state) * self.right + r
    }

    /// Replaces an entry.
    pub fn set(&mut self, l: usize, state: usize, r: usize, value: Complex64)
        requires
            old(self).wf(),
            is_entry(
                old(self).left as int,
                old(self).right as int,
                l as int,
                state as int,
                r as int,
            ),
        ensures
            final(self).wf(),
            final(self).left == old(self).left,
            final(self).right == old(self).right,
            forall|l2: int, s2: int, r2: int|
                is_entry(old(self).left as int, old(self).right as int, l2, s2, r2)
                    ==> #[trigger] final(self).at(l2, s2, r2) == (if l2 == l && s2 == state && r2
                    == r {
                    value
                } else {
                    old(self).at(l2, s2, r2)
                }),
    {
        let place: usize = self.idx(l, state, r);
        let ghost before = *self;
        self.data[place] = value;
        proof {
            assert forall|l2: int, s2: int, r2: int|
                is_entry(before.left as int, before.right as int, l2, s2, r2) implies #[trigger] self.at(
                l2,
                s2,
                r2,
            ) == (if l2 == l && s2 == state && r2 == r {
                value
            } else {
                before.at(l2, s2, r2)
            }) by {
                lemma_entry_place(before.left as int, before.right as int, l2, s2, r2);
                if entry_place(before.right as int, l2, s2, r2) == place {
                    lemma_same_place(
                        before.left as int,
                        before.right as int,
                        l2,
                        s2,
                        r2,
                        l as int,
                        state as int,
                        r as int,
                    );
                }
            }
        }
    }

    /// A tensor without entries that differ from zero.
    pub fn zero(left: usize, right: usize) -> (t: Tensor)
        requires
            left >= 1,
            right >= 1,
            left * 2 * right <= usize::MAX,
        ensures
            t.wf(),
            t.left == left,
            t.right == right,
            forall|l: int, s: int, r: int|
                is_entry(left as int, right as int, l, s, r) ==> #[trigger] t.at(l, s, r)
                    == complex_zero(),
    {
        let f = |l: usize, s: usize, r: usize| -> (value: Complex64)
            ensures
                value == complex_zero(),
        {
            zero()
        };
        tabulate(left, right, f)
    }
}

/// Whether a function gives the entry that stands at its place.
pub open spec fn gives<F: Fn(usize, usize, usize) -> Complex64>(
    f: F,
    right: usize,
    data: Seq<Complex64>,
    l: usize,
    state: usize,
    r: usize,
) -> bool {
    f.ensures(
        (l, state, r),
        data[entry_place(right as int, l as int, state as int, r as int)],
    )
}

/// The tensor whose entries a function gives.
pub fn tabulate<F: Fn(usize, usize, usize) -> Complex64>(left: usize, right: usize, f: F) -> (t:
    Tensor)
    requires
        left >= 1,
        right >= 1,
        left * 2 * right <= usize::MAX,
        forall|l: usize, s: usize, r: usize|
            is_entry(left as int, right as int, l as int, s as int, r as int)
                ==> #[trigger] f.requires((l, s, r)),
    ensures
        t.wf(),
        t.left == left,
        t.right == right,
        forall|l: usize, s: usize, r: usize|
            #![trigger t.at(l as int, s as int, r as int)]
            is_entry(left as int, right as int, l as int, s as int, r as int) ==> f.ensures(
                (l, s, r),
                t.at(l as int, s as int, r as int),
            ),
{
    let mut data: Vec<Complex64> = Vec::new();
    proof {
        assert(left * 2 <= left * 2 * right) by (nonlinear_arith)
            requires
                right >= 1,
                left >= 1,
        ;
    }
    let rows: usize = left * 2;
    let mut row: usize = 0;
    proof {
        assert(0 * right == 0) by (nonlinear_arith);
        assert forall|l: usize, s: usize, r: usize|
            is_entry(left as int, right as int, l as int, s as int, r as int) && entry_place(
                right as int,
                l as int,
                s as int,
                r as int,
            ) < data@.len() implies #[trigger] gives(f, right, data@, l, s, r) by {
            lemma_entry_place(left as int, right as int, l as int, s as int, r as int);
        }
    }
    while row < rows
        invariant
            row <= rows,
            rows == left * 2,
            left >= 1,
            right >= 1,
            left * 2 * right <= usize::MAX,
            forall|l: usize, s: usize, r: usize|
                is_entry(left as int, right as int, l as int, s as int, r as int)
                    ==> #[trigger] f.requires((l, s, r)),
            data@.len() == row * right,
            forall|l: usize, s: usize, r: usize|
                is_entry(left as int, right as int, l as int, s as int, r as int) && entry_place(
                    right as int,
                    l as int,
                    s as int,
                    r as int,
                ) < data@.len() ==> #[trigger] gives(f, right, data@, l, s, r),
        decreases rows - row,
    {
        let l: usize = row / 2;
        let s: usize = row % 2;
        let mut r: usize = 0;
        while r < right
            invariant
                r <= right,
                row < rows,
                rows == left * 2,
                l == row / 2,
                s == row % 2,
                left >= 1,
                right >= 1,
                left * 2 * right <= usize::MAX,
                forall|a: usize, b: usize, c: usize|
                    is_entry(left as int, right as int, a as int, b as int, c as int)
                        ==> #[trigger] f.requires((a, b, c)),
                data@.len() == row * right + r,
                forall|a: usize, b: usize, c: usize|
                    is_entry(left as int, right as int, a as int, b as int, c as int)
                        && entry_place(right as int, a as int, b as int, c as int) < data@.len()
                        ==> #[trigger] gives(f, right, data@, a, b, c),
            decreases right - r,
        {
            assert(is_entry(left as int, right as int, l as int, s as int, r as int));
            assert(f.requires((l, s, r)));
            let ghost before = data@;
            let value: Complex64 = f(l, s, r);
            data.push(value);
            proof {
                assert(entry_place(right as int, l as int, s as int, r as int) == before.len());
                assert forall|a: usize, b: usize, c: usize|
                    is_entry(left as int, right as int, a as int, b as int, c as int)
                        && entry_place(right as int, a as int, b as int, c as int)
                        < data@.len() implies #[trigger] gives(f, right, data@, a, b, c) by {
                    lemma_entry_place(left as int, right as int, a as int, b as int, c as int);
                    let place = entry_place(right as int, a as int, b as int, c as int);
                    if place == before.len() {
                        lemma_same_place(
                            left as int,
                            right as int,
                            a as int,
                            b as int,
                            c as int,
                            l as int,
                            s as int,
                            r as int,
                        );
                    } else {
                        assert(gives(f, right, before, a, b, c));
                        assert(data@[place] == before[place]);
                    }
                }
            }
            r = r + 1;
        }
        assert(row * right + right == (row + 1) * right) by (nonlinear_arith);
        row = row + 1;
    }
    let t: Tensor = Tensor { left, right, data };
    proof {
        assert forall|l: usize, s: usize, r: usize| #![trigger t.at(l as int, s as int, r as int)]
            is_entry(left as int, right as int, l as int, s as int, r as int) implies f.ensures(
            (l, s, r),
            t.at(l as int, s as int, r as int),
        ) by {
            lemma_entry_place(left as int, right as int, l as int, s as int, r as int);
            assert(gives(f, right, t.data@, l, s, r));
        }
    }
    t
}

} // verus!
