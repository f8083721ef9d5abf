//! How the one-qubit gates without angles multiply.
//!
//! Twice the entries of such a gate are sums of powers of an eighth root of unity with integer
//! factors. A reading of numbers as such sums gives the entries their ideal values; in it the
//! gates multiply as they should.

use num_complex::Complex64;
use vstd::prelude::*;

use crate::complex::{complex_join, complex_neg, complex_of, complex_zero};
use crate::engine::Matrix2;
use crate::gate_matrix::{half, half_root, is_fixed_gate};
use crate::instruction::Kind;

verus! {

/// A sum of the first four powers of an eighth root of unity; its fourth power is minus one.
pub struct Cyclotomic {
    pub a: int,
    pub b: int,
    pub c: int,
    pub d: int,
}

/// The sum of two such numbers.
pub open spec fn plus(x: Cyclotomic, y: Cyclotomic) -> Cyclotomic {
    Cyclotomic { a: x.a + y.a, b: x.b + y.b, c: x.c + y.c, d: x.d + y.d }
}

/// The product of two such numbers.
#[verifier::opaque]
pub open spec fn times(x: Cyclotomic, y: Cyclotomic) -> Cyclotomic {
    Cyclotomic {
        a: x.a * y.a - x.b * y.d - x.c * y.c - x.d * y.b,
        b: x.a * y.b + x.b * y.a - x.c * y.d - x.d * y.c,
        c: x.a * y.c + x.b * y.b + x.c * y.a - x.d * y.d,
        d: x.a * y.d + x.b * y.c + x.c * y.b + x.d * y.a,
    }
}

/// The opposite of such a number.
pub open spec fn minus(x: Cyclotomic) -> Cyclotomic {
    Cyclotomic { a: -x.a, b: -x.b, c: -x.c, d: -x.d }
}

/// Such a number times an integer.
pub open spec fn multiple(k: int, x: Cyclotomic) -> Cyclotomic {
    Cyclotomic { a: k * x.a, b: k * x.b, c: k * x.c, d: k * x.d }
}

/// Such a number times the imaginary unit, which is the square of the root.
pub open spec fn times_i(x: Cyclotomic) -> Cyclotomic {
    Cyclotomic { a: -x.c, b: -x.d, c: x.a, d: x.b }
}

/// Whether a number reads as twice its ideal value: integers as themselves, one half as one half
/// and its square root as the real number that the root and its inverse add up to, over two.
/// Opposites and numbers joined from two parts are followed.
pub open spec fn reads_ideally(val: spec_fn(Complex64) -> Cyclotomic) -> bool {
    &&& val(complex_of(0, 0)) == (Cyclotomic { a: 0, b: 0, c: 0, d: 0 })
    &&& val(complex_of(1, 0)) == (Cyclotomic { a: 2, b: 0, c: 0, d: 0 })
    &&& val(complex_of(-1, 0)) == (Cyclotomic { a: -2, b: 0, c: 0, d: 0 })
    &&& val(complex_of(0, 1)) == (Cyclotomic { a: 0, b: 0, c: 2, d: 0 })
    &&& val(complex_of(0, -1)) == (Cyclotomic { a: 0, b: 0, c: -2, d: 0 })
    &&& val(half()) == (Cyclotomic { a: 1, b: 0, c: 0, d: 0 })
    &&& val(half_root()) == (Cyclotomic { a: 0, b: 1, c: 0, d: -1 })
    &&& val(complex_neg(half())) == minus(val(half()))
    &&& val(complex_neg(half_root())) == minus(val(half_root()))
    &&& val(complex_join(half(), half())) == plus(val(half()), times_i(val(half())))
    &&& val(complex_join(half(), complex_neg(half()))) == plus(
        val(half()),
        times_i(minus(val(half()))),
    )
    &&& val(complex_join(half_root(), half_root())) == plus(
        val(half_root()),
        times_i(val(half_root())),
    )
    &&& val(complex_join(half_root(), complex_neg(half_root()))) == plus(
        val(half_root()),
        times_i(minus(val(half_root()))),
    )
    &&& val(complex_join(complex_neg(half_root()), complex_zero())) == minus(val(half_root()))
}

spec fn small_times(p: int, q: int) -> int {
    if q == 0 {
        0
    } else if q == 1 {
        p
    } else if q == -1 {
        -p
    } else if q == 2 {
        p + p
    } else {
        -p - p
    }
}

proof fn lemma_small_times(p: int, q: int)
    requires
        -2 <= q <= 2,
    ensures
        p * q == small_times(p, q),
{
    assert(p * 0 == 0 && p * 1 == p && p * (-1) == -p && p * 2 == p + p && p * (-2) == -p - p)
        by (nonlinear_arith);
}

spec fn is_small(y: Cyclotomic) -> bool {
    -2 <= y.a <= 2 && -2 <= y.b <= 2 && -2 <= y.c <= 2 && -2 <= y.d <= 2
}

proof fn lemma_times(x: Cyclotomic, y: Cyclotomic)
    requires
        is_small(y),
    ensures
        times(x, y) == (Cyclotomic {
            a: small_times(x.a, y.a) - small_times(x.b, y.d) - small_times(x.c, y.c) - small_times(
                x.d,
                y.b,
            ),
            b: small_times(x.a, y.b) + small_times(x.b, y.a) - small_times(x.c, y.d) - small_times(
                x.d,
                y.c,
            ),
            c: small_times(x.a, y.c) + small_times(x.b, y.b) + small_times(x.c, y.a) - small_times(
                x.d,
                y.d,
            ),
            d: small_times(x.a, y.d) + small_times(x.b, y.c) + small_times(x.c, y.b) + small_times(
                x.d,
                y.a,
            ),
        }),
{
    reveal(times);
    lemma_small_times(x.a, y.a);
    lemma_small_times(x.a, y.b);
    lemma_small_times(x.a, y.c);
    lemma_small_times(x.a, y.d);
    lemma_small_times(x.b, y.a);
    lemma_small_times(x.b, y.b);
    lemma_small_times(x.b, y.c);
    lemma_small_times(x.b, y.d);
    lemma_small_times(x.c, y.a);
    lemma_small_times(x.c, y.b);
    lemma_small_times(x.c, y.c);
    lemma_small_times(x.c, y.d);
    lemma_small_times(x.d, y.a);
    lemma_small_times(x.d, y.b);
    lemma_small_times(x.d, y.c);
    lemma_small_times(x.d, y.d);
}

proof fn lemma_small_entries(
    val: spec_fn(Complex64) -> Cyclotomic,
    kind: Kind,
    y: Matrix2,
    c: int,
)
    requires
        reads_ideally(val),
        is_fixed_gate(kind, y),
        0 <= c < 2,
    ensures
        is_small(val(y[0][c])),
        is_small(val(y[1][c])),
{
}

/// An entry of the product of two gates, read ideally: four times its value.
pub open spec fn product_entry(
    val: spec_fn(Complex64) -> Cyclotomic,
    x: Matrix2,
    y: Matrix2,
    r: int,
    c: int,
) -> Cyclotomic {
    plus(times(val(x[r][0]), val(y[0][c])), times(val(x[r][1]), val(y[1][c])))
}

/// Whether `first` after `second` is `third`, all of them gates without angles.
pub open spec fn multiplies_to(first: Kind, second: Kind, third: Kind) -> bool {
    match (first, second) {
        (Kind::T, Kind::T) => third is S,
        (Kind::Tdg, Kind::Tdg) => third is Sdg,
        (Kind::S, Kind::S) | (Kind::Sdg, Kind::Sdg) => third is Z,
        (Kind::Sx, Kind::Sx) | (Kind::Sxdg, Kind::Sxdg) => third is X,
        (Kind::S, Kind::Z) | (Kind::Z, Kind::S) => third is Sdg,
        (Kind::Sx, Kind::X) | (Kind::X, Kind::Sx) => third is Sxdg,
        (Kind::H, Kind::H)
        | (Kind::X, Kind::X)
        | (Kind::Y, Kind::Y)
        | (Kind::Z, Kind::Z)
        | (Kind::S, Kind::Sdg)
        | (Kind::Sdg, Kind::S)
        | (Kind::T, Kind::Tdg)
        | (Kind::Tdg, Kind::T)
        | (Kind::Sx, Kind::Sxdg)
        | (Kind::Sxdg, Kind::Sx) => third is Id || third is U0,
        _ => false,
    }
}

/// Twice the ideal entry of a gate without angles.
spec fn ideal_entry(kind: Kind, r: int, c: int) -> Cyclotomic {
    let number = |a: int, b: int, c: int, d: int| Cyclotomic { a, b, c, d };
    match kind {
        Kind::X => if r == c {
            number(0, 0, 0, 0)
        } else {
            number(2, 0, 0, 0)
        },
        Kind::Y => if r == c {
            number(0, 0, 0, 0)
        } else if r == 0 {
            number(0, 0, -2, 0)
        } else {
            number(0, 0, 2, 0)
        },
        Kind::H => if r == 1 && c == 1 {
            number(0, -1, 0, 1)
        } else {
            number(0, 1, 0, -1)
        },
        Kind::Sx => if r == c {
            number(1, 0, 1, 0)
        } else {
            number(1, 0, -1, 0)
        },
        Kind::Sxdg => if r == c {
            number(1, 0, -1, 0)
        } else {
            number(1, 0, 1, 0)
        },
        _ => if r != c {
            number(0, 0, 0, 0)
        } else if r == 0 {
            number(2, 0, 0, 0)
        } else {
            match kind {
                Kind::Z => number(-2, 0, 0, 0),
                Kind::S => number(0, 0, 2, 0),
                Kind::Sdg => number(0, 0, -2, 0),
                Kind::T => number(0, 2, 0, 0),
                Kind::Tdg => number(0, 0, 0, -2),
                _ => number(2, 0, 0, 0),
            }
        },
    }
}

proof fn lemma_ideal_entry(
    val: spec_fn(Complex64) -> Cyclotomic,
    kind: Kind,
    m: Matrix2,
    r: int,
    c: int,
)
    requires
        reads_ideally(val),
        is_fixed_gate(kind, m),
        0 <= r < 2,
        0 <= c < 2,
    ensures
        val(m[r][c]) == ideal_entry(kind, r, c),
{
}

proof fn lemma_ideal_products(first: Kind, second: Kind, third: Kind, r: int, c: int)
    requires
        multiplies_to(first, second, third),
        0 <= r < 2,
        0 <= c < 2,
    ensures
        plus(
            times(ideal_entry(first, r, 0), ideal_entry(second, 0, c)),
            times(ideal_entry(first, r, 1), ideal_entry(second, 1, c)),
        ) == multiple(2, ideal_entry(third, r, c)),
{
    lemma_times(ideal_entry(first, r, 0), ideal_entry(second, 0, c));
    lemma_times(ideal_entry(first, r, 1), ideal_entry(second, 1, c));
}

/// The gates without angles are roots, squares and inverses of each other as their names say.
pub proof fn law_gates_without_angles_multiply(
    val: spec_fn(Complex64) -> Cyclotomic,
    first: Kind,
    second: Kind,
    third: Kind,
    x: Matrix2,
    y: Matrix2,
    m: Matrix2,
    r: int,
    c: int,
)
    requires
        reads_ideally(val),
        multiplies_to(first, second, third),
        is_fixed_gate(first, x),
        is_fixed_gate(second, y),
        is_fixed_gate(third, m),
        0 <= r < 2,
        0 <= c < 2,
    ensures
        product_entry(val, x, y, r, c) == multiple(2, val(m[r][c])),
{
    lemma_ideal_entry(val, first, x, r, 0);
    lemma_ideal_entry(val, first, x, r, 1);
    lemma_ideal_entry(val, second, y, 0, c);
    lemma_ideal_entry(val, second, y, 1, c);
    lemma_ideal_entry(val, third, m, r, c);
    lemma_ideal_products(first, second, third, r, c);
}

/// An X gate after a Y gate is a Z gate times the imaginary unit, and in the other order its
/// opposite.
pub proof fn law_x_and_y_make_z(
    val: spec_fn(Complex64) -> Cyclotomic,
    x: Matrix2,
    y: Matrix2,
    z: Matrix2,
    r: int,
    c: int,
)
    requires
        reads_ideally(val),
        is_fixed_gate(Kind::X, x),
        is_fixed_gate(Kind::Y, y),
        is_fixed_gate(Kind::Z, z),
        0 <= r < 2,
        0 <= c < 2,
    ensures
        product_entry(val, x, y, r, c) == multiple(2, times_i(val(z[r][c]))),
        product_entry(val, y, x, r, c) == multiple(-2, times_i(val(z[r][c]))),
{
    lemma_small_entries(val, Kind::X, x, c);
    lemma_small_entries(val, Kind::Y, y, c);
    lemma_times(val(x[r][0]), val(y[0][c]));
    lemma_times(val(x[r][1]), val(y[1][c]));
    lemma_times(val(y[r][0]), val(x[0][c]));
    lemma_times(val(y[r][1]), val(x[1][c]));
}

/// Hadamard gates on either side turn a Z gate into an X gate, and its root into the root of the
/// X gate.
#[verifier::rlimit(60)]
pub proof fn law_hadamard_gates_turn_z_into_x(
    val: spec_fn(Complex64) -> Cyclotomic,
    h: Matrix2,
    inner: Kind,
    outer: Kind,
    x: Matrix2,
    m: Matrix2,
    r: int,
    c: int,
)
    requires
        reads_ideally(val),
        is_fixed_gate(Kind::H, h),
        inner is Z && outer is X || inner is X && outer is Z || inner is S && outer is Sx || inner
            is Sdg && outer is Sxdg,
        is_fixed_gate(inner, x),
        is_fixed_gate(outer, m),
        0 <= r < 2,
        0 <= c < 2,
    ensures
        plus(
            times(product_entry(val, h, x, r, 0), val(h[0][c])),
            times(product_entry(val, h, x, r, 1), val(h[1][c])),
        ) == multiple(4, val(m[r][c])),
{
    lemma_small_entries(val, inner, x, 0);
    lemma_small_entries(val, inner, x, 1);
    lemma_small_entries(val, Kind::H, h, c);
    lemma_times(val(h[r][0]), val(x[0][0]));
    lemma_times(val(h[r][1]), val(x[1][0]));
    lemma_times(val(h[r][0]), val(x[0][1]));
    lemma_times(val(h[r][1]), val(x[1][1]));
    lemma_times(product_entry(val, h, x, r, 0), val(h[0][c]));
    lemma_times(product_entry(val, h, x, r, 1), val(h[1][c]));
}

} // verus!
