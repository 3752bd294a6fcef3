//! Lattice coordinates: the flat index of a point of the cube, its inverse,
//! and toroidal wrapping.
use vstd::arithmetic::div_mod::{
    lemma_mod_multiples_vanish,
    lemma_fundamental_div_mod,
    lemma_fundamental_div_mod_converse,
    lemma_mod_bound,
};
use vstd::prelude::*;

verus! {

/// A point of the integer lattice, or an offset between two points.
#[derive(Clone, Copy, PartialEq, Eq, Debug, Structural)]
pub struct Coord {
    pub x: i32,
    pub y: i32,
    pub z: i32,
}

impl Coord {
    pub fn new(x: i32, y: i32, z: i32) -> (r: Coord)
        ensures
            r == (Coord { x, y, z }),
    {
        Coord { x, y, z }
    }
}

/// Whether `(x, y, z)` lies in the cube `[0, n)^3`.
pub open spec fn in_cube(n: int, x: int, y: int, z: int) -> bool {
    0 <= x < n && 0 <= y < n && 0 <= z < n
}

/// The flat index of `(x, y, z)` in a cube of edge `n`: `x + y*n + z*n*n`.
pub open spec fn index_of(n: int, x: int, y: int, z: int) -> int {
    x + y * n + z * (n * n)
}

/// The point of a cube of edge `n` whose flat index is `i`.
pub open spec fn coord_of(n: int, i: int) -> (int, int, int) {
    (i % n, (i / n) % n, (i / n) / n)
}

/// `v` reduced into `[0, n)`, by true (Euclidean) modulo.
pub open spec fn wrap_axis(n: int, v: int) -> int {
    v % n
}

/// Rust's remainder `v % n`, which takes the sign of `v`.
pub open spec fn trunc_rem(v: int, n: int) -> int {
    if v >= 0 {
        v % n
    } else {
        -((-v) % n)
    }
}

/// The flat index of a point of the cube lies in `[0, n^3)`.
pub proof fn lemma_index_in_range(n: int, x: int, y: int, z: int)
    requires
        in_cube(n, x, y, z),
    ensures
        0 <= index_of(n, x, y, z) < n * n * n,
{
    assert(0 <= x + y * n + z * (n * n) < n * n * n) by (nonlinear_arith)
        requires
            0 <= x < n,
            0 <= y < n,
            0 <= z < n,
    ;
}

/// Index then coordinate gives back the point.
pub proof fn lemma_coord_of_index(n: int, x: int, y: int, z: int)
    requires
        in_cube(n, x, y, z),
    ensures
        coord_of(n, index_of(n, x, y, z)) == (x, y, z),
{
    let i = index_of(n, x, y, z);
    assert(i == (y + z * n) * n + x) by (nonlinear_arith)
        requires
            i == x + y * n + z * (n * n),
    ;
    lemma_fundamental_div_mod_converse(i, n, y + z * n, x);
    lemma_fundamental_div_mod_converse(y + z * n, n, z, y);
}

/// Coordinate then index gives back the index, and the coordinate lies in the cube.
pub proof fn lemma_index_of_coord(n: int, i: int)
    requires
        n > 0,
        0 <= i < n * n * n,
    ensures
        in_cube(n, coord_of(n, i).0, coord_of(n, i).1, coord_of(n, i).2),
        index_of(n, coord_of(n, i).0, coord_of(n, i).1, coord_of(n, i).2) == i,
{
    let q = i / n;
    let r = i % n;
    lemma_fundamental_div_mod(i, n);
    lemma_mod_bound(i, n);
    let qq = q / n;
    let qr = q % n;
    lemma_fundamental_div_mod(q, n);
    lemma_mod_bound(q, n);
    assert(0 <= q) by (nonlinear_arith)
        requires
            i == n * q + r,
            0 <= r < n,
            0 <= i,
    ;
    assert(q < n * n) by (nonlinear_arith)
        requires
            i == n * q + r,
            0 <= r,
            i < n * n * n,
            n > 0,
    ;
    assert(0 <= qq < n) by (nonlinear_arith)
        requires
            q == n * qq + qr,
            0 <= qr < n,
            0 <= q < n * n,
    ;
    assert(i == r + qr * n + qq * (n * n)) by (nonlinear_arith)
        requires
            i == n * q + r,
            q == n * qq + qr,
    ;
}

/// Two points `a` and `b` of `[0, n)` satisfy `a + o = b (mod n)` exactly when
/// `b - o = a (mod n)`.
pub proof fn lemma_wrap_shift(n: int, a: int, b: int, o: int)
    requires
        0 <= a < n,
        0 <= b < n,
    ensures
        (wrap_axis(n, a + o) == b) == (wrap_axis(n, b - o) == a),
{
    lemma_fundamental_div_mod(a + o, n);
    lemma_fundamental_div_mod(b - o, n);
    if wrap_axis(n, a + o) == b {
        let q = (a + o) / n;
        assert(b - o == (-q) * n + a) by (nonlinear_arith)
            requires
                a + o == n * q + b,
        ;
        lemma_fundamental_div_mod_converse(b - o, n, -q, a);
    }
    if wrap_axis(n, b - o) == a {
        let q = (b - o) / n;
        assert(a + o == (-q) * n + b) by (nonlinear_arith)
            requires
                b - o == n * q + a,
        ;
        lemma_fundamental_div_mod_converse(a + o, n, -q, b);
    }
}

/// Adding `n` to Rust's remainder and reducing again gives the true modulo.
pub proof fn lemma_trunc_rem_wrap(v: int, n: int)
    requires
        n > 0,
    ensures
        -n < trunc_rem(v, n) < n,
        0 <= trunc_rem(v, n) + n < 2 * n,
        (trunc_rem(v, n) + n) % n == wrap_axis(n, v),
{
    if v >= 0 {
        let r = v % n;
        lemma_mod_bound(v, n);
        lemma_fundamental_div_mod_converse(r + n, n, 1, r);
    } else {
        let r = (-v) % n;
        let q = (-v) / n;
        lemma_mod_bound(-v, n);
        lemma_fundamental_div_mod(-v, n);
        if r == 0 {
            assert(v == (-q) * n + 0) by (nonlinear_arith)
                requires
                    -v == n * q + r,
                    r == 0,
            ;
            lemma_fundamental_div_mod_converse(v, n, -q, 0);
            lemma_fundamental_div_mod_converse(n, n, 1, 0);
        } else {
            assert(v == (-q - 1) * n + (n - r)) by (nonlinear_arith)
                requires
                    -v == n * q + r,
            ;
            lemma_fundamental_div_mod_converse(v, n, -q - 1, n - r);
            lemma_fundamental_div_mod_converse(n - r, n, 0, n - r);
        }
    }
}

/// Wrapping sends one step below the cube to its last layer and one step past
/// it back to the first, on every edge length.
pub proof fn lemma_wrap_edges(n: int)
    requires
        n > 0,
    ensures
        wrap_axis(n, -1) == n - 1,
        wrap_axis(n, n) == 0,
{
    lemma_fundamental_div_mod_converse(-1, n, -1, n - 1);
    lemma_fundamental_div_mod_converse(n, n, 1, 0);
}

/// Replacing a shift `v` by Rust's remainder `v % n` does not change where
/// `a + v` wraps to.
pub proof fn lemma_trunc_rem_shift(a: int, v: int, n: int)
    requires
        n > 0,
    ensures
        wrap_axis(n, a + trunc_rem(v, n)) == wrap_axis(n, a + v),
{
    if v >= 0 {
        lemma_fundamental_div_mod(v, n);
        let q = v / n;
        assert(a + v == n * q + (a + trunc_rem(v, n)));
        lemma_mod_multiples_vanish(q, a + trunc_rem(v, n), n);
    } else {
        lemma_fundamental_div_mod(-v, n);
        let q = (-v) / n;
        let r = (-v) % n;
        assert(a + v == n * (-q) + (a - r)) by (nonlinear_arith)
            requires
                -v == n * q + r,
        ;
        lemma_mod_multiples_vanish(-q, a + trunc_rem(v, n), n);
    }
}

} // verus!
