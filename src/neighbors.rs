//! Counting fully alive neighbors under toroidal wrap, and how a change of one
//! cell moves those counts.
use crate::rule::NeighborMethod;
use crate::space::{
    coord_of,
    in_cube,
    index_of,
    lemma_coord_of_index,
    lemma_index_in_range,
    lemma_index_of_coord,
    lemma_wrap_shift,
    wrap_axis,
};
use vstd::arithmetic::div_mod::{lemma_fundamental_div_mod, lemma_mod_bound};
use vstd::prelude::*;

verus! {

/// The flat index of the cell reached from cell `i` by offset `k` of `m`, wrapping around the cube.
#[verifier::opaque]
pub open spec fn neighbor_index(n: int, m: NeighborMethod, i: int, k: int) -> int {
    let p = coord_of(n, i);
    let o = m.offset_spec(k);
    index_of(n, wrap_axis(n, p.0 + o.0), wrap_axis(n, p.1 + o.1), wrap_axis(n, p.2 + o.2))
}

/// How many of the first `k` offsets of cell `i` lead to a cell in state `top`.
pub open spec fn live_prefix(values: Seq<u8>, n: int, m: NeighborMethod, top: u8, i: int, k: int) -> nat
    decreases k,
{
    if k <= 0 {
        0
    } else {
        live_prefix(values, n, m, top, i, k - 1) + if values[neighbor_index(n, m, i, k - 1)]
            == top {
            1nat
        } else {
            0nat
        }
    }
}

/// How many neighbors of cell `i` are in state `top`, counting each offset once
/// (on a small lattice two offsets may reach the same cell).
pub open spec fn live_neighbors(values: Seq<u8>, n: int, m: NeighborMethod, top: u8, i: int) -> nat {
    live_prefix(values, n, m, top, i, m.size_spec())
}

/// How many of the first `k` offsets of cell `from` lead to cell `to`.
pub open spec fn hits(n: int, m: NeighborMethod, from: int, to: int, k: int) -> nat
    decreases k,
{
    if k <= 0 {
        0
    } else {
        hits(n, m, from, to, k - 1) + if neighbor_index(n, m, from, k - 1) == to {
            1nat
        } else {
            0nat
        }
    }
}

/// Every cell's cached count equals the number of its neighbors in state `top`.
pub open spec fn counts_match(n: int, values: Seq<u8>, counts: Seq<u8>, m: NeighborMethod, top: u8) -> bool {
    &&& counts.len() == values.len()
    &&& forall|i: int|
        0 <= i < values.len() ==> #[trigger] counts[i] == live_neighbors(values, n, m, top, i)
}

/// A neighbor of a cell of the cube lies in the cube.
pub proof fn lemma_neighbor_in_range(n: int, m: NeighborMethod, i: int, k: int)
    requires
        n > 0,
        0 <= i < n * n * n,
    ensures
        0 <= neighbor_index(n, m, i, k) < n * n * n,
{
    reveal(neighbor_index);
    let p = coord_of(n, i);
    let o = m.offset_spec(k);
    lemma_mod_bound(p.0 + o.0, n);
    lemma_mod_bound(p.1 + o.1, n);
    lemma_mod_bound(p.2 + o.2, n);
    lemma_index_in_range(
        n,
        wrap_axis(n, p.0 + o.0),
        wrap_axis(n, p.1 + o.1),
        wrap_axis(n, p.2 + o.2),
    );
}

/// Offset `k` leads from `c` to `s` exactly when the opposite offset leads from `s` to `c`.
pub proof fn lemma_neighbor_symmetric(n: int, m: NeighborMethod, c: int, s: int, k: int)
    requires
        n > 0,
        0 <= c < n * n * n,
        0 <= s < n * n * n,
        0 <= k < m.size_spec(),
    ensures
        (neighbor_index(n, m, c, k) == s) == (neighbor_index(n, m, s, m.mirror(k)) == c),
{
    reveal(neighbor_index);
    m.lemma_mirror(k);
    let pc = coord_of(n, c);
    let ps = coord_of(n, s);
    let o = m.offset_spec(k);
    let q = m.offset_spec(m.mirror(k));
    lemma_index_of_coord(n, c);
    lemma_index_of_coord(n, s);
    lemma_mod_bound(pc.0 + o.0, n);
    lemma_mod_bound(pc.1 + o.1, n);
    lemma_mod_bound(pc.2 + o.2, n);
    lemma_mod_bound(ps.0 + q.0, n);
    lemma_mod_bound(ps.1 + q.1, n);
    lemma_mod_bound(ps.2 + q.2, n);
    let w = (wrap_axis(n, pc.0 + o.0), wrap_axis(n, pc.1 + o.1), wrap_axis(n, pc.2 + o.2));
    let v = (wrap_axis(n, ps.0 + q.0), wrap_axis(n, ps.1 + q.1), wrap_axis(n, ps.2 + q.2));
    lemma_coord_of_index(n, w.0, w.1, w.2);
    lemma_coord_of_index(n, v.0, v.1, v.2);
    lemma_wrap_shift(n, pc.0, ps.0, o.0);
    lemma_wrap_shift(n, pc.1, ps.1, o.1);
    lemma_wrap_shift(n, pc.2, ps.2, o.2);
    assert(ps.0 + q.0 == ps.0 - o.0);
    assert(ps.1 + q.1 == ps.1 - o.1);
    assert(ps.2 + q.2 == ps.2 - o.2);
}

/// How many of the offsets `lo..hi` of cell `from` lead to cell `to`.
pub open spec fn hits_between(n: int, m: NeighborMethod, from: int, to: int, lo: int, hi: int) -> nat
    decreases hi - lo,
{
    if lo >= hi {
        0
    } else {
        (if neighbor_index(n, m, from, lo) == to {
            1nat
        } else {
            0nat
        }) + hits_between(n, m, from, to, lo + 1, hi)
    }
}

proof fn lemma_hits_between(n: int, m: NeighborMethod, from: int, to: int, lo: int, hi: int)
    requires
        0 <= lo <= hi,
    ensures
        hits_between(n, m, from, to, lo, hi) + hits(n, m, from, to, lo) == hits(
            n,
            m,
            from,
            to,
            hi,
        ),
    decreases hi - lo,
{
    if lo < hi {
        lemma_hits_between(n, m, from, to, lo + 1, hi);
    }
}

/// Reading the Moore offsets of `c` forwards meets `s` as often as reading those
/// of `s` backwards meets `c`.
proof fn lemma_hits_reversed(n: int, c: int, s: int, k: int)
    requires
        n > 0,
        0 <= c < n * n * n,
        0 <= s < n * n * n,
        0 <= k <= 26,
    ensures
        hits(n, NeighborMethod::Moore, c, s, k) == hits_between(
            n,
            NeighborMethod::Moore,
            s,
            c,
            26 - k,
            26,
        ),
    decreases k,
{
    if k > 0 {
        lemma_hits_reversed(n, c, s, k - 1);
        lemma_neighbor_symmetric(n, NeighborMethod::Moore, c, s, k - 1);
    }
}

/// As many offsets lead from `c` to `s` as lead from `s` to `c`.
pub proof fn lemma_hits_symmetric(n: int, m: NeighborMethod, c: int, s: int)
    requires
        n > 0,
        0 <= c < n * n * n,
        0 <= s < n * n * n,
    ensures
        hits(n, m, c, s, m.size_spec()) == hits(n, m, s, c, m.size_spec()),
{
    match m {
        NeighborMethod::Moore => {
            lemma_hits_reversed(n, c, s, 26);
            lemma_hits_between(n, m, s, c, 0, 26);
        },
        NeighborMethod::VonNeumann => {
            assert forall|k: int| 0 <= k < 6 implies (#[trigger] neighbor_index(n, m, c, k) == s)
                == (neighbor_index(n, m, s, m.mirror(k)) == c) by {
                lemma_neighbor_symmetric(n, m, c, s, k);
            }
            reveal_with_fuel(hits, 7);
        },
    }
}

/// The hits among the first `j` offsets are at most those among the first `k`, and at most `j`.
pub proof fn lemma_hits_monotone(n: int, m: NeighborMethod, from: int, to: int, j: int, k: int)
    requires
        0 <= j <= k,
    ensures
        hits(n, m, from, to, j) <= hits(n, m, from, to, k),
        hits(n, m, from, to, j) <= j,
    decreases k,
{
    if j < k {
        lemma_hits_monotone(n, m, from, to, j, k - 1);
    } else if j > 0 {
        lemma_hits_monotone(n, m, from, to, j - 1, j - 1);
    }
}

/// At most `k` of the first `k` offsets lead to a cell in state `top`.
pub proof fn lemma_live_prefix_bound(values: Seq<u8>, n: int, m: NeighborMethod, top: u8, i: int, k: int)
    requires
        0 <= k,
    ensures
        live_prefix(values, n, m, top, i, k) <= k,
    decreases k,
{
    if k > 0 {
        lemma_live_prefix_bound(values, n, m, top, i, k - 1);
    }
}

/// Counts depend only on which cells are in state `top`.
pub proof fn lemma_live_prefix_same(
    a: Seq<u8>,
    b: Seq<u8>,
    n: int,
    m: NeighborMethod,
    top: u8,
    i: int,
    k: int,
)
    requires
        n > 0,
        a.len() == n * n * n,
        b.len() == a.len(),
        0 <= i < a.len(),
        forall|j: int| 0 <= j < a.len() ==> (#[trigger] a[j] == top) == (b[j] == top),
    ensures
        live_prefix(a, n, m, top, i, k) == live_prefix(b, n, m, top, i, k),
    decreases k,
{
    if k > 0 {
        lemma_live_prefix_same(a, b, n, m, top, i, k - 1);
        lemma_neighbor_in_range(n, m, i, k - 1);
    }
}

/// When cell `s` alone enters or leaves state `top`, the count of every cell `c`
/// moves by the number of offsets that lead from `c` to `s`.
pub proof fn lemma_live_prefix_change(
    a: Seq<u8>,
    b: Seq<u8>,
    n: int,
    m: NeighborMethod,
    top: u8,
    s: int,
    c: int,
    k: int,
)
    requires
        n > 0,
        a.len() == n * n * n,
        b.len() == a.len(),
        0 <= s < a.len(),
        0 <= c < a.len(),
        forall|j: int| 0 <= j < a.len() && j != s ==> (#[trigger] a[j] == top) == (b[j] == top),
        (a[s] == top) != (b[s] == top),
    ensures
        b[s] == top ==> live_prefix(b, n, m, top, c, k) == live_prefix(a, n, m, top, c, k) + hits(
            n,
            m,
            c,
            s,
            k,
        ),
        a[s] == top ==> live_prefix(a, n, m, top, c, k) == live_prefix(b, n, m, top, c, k) + hits(
            n,
            m,
            c,
            s,
            k,
        ),
    decreases k,
{
    if k > 0 {
        lemma_live_prefix_change(a, b, n, m, top, s, c, k - 1);
        lemma_neighbor_in_range(n, m, c, k - 1);
    }
}

/// Where no cell is in state `top`, every count is zero.
pub proof fn lemma_live_prefix_none(values: Seq<u8>, n: int, m: NeighborMethod, top: u8, i: int, k: int)
    requires
        n > 0,
        values.len() == n * n * n,
        0 <= i < values.len(),
        forall|j: int| 0 <= j < values.len() ==> #[trigger] values[j] != top,
    ensures
        live_prefix(values, n, m, top, i, k) == 0,
    decreases k,
{
    if k > 0 {
        lemma_live_prefix_none(values, n, m, top, i, k - 1);
        lemma_neighbor_in_range(n, m, i, k - 1);
    }
}

/// On an edge of at least 3, two shifts in `-1..=1` of the same point wrap to
/// the same place only when they are equal.
proof fn lemma_wrap_step_injective(n: int, p: int, o1: int, o2: int)
    requires
        n >= 3,
        -1 <= o1 <= 1,
        -1 <= o2 <= 1,
        wrap_axis(n, p + o1) == wrap_axis(n, p + o2),
    ensures
        o1 == o2,
{
    lemma_fundamental_div_mod(p + o1, n);
    lemma_fundamental_div_mod(p + o2, n);
    let q1 = (p + o1) / n;
    let q2 = (p + o2) / n;
    assert(o1 - o2 == n * (q1 - q2)) by (nonlinear_arith)
        requires
            p + o1 == n * q1 + wrap_axis(n, p + o1),
            p + o2 == n * q2 + wrap_axis(n, p + o2),
            wrap_axis(n, p + o1) == wrap_axis(n, p + o2),
    ;
    assert(q1 == q2) by (nonlinear_arith)
        requires
            o1 - o2 == n * (q1 - q2),
            n >= 3,
            -2 <= o1 - o2 <= 2,
    ;
}

/// On an edge of at least 3, distinct offsets of a cell reach distinct cells.
pub proof fn lemma_neighbors_distinct(n: int, m: NeighborMethod, c: int, k1: int, k2: int)
    requires
        n >= 3,
        0 <= c < n * n * n,
        0 <= k1 < m.size_spec(),
        0 <= k2 < m.size_spec(),
        neighbor_index(n, m, c, k1) == neighbor_index(n, m, c, k2),
    ensures
        k1 == k2,
{
    reveal(neighbor_index);
    let p = coord_of(n, c);
    let o1 = m.offset_spec(k1);
    let o2 = m.offset_spec(k2);
    lemma_index_of_coord(n, c);
    lemma_mod_bound(p.0 + o1.0, n);
    lemma_mod_bound(p.1 + o1.1, n);
    lemma_mod_bound(p.2 + o1.2, n);
    lemma_mod_bound(p.0 + o2.0, n);
    lemma_mod_bound(p.1 + o2.1, n);
    lemma_mod_bound(p.2 + o2.2, n);
    lemma_coord_of_index(n, wrap_axis(n, p.0 + o1.0), wrap_axis(n, p.1 + o1.1), wrap_axis(n, p.2 + o1.2));
    lemma_coord_of_index(n, wrap_axis(n, p.0 + o2.0), wrap_axis(n, p.1 + o2.1), wrap_axis(n, p.2 + o2.2));
    lemma_wrap_step_injective(n, p.0, o1.0, o2.0);
    lemma_wrap_step_injective(n, p.1, o1.1, o2.1);
    lemma_wrap_step_injective(n, p.2, o1.2, o2.2);
}

proof fn lemma_hits_single(n: int, m: NeighborMethod, c: int, s: int, k0: int, k: int)
    requires
        0 <= k0 < m.size_spec(),
        0 <= k <= m.size_spec(),
        neighbor_index(n, m, c, k0) == s,
        forall|j: int| 0 <= j < m.size_spec() && j != k0 ==> #[trigger] neighbor_index(n, m, c, j) != s,
    ensures
        hits(n, m, c, s, k) == if k0 < k {
            1nat
        } else {
            0nat
        },
    decreases k,
{
    if k > 0 {
        lemma_hits_single(n, m, c, s, k0, k - 1);
    }
}

/// On an edge of at least 3, when cell `c` alone leaves the top state and no
/// cell enters it, each cell that an offset of `c` reaches has exactly one
/// fewer neighbor in the top state.
pub proof fn lemma_isolated_departure(
    a: Seq<u8>,
    b: Seq<u8>,
    n: int,
    m: NeighborMethod,
    top: u8,
    c: int,
    k: int,
)
    requires
        n >= 3,
        a.len() == n * n * n,
        b.len() == a.len(),
        0 <= c < a.len(),
        0 <= k < m.size_spec(),
        a[c] == top,
        b[c] != top,
        forall|i: int| 0 <= i < a.len() && i != c ==> (#[trigger] a[i] == top) == (b[i] == top),
    ensures
        live_neighbors(b, n, m, top, neighbor_index(n, m, c, k)) + 1 == live_neighbors(
            a,
            n,
            m,
            top,
            neighbor_index(n, m, c, k),
        ),
{
    let s = neighbor_index(n, m, c, k);
    lemma_neighbor_in_range(n, m, c, k);
    assert forall|j: int| 0 <= j < m.size_spec() && j != k implies #[trigger] neighbor_index(
        n,
        m,
        c,
        j,
    ) != s by {
        if neighbor_index(n, m, c, j) == s {
            lemma_neighbors_distinct(n, m, c, j, k);
        }
    }
    lemma_hits_single(n, m, c, s, k, m.size_spec());
    lemma_hits_symmetric(n, m, s, c);
    lemma_live_prefix_change(a, b, n, m, top, c, s, m.size_spec());
}

/// Where no offset of `c` reaches `s`, no hit is counted.
pub proof fn lemma_hits_none(n: int, m: NeighborMethod, c: int, s: int, k: int)
    requires
        k <= m.size_spec(),
        forall|j: int| 0 <= j < m.size_spec() ==> #[trigger] neighbor_index(n, m, c, j) != s,
    ensures
        hits(n, m, c, s, k) == 0,
    decreases k,
{
    if k > 0 {
        lemma_hits_none(n, m, c, s, k - 1);
    }
}

/// On an edge of at least 3, at most one offset of `c` reaches any given cell.
pub proof fn lemma_hits_at_most_one(n: int, m: NeighborMethod, c: int, s: int)
    requires
        n >= 3,
        0 <= c < n * n * n,
    ensures
        hits(n, m, c, s, m.size_spec()) <= 1,
{
    if exists|k0: int| 0 <= k0 < m.size_spec() && #[trigger] neighbor_index(n, m, c, k0) == s {
        let k0 = choose|k0: int| 0 <= k0 < m.size_spec() && #[trigger] neighbor_index(n, m, c, k0) == s;
        assert forall|j: int| 0 <= j < m.size_spec() && j != k0 implies #[trigger] neighbor_index(
            n,
            m,
            c,
            j,
        ) != s by {
            if neighbor_index(n, m, c, j) == s {
                lemma_neighbors_distinct(n, m, c, j, k0);
            }
        }
        lemma_hits_single(n, m, c, s, k0, m.size_spec());
    } else {
        lemma_hits_none(n, m, c, s, m.size_spec());
    }
}

/// On an edge of at least 3, no offset leads a cell back to itself.
pub proof fn lemma_not_own_neighbor(n: int, m: NeighborMethod, c: int, k: int)
    requires
        n >= 3,
        0 <= c < n * n * n,
        0 <= k < m.size_spec(),
    ensures
        neighbor_index(n, m, c, k) != c,
{
    reveal(neighbor_index);
    let p = coord_of(n, c);
    let o = m.offset_spec(k);
    lemma_index_of_coord(n, c);
    lemma_mod_bound(p.0 + o.0, n);
    lemma_mod_bound(p.1 + o.1, n);
    lemma_mod_bound(p.2 + o.2, n);
    lemma_coord_of_index(n, wrap_axis(n, p.0 + o.0), wrap_axis(n, p.1 + o.1), wrap_axis(n, p.2 + o.2));
    if neighbor_index(n, m, c, k) == c {
        vstd::arithmetic::div_mod::lemma_small_mod(p.0 as nat, n as nat);
        vstd::arithmetic::div_mod::lemma_small_mod(p.1 as nat, n as nat);
        vstd::arithmetic::div_mod::lemma_small_mod(p.2 as nat, n as nat);
        assert(wrap_axis(n, p.0 + 0) == p.0);
        assert(wrap_axis(n, p.1 + 0) == p.1);
        assert(wrap_axis(n, p.2 + 0) == p.2);
        lemma_wrap_step_injective(n, p.0, o.0, 0);
        lemma_wrap_step_injective(n, p.1, o.1, 0);
        lemma_wrap_step_injective(n, p.2, o.2, 0);
    }
}

/// Where `c` is the only cell in the top state, a cell's count is the number
/// of its offsets that reach `c`.
pub proof fn lemma_live_single(a: Seq<u8>, n: int, m: NeighborMethod, top: u8, c: int, j: int, k: int)
    requires
        n > 0,
        a.len() == n * n * n,
        0 <= c < a.len(),
        0 <= j < a.len(),
        a[c] == top,
        forall|i: int| 0 <= i < a.len() && i != c ==> #[trigger] a[i] != top,
    ensures
        live_prefix(a, n, m, top, j, k) == hits(n, m, j, c, k),
    decreases k,
{
    if k > 0 {
        lemma_live_single(a, n, m, top, c, j, k - 1);
        lemma_neighbor_in_range(n, m, j, k - 1);
    }
}

} // verus!
