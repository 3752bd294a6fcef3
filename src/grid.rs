//! The lattice: a cube of cells with toroidal wrap, each holding its state and
//! a cached count of fully alive neighbors that is kept exact incrementally.
use crate::neighbors::{
    lemma_hits_none,
    lemma_neighbor_in_range,
    lemma_hits_at_most_one,
    lemma_isolated_departure,
    lemma_live_single,
    lemma_not_own_neighbor,
    counts_match,
    hits,
    lemma_hits_monotone,
    lemma_hits_symmetric,
    lemma_live_prefix_bound,
    lemma_live_prefix_change,
    lemma_live_prefix_none,
    lemma_live_prefix_same,
    live_neighbors,
    neighbor_index,
};
use crate::rule::{NeighborMethod, Rule};
use crate::space::{
    coord_of,
    in_cube,
    index_of,
    lemma_index_in_range,
    lemma_index_of_coord,
    lemma_trunc_rem_shift,
    lemma_trunc_rem_wrap,
    trunc_rem,
    wrap_axis,
    Coord,
};
use vstd::arithmetic::div_mod::lemma_mod_bound;
use vstd::prelude::*;

verus! {

/// One cell: its state and the cached count of its fully alive neighbors.
#[derive(Clone, Copy)]
struct Cell {
    value: u8,
    neighbors: u8,
}

impl Cell {
    fn is_dead(self) -> (r: bool)
        ensures
            r == (self.value == 0),
    {
        self.value == 0
    }
}

/// The abstract state of a lattice: its edge length, and each cell's state
/// and cached count, by flat index.
pub ghost struct LatticeView {
    pub size: int,
    pub values: Seq<u8>,
    pub counts: Seq<u8>,
}

/// Edge lengths that the lattice accepts: positive, with a cell count that fits an `i32`.
pub open spec fn valid_size(n: int) -> bool {
    n > 0 && n * n * n <= i32::MAX
}

/// The flat index of the cell that `(x, y, z)` wraps to.
pub open spec fn wrapped_index(n: int, x: int, y: int, z: int) -> int {
    index_of(n, wrap_axis(n, x), wrap_axis(n, y), wrap_axis(n, z))
}

/// The state a cell moves to in one step, from its state and its count of
/// fully alive neighbors before the step: a dead cell is born at the top state
/// when the birth predicate holds; a cell at the top state stays there when the
/// survival predicate holds; every other live cell decays by one.
pub open spec fn next_value(rule: Rule, value: u8, count: u8) -> u8 {
    if value == 0 {
        if rule.birth@.contains(count) {
            rule.states
        } else {
            0
        }
    } else if value == rule.states && rule.survival@.contains(count) {
        value
    } else {
        (value - 1) as u8
    }
}

/// The list holds cell indices in strictly increasing order.
spec fn strictly_increasing(list: Seq<usize>) -> bool {
    forall|t1: int, t2: int| 0 <= t1 < t2 < list.len() ==> list[t1] < list[t2]
}

/// `list` holds, in increasing order, exactly the cells below `bound` that
/// enter state `top` from `a` to `b` (with `entering`), or that leave it.
spec fn records_changes(list: Seq<usize>, a: Seq<u8>, b: Seq<u8>, top: u8, bound: int, entering: bool) -> bool {
    &&& strictly_increasing(list)
    &&& forall|t: int|
        0 <= t < list.len() ==> #[trigger] list[t] < bound && (a[list[t] as int] == top) != entering
            && (b[list[t] as int] == top) == entering
    &&& forall|j: int|
        0 <= j < bound && (a[j] == top) != entering && (#[trigger] b[j] == top) == entering
            ==> list.contains(j as usize)
}

/// Extending a record of changes by one cell: the cell is appended exactly
/// when it changes in the recorded direction.
proof fn lemma_records_step(
    before: Seq<usize>,
    after: Seq<usize>,
    a: Seq<u8>,
    b: Seq<u8>,
    top: u8,
    i: usize,
    entering: bool,
)
    requires
        records_changes(before, a, b, top, i as int, entering),
        i < a.len(),
        after == if (a[i as int] == top) != entering && (b[i as int] == top) == entering {
            before.push(i)
        } else {
            before
        },
    ensures
        records_changes(after, a, b, top, i + 1, entering),
{
    broadcast use vstd::seq_lib::lemma_seq_contains_after_push;

    if after.len() > before.len() {
        assert(after[before.len() as int] == i);
        assert forall|t: int| 0 <= t < before.len() implies after[t] == #[trigger] before[t] by {}
    }
}

/// Whether cell `i` is among those that the points within `radius` of the
/// lattice center, on each axis, wrap to.
pub open spec fn in_cluster(n: int, radius: int, i: int) -> bool {
    exists|dx: int, dy: int, dz: int|
        -radius <= dx <= radius && -radius <= dy <= radius && -radius <= dz <= radius
            && #[trigger] wrapped_index(n, n / 2 + dx, n / 2 + dy, n / 2 + dz) == i
}

/// A live cell as the projection hands it out: its lattice point and its state.
#[derive(Clone, Copy, PartialEq, Eq, Debug, Structural)]
pub struct LiveCell {
    pub pos: Coord,
    pub value: u8,
}

/// The live cells (state above 0) among the first `k` cells, in index order.
pub open spec fn live_cells_prefix(n: int, values: Seq<u8>, k: int) -> Seq<LiveCell>
    decreases k,
{
    if k <= 0 {
        seq![]
    } else {
        let rest = live_cells_prefix(n, values, k - 1);
        if values[k - 1] > 0 {
            let p = coord_of(n, k - 1);
            rest.push(
                LiveCell {
                    pos: Coord { x: p.0 as i32, y: p.1 as i32, z: p.2 as i32 },
                    value: values[k - 1],
                },
            )
        } else {
            rest
        }
    }
}

/// How many of the first `k` cells are alive (state above 0).
pub open spec fn live_total(values: Seq<u8>, k: int) -> nat
    decreases k,
{
    if k <= 0 {
        0
    } else {
        live_total(values, k - 1) + if values[k - 1] > 0 {
            1nat
        } else {
            0nat
        }
    }
}

/// Relies on `rand::rng` and `rand::Rng::random_range`: a value drawn from the
/// inclusive range `-radius..=radius`, which is not empty when `radius >= 0`.
#[verifier::external_body]
fn random_offset(radius: i32) -> (r: i32)
    requires
        radius >= 0,
    ensures
        -radius <= r <= radius,
{
    rand::Rng::random_range(&mut rand::rng(), -radius..=radius)
}

/// A cubic lattice of cells with toroidal wrap on all three axes.
pub struct Grid {
    cells: Vec<Cell>,
    size: i32,
}

proof fn lemma_valid_size_bounds(n: int)
    requires
        valid_size(n),
    ensures
        n * n <= n * n * n,
        2 * n <= i32::MAX,
{
    assert(n * n <= n * n * n && (n == 1 || 2 * n <= n * n * n)) by (nonlinear_arith)
        requires
            n >= 1,
    ;
}

impl View for Grid {
    type V = LatticeView;

    closed spec fn view(&self) -> LatticeView {
        LatticeView {
            size: self.size as int,
            values: self.cells@.map_values(|c: Cell| c.value),
            counts: self.cells@.map_values(|c: Cell| c.neighbors),
        }
    }
}

impl Grid {
    /// The lattice has a valid edge length and one cell per point of the cube.
    pub open spec fn wf(&self) -> bool {
        &&& valid_size(self@.size)
        &&& self@.values.len() == self@.size * self@.size * self@.size
        &&& self@.counts.len() == self@.values.len()
    }

    /// Every state lies in `0..=top`, and every cached count equals the number
    /// of neighbors (under shape `m`) in state `top`.
    pub open spec fn consistent(&self, top: u8, m: NeighborMethod) -> bool {
        &&& self.wf()
        &&& top >= 1
        &&& forall|i: int| 0 <= i < self@.values.len() ==> #[trigger] self@.values[i] <= top
        &&& counts_match(self@.size, self@.values, self@.counts, m, top)
    }

    proof fn lemma_view(&self)
        ensures
            self@.values.len() == self.cells.len(),
            self@.counts.len() == self.cells.len(),
            forall|i: int|
                0 <= i < self.cells.len() ==> #[trigger] self@.values[i] == self.cells[i].value,
            forall|i: int|
                0 <= i < self.cells.len() ==> #[trigger] self@.counts[i] == self.cells[i].neighbors,
    {
    }

    /// An all-dead lattice of edge `size`: every state and every count is zero.
    pub fn new(size: i32) -> (r: Self)
        requires
            valid_size(size as int),
        ensures
            r.wf(),
            r@.size == size,
            forall|i: int| 0 <= i < r@.values.len() ==> #[trigger] r@.values[i] == 0 && r@.counts[i]
                == 0,
            forall|top: u8, m: NeighborMethod| top >= 1 ==> #[trigger] r.consistent(top, m),
    {
        proof {
            lemma_valid_size_bounds(size as int);
        }
        let total = (size * size * size) as usize;
        let mut cells: Vec<Cell> = Vec::new();
        let mut i: usize = 0;
        while i < total
            invariant
                i <= total,
                cells.len() == i,
                forall|j: int| 0 <= j < i ==> #[trigger] cells[j] == (Cell { value: 0, neighbors: 0 }),
            decreases total - i,
        {
            cells.push(Cell { value: 0, neighbors: 0 });
            i = i + 1;
        }
        let r = Grid { cells, size };
        proof {
            r.lemma_view();
            assert forall|top: u8, m: NeighborMethod| top >= 1 implies #[trigger] r.consistent(
                top,
                m,
            ) by {
                assert forall|i: int| 0 <= i < r@.values.len() implies #[trigger] r@.counts[i]
                    == live_neighbors(r@.values, size as int, m, top, i) by {
                    lemma_live_prefix_none(r@.values, size as int, m, top, i, m.size_spec());
                }
            }
        }
        r
    }

    /// The edge length.
    pub fn size(&self) -> (r: i32)
        ensures
            r == self@.size,
    {
        self.size
    }

    /// The state of the cell at flat index `index`.
    pub fn cell_value(&self, index: usize) -> (r: u8)
        requires
            index < self@.values.len(),
        ensures
            r == self@.values[index as int],
    {
        self.cells[index].value
    }

    /// The cached count of fully alive neighbors of the cell at flat index `index`.
    pub fn neighbor_count(&self, index: usize) -> (r: u8)
        requires
            index < self@.counts.len(),
        ensures
            r == self@.counts[index as int],
    {
        self.cells[index].neighbors
    }

    /// The flat index `x + y*size + z*size*size` of a point of the cube.
    pub fn pos_to_index(&self, pos: Coord) -> (r: usize)
        requires
            self.wf(),
            in_cube(self@.size, pos.x as int, pos.y as int, pos.z as int),
        ensures
            r == index_of(self@.size, pos.x as int, pos.y as int, pos.z as int),
            r < self@.values.len(),
    {
        let n = self.size as usize;
        let x = pos.x as usize;
        let y = pos.y as usize;
        let z = pos.z as usize;
        proof {
            lemma_index_in_range(n as int, x as int, y as int, z as int);
            assert(y * n <= n * n * n && z * n <= n * n * n && z * n * n <= n * n * n && z * n * n
                == z * (n * n)) by (nonlinear_arith)
                requires
                    0 <= y < n,
                    0 <= z < n,
            ;
        }
        x + y * n + z * n * n
    }

    /// The point of the cube whose flat index is `index`.
    pub fn index_to_pos(&self, index: usize) -> (r: Coord)
        requires
            self.wf(),
            index < self@.values.len(),
        ensures
            (r.x as int, r.y as int, r.z as int) == coord_of(self@.size, index as int),
            in_cube(self@.size, r.x as int, r.y as int, r.z as int),
    {
        let n = self.size;
        let i = index as i32;
        proof {
            lemma_index_of_coord(n as int, index as int);
            lemma_mod_bound(i / n, n as int);
            assert(0 <= i / n);
        }
        Coord { x: i % n, y: i / n % n, z: i / n / n }
    }

    /// Reduces each axis into `[0, size)` by true modulo, so that negative
    /// coordinates wrap to the far side.
    pub fn wrap(&self, pos: Coord) -> (r: Coord)
        requires
            self.wf(),
        ensures
            r.x == wrap_axis(self@.size, pos.x as int),
            r.y == wrap_axis(self@.size, pos.y as int),
            r.z == wrap_axis(self@.size, pos.z as int),
            in_cube(self@.size, r.x as int, r.y as int, r.z as int),
    {
        let n = self.size;
        proof {
            lemma_valid_size_bounds(n as int);
            lemma_trunc_rem_wrap(pos.x as int, n as int);
            lemma_trunc_rem_wrap(pos.y as int, n as int);
            lemma_trunc_rem_wrap(pos.z as int, n as int);
            lemma_mod_bound(pos.x as int, n as int);
            lemma_mod_bound(pos.y as int, n as int);
            lemma_mod_bound(pos.z as int, n as int);
        }
        Coord { x: ((pos.x % n) + n) % n, y: ((pos.y % n) + n) % n, z: ((pos.z % n) + n) % n }
    }

    /// Adds one to (or, with `increment` false, takes one from) the cached count
    /// of each neighbor of cell `index`, once for every offset that reaches it.
    fn update_neighbors(&mut self, rule: &Rule, index: usize, increment: bool)
        requires
            old(self).wf(),
            index < old(self)@.values.len(),
            increment ==> forall|c: int|
                0 <= c < old(self)@.counts.len() ==> #[trigger] old(self)@.counts[c] <= 26,
            !increment ==> forall|c: int|
                0 <= c < old(self)@.counts.len() ==> hits(
                    old(self)@.size,
                    rule.neighbor_method,
                    index as int,
                    c,
                    rule.neighbor_method.size_spec(),
                ) <= #[trigger] old(self)@.counts[c],
        ensures
            final(self).wf(),
            final(self)@.size == old(self)@.size,
            final(self)@.values == old(self)@.values,
            forall|c: int|
                0 <= c < old(self)@.counts.len() ==> #[trigger] final(self)@.counts[c] == if increment {
                    old(self)@.counts[c] + hits(
                        old(self)@.size,
                        rule.neighbor_method,
                        index as int,
                        c,
                        rule.neighbor_method.size_spec(),
                    )
                } else {
                    old(self)@.counts[c] - hits(
                        old(self)@.size,
                        rule.neighbor_method,
                        index as int,
                        c,
                        rule.neighbor_method.size_spec(),
                    )
                },
    {
        let ghost n = self@.size;
        let ghost start = self@.counts;
        let m = rule.neighbor_method;
        let pos = self.index_to_pos(index);
        let count = m.max_neighbors() as usize;
        proof {
            lemma_valid_size_bounds(n);
        }
        let mut k: usize = 0;
        while k < count
            invariant
                self.wf(),
                self@.size == n,
                n == old(self)@.size,
                2 * n <= i32::MAX,
                self@.values == old(self)@.values,
                start == old(self)@.counts,
                index < self@.values.len(),
                (pos.x as int, pos.y as int, pos.z as int) == coord_of(n, index as int),
                in_cube(n, pos.x as int, pos.y as int, pos.z as int),
                count == m.size_spec(),
                m == rule.neighbor_method,
                k <= count,
                increment ==> forall|c: int|
                    0 <= c < start.len() ==> #[trigger] start[c] <= 26,
                !increment ==> forall|c: int|
                    0 <= c < start.len() ==> hits(n, m, index as int, c, m.size_spec())
                        <= #[trigger] start[c],
                forall|c: int|
                    0 <= c < start.len() ==> #[trigger] self@.counts[c] == if increment {
                        start[c] + hits(n, m, index as int, c, k as int)
                    } else {
                        start[c] - hits(n, m, index as int, c, k as int)
                    },
            decreases count - k,
        {
            let off = m.offset(k);
            let target = self.wrap(Coord { x: pos.x + off.x, y: pos.y + off.y, z: pos.z + off.z });
            let ni = self.pos_to_index(target);
            let ghost before = self@.counts;
            proof {
                reveal(neighbor_index);
                assert(ni == neighbor_index(n, m, index as int, k as int));
                lemma_hits_monotone(n, m, index as int, ni as int, k as int, k as int);
                lemma_hits_monotone(n, m, index as int, ni as int, k + 1, m.size_spec());
                self.lemma_view();
                assert(before[ni as int] == if increment {
                    start[ni as int] + hits(n, m, index as int, ni as int, k as int)
                } else {
                    start[ni as int] - hits(n, m, index as int, ni as int, k as int)
                });
            }
            let mut cell = self.cells[ni];
            if increment {
                cell.neighbors = cell.neighbors + 1;
            } else {
                cell.neighbors = cell.neighbors - 1;
            }
            self.cells.set(ni, cell);
            proof {
                self.lemma_view();
                assert(self@.values =~= old(self)@.values);
                assert forall|c: int| 0 <= c < start.len() implies #[trigger] self@.counts[c]
                    == if increment {
                    start[c] + hits(n, m, index as int, c, k + 1)
                } else {
                    start[c] - hits(n, m, index as int, c, k + 1)
                } by {
                    assert(hits(n, m, index as int, c, k + 1) == hits(n, m, index as int, c, k as int)
                        + if neighbor_index(n, m, index as int, k as int) == c {
                        1nat
                    } else {
                        0nat
                    });
                    assert(before[c] == if increment {
                        start[c] + hits(n, m, index as int, c, k as int)
                    } else {
                        start[c] - hits(n, m, index as int, c, k as int)
                    });
                }
            }
            k = k + 1;
        }
    }

    /// Brings the cell that `pos` wraps to into state `max_state`, unless it is
    /// already alive, and counts it in its neighbors' cached counts.
    pub fn seed_cell(&mut self, rule: &Rule, max_state: u8, pos: Coord)
        requires
            old(self).consistent(max_state, rule.neighbor_method),
        ensures
            final(self).consistent(max_state, rule.neighbor_method),
            final(self)@.size == old(self)@.size,
            ({
                let i = wrapped_index(old(self)@.size, pos.x as int, pos.y as int, pos.z as int);
                final(self)@.values == if old(self)@.values[i] == 0 {
                    old(self)@.values.update(i, max_state)
                } else {
                    old(self)@.values
                }
            }),
    {
        let ghost n = self@.size;
        let ghost m = rule.neighbor_method;
        let wrapped = self.wrap(pos);
        let index = self.pos_to_index(wrapped);
        if self.cells[index].is_dead() {
            let ghost a = self@.values;
            let ghost cnt = self@.counts;
            proof {
                self.lemma_view();
            }
            let mut cell = self.cells[index];
            cell.value = max_state;
            self.cells.set(index, cell);
            let ghost b = self@.values;
            proof {
                self.lemma_view();
                assert(b =~= a.update(index as int, max_state));
                assert(self@.counts =~= cnt);
                assert forall|c: int| 0 <= c < self@.counts.len() implies #[trigger] self@.counts[c]
                    <= 26 by {
                    lemma_live_prefix_bound(a, n, m, max_state, c, m.size_spec());
                }
            }
            self.update_neighbors(rule, index, true);
            proof {
                assert forall|c: int| 0 <= c < b.len() implies #[trigger] self@.counts[c]
                    == live_neighbors(b, n, m, max_state, c) by {
                    lemma_hits_symmetric(n, m, c, index as int);
                    lemma_live_prefix_change(a, b, n, m, max_state, index as int, c, m.size_spec());
                }
            }
        }
    }

    /// First phase of a step: every cell takes its next state, decided from the
    /// counts as they stood before the step. Returns the cells that entered the
    /// top state and those that left it, in index order.
    fn advance_states(&mut self, rule: &Rule) -> (r: (Vec<usize>, Vec<usize>))
        requires
            old(self).consistent(rule.states, rule.neighbor_method),
        ensures
            final(self).wf(),
            final(self)@.size == old(self)@.size,
            final(self)@.counts == old(self)@.counts,
            final(self)@.values.len() == old(self)@.values.len(),
            forall|i: int|
                0 <= i < old(self)@.values.len() ==> #[trigger] final(self)@.values[i] == next_value(
                    *rule,
                    old(self)@.values[i],
                    old(self)@.counts[i],
                ),
            records_changes(
                r.0@,
                old(self)@.values,
                final(self)@.values,
                rule.states,
                old(self)@.values.len() as int,
                true,
            ),
            records_changes(
                r.1@,
                old(self)@.values,
                final(self)@.values,
                rule.states,
                old(self)@.values.len() as int,
                false,
            ),
    {
        let ghost a = self@.values;
        let ghost cnt = self@.counts;
        let ghost b = Seq::new(a.len(), |j: int| next_value(*rule, a[j], cnt[j]));
        let max_state = rule.states;
        let mut spawns: Vec<usize> = Vec::new();
        let mut deaths: Vec<usize> = Vec::new();
        let len = self.cells.len();
        proof {
            self.lemma_view();
        }
        let mut i: usize = 0;
        while i < len
            invariant
                self.wf(),
                self@.size == old(self)@.size,
                a == old(self)@.values,
                cnt == old(self)@.counts,
                len == a.len(),
                b.len() == len,
                forall|j: int| 0 <= j < len ==> #[trigger] b[j] == next_value(*rule, a[j], cnt[j]),
                forall|j: int| 0 <= j < len ==> #[trigger] a[j] <= max_state,
                max_state == rule.states,
                max_state >= 1,
                i <= len,
                self@.values.len() == len,
                self@.counts == cnt,
                forall|j: int| 0 <= j < i ==> #[trigger] self@.values[j] == b[j],
                forall|j: int| i <= j < len ==> #[trigger] self@.values[j] == a[j],
                records_changes(spawns@, a, b, max_state, i as int, true),
                records_changes(deaths@, a, b, max_state, i as int, false),
            decreases len - i,
        {
            let ghost prev = self@.values;
            let ghost sp0 = spawns@;
            let ghost de0 = deaths@;
            proof {
                self.lemma_view();
                assert(prev[i as int] == a[i as int]);
            }
            let cell = self.cells[i];
            assert(cell.value == a[i as int]);
            assert(cell.neighbors == cnt[i as int]);
            if cell.is_dead() {
                if rule.should_birth(cell.neighbors) {
                    let mut born = cell;
                    born.value = max_state;
                    self.cells.set(i, born);
                    spawns.push(i);
                }
            } else {
                if cell.value < max_state || !rule.should_survive(cell.neighbors) {
                    if cell.value == max_state {
                        deaths.push(i);
                    }
                    let mut decayed = cell;
                    decayed.value = cell.value - 1;
                    self.cells.set(i, decayed);
                }
            }
            proof {
                self.lemma_view();
                assert(self@.values[i as int] == b[i as int]);
                assert(self@.counts =~= cnt);
                assert forall|j: int| 0 <= j < len && j != i implies #[trigger] self@.values[j] == prev[j] by {
                }
                lemma_records_step(sp0, spawns@, a, b, max_state, i, true);
                lemma_records_step(de0, deaths@, a, b, max_state, i, false);
            }
            i = i + 1;
        }
        proof {
            assert(self@.values =~= b);
        }
        (spawns, deaths)
    }

    /// Second phase of a step: counts the listed cells, which now stand as in
    /// `b`, in their neighbors' cached counts (with `increment`), or takes them
    /// out. Before the call the counts match `g`, which differs from `b` only
    /// on the listed cells, and only in whether they are at the top state.
    fn apply_changes(
        &mut self,
        rule: &Rule,
        list: &Vec<usize>,
        increment: bool,
        Ghost(g): Ghost<Seq<u8>>,
        Ghost(b): Ghost<Seq<u8>>,
    ) -> (r: Ghost<Seq<u8>>)
        requires
            old(self).wf(),
            old(self)@.values == b,
            g.len() == b.len(),
            rule.states >= 1,
            counts_match(old(self)@.size, g, old(self)@.counts, rule.neighbor_method, rule.states),
            strictly_increasing(list@),
            forall|t: int|
                0 <= t < list.len() ==> #[trigger] list[t] < b.len() && (g[list[t] as int]
                    == rule.states) != increment && (b[list[t] as int] == rule.states) == increment,
        ensures
            final(self).wf(),
            final(self)@.size == old(self)@.size,
            final(self)@.values == b,
            r@.len() == b.len(),
            counts_match(final(self)@.size, r@, final(self)@.counts, rule.neighbor_method, rule.states),
            forall|j: int|
                0 <= j < b.len() ==> #[trigger] r@[j] == if list@.contains(j as usize) {
                    b[j]
                } else {
                    g[j]
                },
    {
                let ghost n = self@.size;
        let ghost m = rule.neighbor_method;
        let ghost top = rule.states;
        let ghost mut cur = g;
        let mut t: usize = 0;
        while t < list.len()
            invariant
                self.wf(),
                self@.size == n,
                n == old(self)@.size,
                m == rule.neighbor_method,
                top == rule.states,
                top >= 1,
                self@.values == b,
                g.len() == b.len(),
                cur.len() == b.len(),
                t <= list.len(),
                counts_match(n, cur, self@.counts, m, top),
                strictly_increasing(list@),
                forall|u: int|
                    0 <= u < list.len() ==> #[trigger] list[u] < b.len() && (g[list[u] as int]
                        == top) != increment && (b[list[u] as int] == top) == increment,
                forall|j: int|
                    0 <= j < b.len() ==> #[trigger] cur[j] == if list@.subrange(0, t as int).contains(
                        j as usize,
                    ) {
                        b[j]
                    } else {
                        g[j]
                    },
            decreases list.len() - t,
        {
            let s = list[t];
            let ghost next = cur.update(s as int, b[s as int]);
            proof {
                if list@.subrange(0, t as int).contains(s) {
                    let u = choose|u: int| 0 <= u < t && list@.subrange(0, t as int)[u] == s;
                    assert(list[u] == s);
                }
                assert(cur[s as int] == g[s as int]);
                assert forall|c: int| 0 <= c < b.len() implies ({
                    &&& increment ==> #[trigger] self@.counts[c] <= 26
                    &&& !increment ==> hits(n, m, s as int, c, m.size_spec()) <= self@.counts[c]
                    &&& increment ==> live_neighbors(next, n, m, top, c) == live_neighbors(
                        cur,
                        n,
                        m,
                        top,
                        c,
                    ) + hits(n, m, s as int, c, m.size_spec())
                    &&& !increment ==> live_neighbors(cur, n, m, top, c) == live_neighbors(
                        next,
                        n,
                        m,
                        top,
                        c,
                    ) + hits(n, m, s as int, c, m.size_spec())
                }) by {
                    lemma_live_prefix_bound(cur, n, m, top, c, m.size_spec());
                    lemma_hits_symmetric(n, m, c, s as int);
                    lemma_live_prefix_change(cur, next, n, m, top, s as int, c, m.size_spec());
                }
            }
            self.update_neighbors(rule, s, increment);
            proof {
                assert(list@.subrange(0, t + 1) == list@.subrange(0, t as int).push(s));
                assert forall|j: int| 0 <= j < b.len() implies #[trigger] next[j] == if list@.subrange(
                    0,
                    t + 1,
                ).contains(j as usize) {
                    b[j]
                } else {
                    g[j]
                } by {
                    let ju = j as usize;
                    let prefix = list@.subrange(0, t as int);
                    vstd::seq_lib::lemma_seq_contains_after_push(prefix, s, ju);
                    if j != s {
                        assert(cur[j] == next[j]);
                        assert(s != ju);
                    } else {
                        assert(ju == s);
                    }
                }
                cur = next;
            }
            t = t + 1;
        }
        proof {
            assert(list@.subrange(0, list.len() as int) == list@);
        }
        Ghost(cur)
    }

    /// Advances the automaton one generation under `rule`.
    ///
    /// Every cell first takes its next state (see `next_value`), decided from the
    /// cached counts as they stood before the step; then only the cells that
    /// entered or left the top state update their neighbors' counts, which
    /// leaves every count exact again. A rule with no live state (`states == 0`)
    /// is degenerate, not an error: on a dead lattice it changes nothing.
    pub fn step(&mut self, rule: &Rule)
        requires
            old(self).consistent(rule.states, rule.neighbor_method) || (old(self).wf()
                && rule.states == 0 && forall|i: int|
                0 <= i < old(self)@.values.len() ==> #[trigger] old(self)@.values[i] == 0),
        ensures
            old(self).consistent(rule.states, rule.neighbor_method) ==> final(self).consistent(
                rule.states,
                rule.neighbor_method,
            ),
            rule.states == 0 ==> final(self)@ == old(self)@,
            final(self)@.size == old(self)@.size,
            final(self)@.values.len() == old(self)@.values.len(),
            forall|i: int|
                0 <= i < old(self)@.values.len() ==> #[trigger] final(self)@.values[i] == next_value(
                    *rule,
                    old(self)@.values[i],
                    old(self)@.counts[i],
                ),
    {
        if rule.states == 0 {
            // With no live state a dead cell that is "born" stays dead, and
            // there is no live cell to decay: nothing changes.
            return;
        }
        let ghost a = self@.values;
        let ghost n = self@.size;
        let ghost m = rule.neighbor_method;
        let ghost top = rule.states;
        let (spawns, deaths) = self.advance_states(rule);
        let ghost b = self@.values;
        let g1 = self.apply_changes(rule, &spawns, true, Ghost(a), Ghost(b));
        proof {
            assert forall|u: int| 0 <= u < deaths.len() implies #[trigger] deaths[u] < b.len() && (
            g1@[deaths[u] as int] == top) != false && (b[deaths[u] as int] == top) == false by {
                let d = deaths[u];
                if spawns@.contains(d) {
                    let v = choose|v: int| 0 <= v < spawns.len() && spawns[v] == d;
                    assert(spawns[v] == d);
                }
            }
        }
        let g2 = self.apply_changes(rule, &deaths, false, g1, Ghost(b));
        proof {
            assert forall|j: int| 0 <= j < b.len() implies (#[trigger] g2@[j] == top) == (b[j]
                == top) by {
                if !spawns@.contains(j as usize) && !deaths@.contains(j as usize) {
                    assert(g2@[j] == a[j]);
                }
            }
            assert forall|c: int| 0 <= c < b.len() implies #[trigger] self@.counts[c]
                == live_neighbors(b, n, m, top, c) by {
                lemma_live_prefix_same(g2@, b, n, m, top, c, m.size_spec());
            }
        }
    }

    /// Seeds up to `amount` cells at random points within `radius` of the
    /// lattice center on each axis. A point that falls on a live cell is
    /// skipped, so no cell is counted twice.
    pub fn spawn_center_cluster(&mut self, rule: &Rule, max_state: u8, radius: i32, amount: usize)
        requires
            old(self).consistent(max_state, rule.neighbor_method),
            radius >= 0,
        ensures
            final(self).consistent(max_state, rule.neighbor_method),
            final(self)@.size == old(self)@.size,
            final(self)@.values.len() == old(self)@.values.len(),
            forall|i: int|
                0 <= i < old(self)@.values.len() ==> #[trigger] final(self)@.values[i]
                    == old(self)@.values[i] || (old(self)@.values[i] == 0 && final(self)@.values[i]
                    == max_state && in_cluster(old(self)@.size, radius as int, i)),
            amount > 0 ==> exists|i: int|
                0 <= i < final(self)@.values.len() && in_cluster(old(self)@.size, radius as int, i)
                    && #[trigger] final(self)@.values[i] > 0,
    {
        let ghost n = self@.size;
        let ghost start = self@.values;
        let size = self.size;
        let center = size / 2;
        proof {
            lemma_valid_size_bounds(n);
        }
        let mut placed: usize = 0;
        while placed < amount
            invariant
                self.consistent(max_state, rule.neighbor_method),
                self@.size == n,
                n == old(self)@.size,
                start == old(self)@.values,
                size == n,
                center == n / 2,
                2 * n <= i32::MAX,
                radius >= 0,
                self@.values.len() == start.len(),
                placed > 0 ==> exists|i: int|
                    0 <= i < self@.values.len() && in_cluster(n, radius as int, i)
                        && #[trigger] self@.values[i] > 0,
                forall|i: int|
                    0 <= i < start.len() ==> #[trigger] self@.values[i] == start[i] || (start[i] == 0
                        && self@.values[i] == max_state && in_cluster(n, radius as int, i)),
            decreases amount - placed,
        {
            let dx = random_offset(radius);
            let dy = random_offset(radius);
            let dz = random_offset(radius);
            // Reducing each draw by the edge length first keeps the sum in
            // range and does not change the cell it wraps to.
            let pos = Coord { x: center + dx % size, y: center + dy % size, z: center + dz % size };
            let ghost before = self@.values;
            proof {
                lemma_trunc_rem_wrap(dx as int, n);
                lemma_trunc_rem_wrap(dy as int, n);
                lemma_trunc_rem_wrap(dz as int, n);
                lemma_trunc_rem_shift(n / 2, dx as int, n);
                lemma_trunc_rem_shift(n / 2, dy as int, n);
                lemma_trunc_rem_shift(n / 2, dz as int, n);
            }
            self.seed_cell(rule, max_state, pos);
            proof {
                let target = wrapped_index(n, pos.x as int, pos.y as int, pos.z as int);
                lemma_mod_bound(pos.x as int, n);
                lemma_mod_bound(pos.y as int, n);
                lemma_mod_bound(pos.z as int, n);
                lemma_index_in_range(
                    n,
                    wrap_axis(n, pos.x as int),
                    wrap_axis(n, pos.y as int),
                    wrap_axis(n, pos.z as int),
                );
                assert(self@.values == if before[target] == 0 {
                    before.update(target, max_state)
                } else {
                    before
                });
                assert(target == wrapped_index(n, n / 2 + dx, n / 2 + dy, n / 2 + dz));
                assert(in_cluster(n, radius as int, target));
                assert(self@.values[target] > 0);
                assert forall|i: int| 0 <= i < start.len() implies #[trigger] self@.values[i]
                    == start[i] || (start[i] == 0 && self@.values[i] == max_state && in_cluster(
                    n,
                    radius as int,
                    i,
                )) by {
                    if i == target && before[i] == 0 {
                    } else {
                        assert(self@.values[i] == before[i]);
                    }
                }
            }
            placed = placed + 1;
        }
    }

    /// The live cells (state above 0), each with its lattice point and state,
    /// in index order. Renderers turn these into positioned, colored instances.
    pub fn live_cells(&self) -> (r: Vec<LiveCell>)
        requires
            self.wf(),
        ensures
            r@ == live_cells_prefix(self@.size, self@.values, self@.values.len() as int),
    {
        let mut out: Vec<LiveCell> = Vec::new();
        let len = self.cells.len();
        proof {
            self.lemma_view();
        }
        let mut i: usize = 0;
        while i < len
            invariant
                self.wf(),
                len == self@.values.len(),
                i <= len,
                out@ == live_cells_prefix(self@.size, self@.values, i as int),
            decreases len - i,
        {
            proof {
                self.lemma_view();
            }
            let value = self.cells[i].value;
            if value > 0 {
                let pos = self.index_to_pos(i);
                out.push(LiveCell { pos, value });
            }
            i = i + 1;
        }
        out
    }

    /// How many cells are alive (state above 0).
    pub fn cell_count(&self) -> (r: usize)
        requires
            self.wf(),
        ensures
            r == live_total(self@.values, self@.values.len() as int),
    {
        let len = self.cells.len();
        let mut count: usize = 0;
        proof {
            self.lemma_view();
        }
        let mut i: usize = 0;
        while i < len
            invariant
                self.wf(),
                len == self@.values.len(),
                i <= len,
                count == live_total(self@.values, i as int),
                count <= i,
            decreases len - i,
        {
            proof {
                self.lemma_view();
            }
            if !self.cells[i].is_dead() {
                count = count + 1;
            }
            i = i + 1;
        }
        count
    }
}

/// The projection is a function of the lattice alone: two lattices with the
/// same edge length and states give the same live cells, in the same order.
pub proof fn lemma_projection_deterministic(a: LatticeView, b: LatticeView)
    requires
        a.size == b.size,
        a.values == b.values,
    ensures
        live_cells_prefix(a.size, a.values, a.values.len() as int) == live_cells_prefix(
            b.size,
            b.values,
            b.values.len() as int,
        ),
{
}

/// The projection holds one record for each live cell.
pub proof fn lemma_one_record_per_live_cell(n: int, values: Seq<u8>, k: int)
    ensures
        live_cells_prefix(n, values, k).len() == live_total(values, k),
    decreases k,
{
    if k > 0 {
        lemma_one_record_per_live_cell(n, values, k - 1);
    }
}

/// A lone cell at the top state, on an edge of at least 3, under a rule that
/// neither keeps a cell with no neighbors alive nor brings one to life from 0
/// or 1 neighbor: one step (as `Grid::step` states it) decays that cell by one,
/// leaves every other cell dead, and lowers the count of each cell that its
/// offsets reach from exactly 1 to 0.
pub proof fn lemma_isolated_cell_step(rule: Rule, before: LatticeView, after: LatticeView, c: int, k: int)
    requires
        before.size >= 3,
        before.values.len() == before.size * before.size * before.size,
        after.size == before.size,
        after.values.len() == before.values.len(),
        rule.states >= 1,
        counts_match(before.size, before.values, before.counts, rule.neighbor_method, rule.states),
        counts_match(after.size, after.values, after.counts, rule.neighbor_method, rule.states),
        0 <= c < before.values.len(),
        before.values[c] == rule.states,
        forall|i: int| 0 <= i < before.values.len() && i != c ==> #[trigger] before.values[i] == 0,
        !rule.survival@.contains(0),
        !rule.birth@.contains(0),
        !rule.birth@.contains(1),
        forall|i: int|
            0 <= i < before.values.len() ==> #[trigger] after.values[i] == next_value(
                rule,
                before.values[i],
                before.counts[i],
            ),
        0 <= k < rule.neighbor_method.size_spec(),
    ensures
        after.values[c] == rule.states - 1,
        forall|i: int| 0 <= i < after.values.len() && i != c ==> #[trigger] after.values[i] == 0,
        before.counts[neighbor_index(before.size, rule.neighbor_method, c, k)] == 1,
        after.counts[neighbor_index(before.size, rule.neighbor_method, c, k)] == 0,
{
    let n = before.size;
    let m = rule.neighbor_method;
    let top = rule.states;
    let a = before.values;
    let b = after.values;
    assert forall|i: int| 0 <= i < a.len() && i != c implies #[trigger] a[i] != top by {}
    assert forall|j: int| 0 <= j < a.len() implies #[trigger] before.counts[j] <= 1 by {
        lemma_live_single(a, n, m, top, c, j, m.size_spec());
        lemma_hits_symmetric(n, m, j, c);
        lemma_hits_at_most_one(n, m, c, j);
    }
    assert(before.counts[c] == 0) by {
        lemma_live_single(a, n, m, top, c, c, m.size_spec());
        assert forall|j: int| 0 <= j < m.size_spec() implies #[trigger] neighbor_index(n, m, c, j)
            != c by {
            lemma_not_own_neighbor(n, m, c, j);
        }
        lemma_hits_none(n, m, c, c, m.size_spec());
    }
    assert forall|i: int| 0 <= i < b.len() && i != c implies #[trigger] b[i] == 0 by {
        assert(before.counts[i] <= 1);
        assert(a[i] == 0);
    }
    assert(b[c] == top - 1);
    let s = neighbor_index(n, m, c, k);
    lemma_isolated_departure(a, b, n, m, top, c, k);
    lemma_neighbor_in_range(n, m, c, k);
    lemma_live_single(a, n, m, top, c, s, m.size_spec());
    lemma_hits_symmetric(n, m, s, c);
    lemma_hits_at_most_one(n, m, c, s);
}

} // verus!
