use automata3d::grid::{Grid, LiveCell};
use automata3d::rule::{NeighborMethod, Rule};
use automata3d::space::Coord;

fn cells(grid: &Grid) -> usize {
    let n = grid.size() as usize;
    n * n * n
}

/// Counts, from scratch, the neighbors of `index` in state `top`.
fn recount(grid: &Grid, method: NeighborMethod, top: u8, index: usize) -> u8 {
    let p = grid.index_to_pos(index);
    let mut count = 0u8;
    for o in method.get_neighbors() {
        let q = grid.wrap(Coord::new(p.x + o.x, p.y + o.y, p.z + o.z));
        if grid.cell_value(grid.pos_to_index(q)) == top {
            count += 1;
        }
    }
    count
}

fn assert_counts_exact(grid: &Grid, method: NeighborMethod, top: u8) {
    for i in 0..cells(grid) {
        assert_eq!(grid.neighbor_count(i), recount(grid, method, top, i), "cell {}", i);
        assert!(grid.cell_value(i) <= top);
    }
}

fn values(grid: &Grid) -> Vec<u8> {
    (0..cells(grid)).map(|i| grid.cell_value(i)).collect()
}

#[test]
fn index_round_trip() {
    for size in [1, 2, 3, 5] {
        let grid = Grid::new(size);
        for z in 0..size {
            for y in 0..size {
                for x in 0..size {
                    let c = Coord::new(x, y, z);
                    let i = grid.pos_to_index(c);
                    assert_eq!(i, (x + y * size + z * size * size) as usize);
                    assert_eq!(grid.index_to_pos(i), c);
                }
            }
        }
        for i in 0..cells(&grid) {
            assert_eq!(grid.pos_to_index(grid.index_to_pos(i)), i);
        }
    }
}

#[test]
fn wrap_edges() {
    for size in [1, 2, 5, 7] {
        let grid = Grid::new(size);
        assert_eq!(grid.wrap(Coord::new(-1, 0, 0)), Coord::new(size - 1, 0, 0));
        assert_eq!(grid.wrap(Coord::new(size, 0, 0)), Coord::new(0, 0, 0));
        assert_eq!(grid.wrap(Coord::new(0, -1, size)), Coord::new(0, size - 1, 0));
    }
}

#[test]
fn wrap_far_values() {
    let grid = Grid::new(5);
    assert_eq!(grid.wrap(Coord::new(-13, 13, -5)), Coord::new(2, 3, 0));
    assert_eq!(grid.wrap(Coord::new(i32::MIN, i32::MAX, -1_000_000)), Coord::new(2, 2, 0));
}

#[test]
fn new_lattice_is_dead_with_zero_counts() {
    let grid = Grid::new(4);
    assert_eq!(grid.size(), 4);
    for i in 0..cells(&grid) {
        assert_eq!(grid.cell_value(i), 0);
        assert_eq!(grid.neighbor_count(i), 0);
    }
    assert_eq!(grid.cell_count(), 0);
    assert!(grid.live_cells().is_empty());
}

#[test]
fn rule_445_empty_lattice_stays_dead() {
    let rule = Rule::rule_445();
    let mut grid = Grid::new(5);
    for _ in 0..20 {
        grid.step(&rule);
        assert_eq!(grid.cell_count(), 0);
        for i in 0..cells(&grid) {
            assert_eq!(grid.cell_value(i), 0);
            assert_eq!(grid.neighbor_count(i), 0);
        }
    }
}

fn isolated_cell_decays(method: NeighborMethod, neighbors: usize) {
    let rule = Rule::new(&[4], &[4], 5, method);
    let mut grid = Grid::new(5);
    grid.seed_cell(&rule, rule.states, Coord::new(2, 2, 2));
    let center = grid.pos_to_index(Coord::new(2, 2, 2));
    let before: Vec<u8> = (0..cells(&grid)).map(|i| grid.neighbor_count(i)).collect();
    assert_eq!(before.iter().filter(|c| **c == 1).count(), neighbors);
    grid.step(&rule);
    assert_eq!(grid.cell_value(center), 4);
    assert_eq!(grid.cell_count(), 1);
    let mut reduced = 0;
    for i in 0..cells(&grid) {
        if before[i] == 1 {
            assert_eq!(grid.neighbor_count(i), 0);
            reduced += 1;
        } else {
            assert_eq!(grid.neighbor_count(i), before[i]);
        }
    }
    assert_eq!(reduced, neighbors);
    assert_counts_exact(&grid, method, rule.states);
}

#[test]
fn isolated_cell_decays_moore() {
    isolated_cell_decays(NeighborMethod::Moore, 26);
}

#[test]
fn isolated_cell_decays_von_neumann() {
    isolated_cell_decays(NeighborMethod::VonNeumann, 6);
}

#[test]
fn decay_trail_runs_down_to_dead() {
    let rule = Rule::brain();
    let mut grid = Grid::new(6);
    grid.seed_cell(&rule, rule.states, Coord::new(1, 1, 1));
    let i = grid.pos_to_index(Coord::new(1, 1, 1));
    let mut seen = vec![grid.cell_value(i)];
    for _ in 0..4 {
        grid.step(&rule);
        seen.push(grid.cell_value(i));
        assert_counts_exact(&grid, rule.neighbor_method, rule.states);
    }
    assert_eq!(seen, vec![3, 2, 1, 0, 0]);
}

#[test]
fn single_cell_births_all_moore_neighbors() {
    let rule = Rule::builder_2();
    let mut grid = Grid::new(7);
    grid.seed_cell(&rule, rule.states, Coord::new(3, 3, 3));
    grid.step(&rule);
    assert_eq!(grid.cell_count(), 27);
    for z in 2..=4 {
        for y in 2..=4 {
            for x in 2..=4 {
                let i = grid.pos_to_index(Coord::new(x, y, z));
                let expected = if (x, y, z) == (3, 3, 3) { 1 } else { 2 };
                assert_eq!(grid.cell_value(i), expected);
            }
        }
    }
    assert_counts_exact(&grid, rule.neighbor_method, rule.states);
}

#[test]
fn step_follows_next_state_rules() {
    let rule = Rule::new(&[1], &[2], 3, NeighborMethod::VonNeumann);
    let mut grid = Grid::new(6);
    for p in [(1, 1, 1), (2, 1, 1), (4, 4, 4)] {
        grid.seed_cell(&rule, rule.states, Coord::new(p.0, p.1, p.2));
    }
    let before = values(&grid);
    let counts: Vec<u8> = (0..cells(&grid)).map(|i| grid.neighbor_count(i)).collect();
    grid.step(&rule);
    for i in 0..cells(&grid) {
        let v = before[i];
        let c = counts[i];
        let expected = if v == 0 {
            if c == 2 { 3 } else { 0 }
        } else if v == 3 && c == 1 {
            3
        } else {
            v - 1
        };
        assert_eq!(grid.cell_value(i), expected, "cell {}", i);
    }
    let a = grid.pos_to_index(Coord::new(1, 1, 1));
    let lone = grid.pos_to_index(Coord::new(4, 4, 4));
    assert_eq!(grid.cell_value(a), 3);
    assert_eq!(grid.cell_value(lone), 2);
    assert_counts_exact(&grid, rule.neighbor_method, rule.states);
}

#[test]
fn counts_stay_exact_over_many_random_steps() {
    let rules = [
        Rule::amoeba(),
        Rule::builder_2(),
        Rule::crystal_growth_1(),
        Rule::clouds_1(),
        Rule::pulse_waves(),
        Rule::fancy_snancy(),
        Rule::from_ranges(0, 2, 1, 2, 4, NeighborMethod::VonNeumann),
        Rule::new(&[0, 1, 3], &[1, 3], 6, NeighborMethod::VonNeumann),
    ];
    for size in [1, 2, 3, 8] {
        for rule in rules.iter() {
            let mut grid = Grid::new(size);
            grid.spawn_center_cluster(rule, rule.states, 2, 40);
            assert_counts_exact(&grid, rule.neighbor_method, rule.states);
            for _ in 0..12 {
                grid.step(rule);
                assert_counts_exact(&grid, rule.neighbor_method, rule.states);
            }
        }
    }
}

#[test]
fn seeding_keeps_counts_exact_with_repeated_hits() {
    let rule = Rule::amoeba();
    let mut grid = Grid::new(6);
    grid.spawn_center_cluster(&rule, rule.states, 0, 10);
    assert_eq!(grid.cell_count(), 1);
    assert_eq!(grid.cell_value(grid.pos_to_index(Coord::new(3, 3, 3))), 5);
    assert_counts_exact(&grid, rule.neighbor_method, rule.states);

    let mut grid = Grid::new(6);
    grid.spawn_center_cluster(&rule, rule.states, 1, 500);
    assert!(grid.cell_count() <= 27);
    assert_counts_exact(&grid, rule.neighbor_method, rule.states);

    let mut grid = Grid::new(4);
    grid.spawn_center_cluster(&rule, rule.states, 9, 300);
    assert_counts_exact(&grid, rule.neighbor_method, rule.states);
}

#[test]
fn seeding_stays_within_the_cluster_and_spreads() {
    let rule = Rule::rule_445();
    let mut grid = Grid::new(12);
    grid.spawn_center_cluster(&rule, rule.states, 3, 300);
    let live = grid.live_cells();
    assert!(live.len() > 1);
    for cell in live.iter() {
        for v in [cell.pos.x, cell.pos.y, cell.pos.z] {
            assert!((3..=9).contains(&v));
        }
        assert_eq!(cell.value, 5);
    }
}

#[test]
fn seed_cell_on_live_cell_changes_nothing() {
    let rule = Rule::rule_445();
    let mut grid = Grid::new(5);
    grid.seed_cell(&rule, 5, Coord::new(0, 0, 0));
    let before = values(&grid);
    let counts: Vec<u8> = (0..cells(&grid)).map(|i| grid.neighbor_count(i)).collect();
    grid.seed_cell(&rule, 5, Coord::new(5, -5, 10));
    assert_eq!(values(&grid), before);
    let after: Vec<u8> = (0..cells(&grid)).map(|i| grid.neighbor_count(i)).collect();
    assert_eq!(after, counts);
}

#[test]
fn tiny_lattice_counts_each_offset() {
    let rule = Rule::rule_445();
    let mut grid = Grid::new(1);
    grid.seed_cell(&rule, 5, Coord::new(7, -3, 0));
    assert_eq!(grid.cell_value(0), 5);
    assert_eq!(grid.neighbor_count(0), 26);

    let vn = Rule::new(&[4], &[4], 5, NeighborMethod::VonNeumann);
    let mut grid = Grid::new(2);
    grid.seed_cell(&vn, 5, Coord::new(0, 0, 0));
    assert_eq!(grid.neighbor_count(grid.pos_to_index(Coord::new(1, 0, 0))), 2);
    assert_eq!(grid.neighbor_count(grid.pos_to_index(Coord::new(0, 0, 0))), 0);
    assert_counts_exact(&grid, NeighborMethod::VonNeumann, 5);
}

#[test]
fn projection_is_deterministic_and_lists_live_cells() {
    let rule = Rule::pyroclastic();
    let mut grid = Grid::new(10);
    grid.spawn_center_cluster(&rule, rule.states, 3, 200);
    grid.step(&rule);
    grid.step(&rule);
    let first = grid.live_cells();
    let second = grid.live_cells();
    assert_eq!(first, second);
    assert_eq!(first.len(), grid.cell_count());
    let mut expected: Vec<LiveCell> = Vec::new();
    for i in 0..cells(&grid) {
        if grid.cell_value(i) > 0 {
            expected.push(LiveCell { pos: grid.index_to_pos(i), value: grid.cell_value(i) });
        }
    }
    assert_eq!(first, expected);
}

#[test]
fn projection_gives_points_and_states() {
    let rule = Rule::brain();
    let mut grid = Grid::new(4);
    grid.seed_cell(&rule, 3, Coord::new(3, 0, 1));
    grid.seed_cell(&rule, 3, Coord::new(1, 2, 0));
    assert_eq!(
        grid.live_cells(),
        vec![
            LiveCell { pos: Coord::new(1, 2, 0), value: 3 },
            LiveCell { pos: Coord::new(3, 0, 1), value: 3 },
        ]
    );
    assert_eq!(grid.cell_count(), 2);
}

#[test]
fn zero_state_rule_leaves_dead_lattice_unchanged() {
    let rule = Rule::new(&[0, 1, 2], &[0, 1, 26], 0, NeighborMethod::Moore);
    let mut grid = Grid::new(4);
    for _ in 0..5 {
        grid.step(&rule);
        assert_eq!(grid.cell_count(), 0);
        for i in 0..cells(&grid) {
            assert_eq!(grid.cell_value(i), 0);
            assert_eq!(grid.neighbor_count(i), 0);
        }
    }
}

#[test]
fn seeding_with_any_amount_leaves_a_live_cell() {
    let rule = Rule::coral();
    for amount in [1usize, 2, 7] {
        let mut grid = Grid::new(9);
        grid.spawn_center_cluster(&rule, rule.states, 2, amount);
        assert!(grid.cell_count() >= 1);
        assert!(grid.cell_count() <= amount);
        assert_counts_exact(&grid, rule.neighbor_method, rule.states);
    }
    let mut grid = Grid::new(9);
    grid.spawn_center_cluster(&rule, rule.states, 2, 0);
    assert_eq!(grid.cell_count(), 0);
}

#[test]
fn seeding_accepts_the_largest_radius() {
    let rule = Rule::builder();
    let mut grid = Grid::new(7);
    grid.spawn_center_cluster(&rule, rule.states, i32::MAX, 60);
    assert!(grid.cell_count() >= 1);
    assert_counts_exact(&grid, rule.neighbor_method, rule.states);
    grid.step(&rule);
    assert_counts_exact(&grid, rule.neighbor_method, rule.states);
}
