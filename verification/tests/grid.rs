use cell_automata::cell::{Cell, CellState};
use cell_automata::color::ColorMethod;
use cell_automata::grid::{AutomatonGrid, Example};
use cell_automata::indexes::Indexes;
use cell_automata::pos::Pos3;
use cell_automata::rule::{NeighbourMethod, Rule};

fn reference_rule() -> Rule {
    Rule {
        survival_rule: Indexes::new(&[2, 6, 9]),
        birth_rule: Indexes::new(&[4, 6, 8, 9, 10]),
        states: 10,
        neighbour_method: NeighbourMethod::Moore,
    }
}

/// Recount every cell's live neighbours from scratch, per offset, under
/// wraparound.
fn brute_force_counts(grid: &AutomatonGrid) -> Vec<u8> {
    let mut counts = Vec::new();
    for idx in 0..grid.cells.len() {
        let pos = grid.idx_to_pos(idx);
        let mut count = 0u8;
        for k in 0..grid.rule.get_max_neighbours() {
            let off = grid.rule.neighbour_method.get_offset(k);
            let npos = grid.wrap(Pos3::new(pos.x + off.x, pos.y + off.y, pos.z + off.z));
            let nidx = grid.pos_to_idx(npos);
            if grid.cells[nidx].state == CellState::Alive {
                count += 1;
            }
        }
        counts.push(count);
    }
    counts
}

fn assert_counts_consistent(grid: &AutomatonGrid) {
    let counts = brute_force_counts(grid);
    for idx in 0..grid.cells.len() {
        assert_eq!(
            grid.cells[idx].neighbours, counts[idx],
            "neighbour counter of cell {} diverged from a brute-force recount",
            idx
        );
    }
}

#[test]
fn grid_idx_to_pos() {
    let mut grid = AutomatonGrid::default();
    grid.set_size(5);

    assert_eq!(grid.idx_to_pos(0), Pos3::new(0, 0, 0));
    assert_eq!(grid.idx_to_pos(10), Pos3::new(0, 2, 0));
    assert_eq!(grid.idx_to_pos(124), Pos3::new(4, 4, 4));
    assert_eq!(grid.idx_to_pos(34), Pos3::new(4, 1, 1));
}

#[test]
fn grid_pos_to_idx() {
    let mut grid = AutomatonGrid::default();
    grid.set_size(5);

    assert_eq!(grid.pos_to_idx(Pos3::new(0, 0, 0)), 0);
    assert_eq!(grid.pos_to_idx(Pos3::new(0, 2, 0)), 10);
    assert_eq!(grid.pos_to_idx(Pos3::new(4, 4, 4)), 124);
    assert_eq!(grid.pos_to_idx(Pos3::new(4, 1, 1)), 34);
}

#[test]
fn wrap() {
    let mut grid = AutomatonGrid::default();
    grid.set_size(5);

    assert_eq!(grid.wrap(Pos3::new(-1, 1, 2)), Pos3::new(4, 1, 2));
    assert_eq!(grid.wrap(Pos3::new(4, 4, 5)), Pos3::new(4, 4, 0));
    assert_eq!(grid.wrap(Pos3::new(4, 1, 1)), Pos3::new(4, 1, 1));
}

/// Position -> index -> position is the identity on every in-range
/// position, and index -> position -> index on every index.
#[test]
fn coordinate_mapping_round_trips() {
    let grid = AutomatonGrid::new_empty(5, reference_rule(), ColorMethod::DistToCenter);
    for x in 0..5 {
        for y in 0..5 {
            for z in 0..5 {
                let p = Pos3::new(x, y, z);
                assert_eq!(grid.idx_to_pos(grid.pos_to_idx(p)), p);
            }
        }
    }
    for idx in 0..125 {
        assert_eq!(grid.pos_to_idx(grid.idx_to_pos(idx)), idx);
    }
}

/// The seeded cluster stays within the seeding radius of the center, and
/// seeding always produces at least one live cell.
#[test]
fn seeding_clusters_near_center() {
    let grid = AutomatonGrid::new(32, reference_rule(), ColorMethod::DistToCenter);
    let mut alive = 0usize;
    for idx in 0..grid.cells.len() {
        if grid.cells[idx].state == CellState::Alive {
            alive += 1;
            let pos = grid.idx_to_pos(idx);
            for c in [pos.x, pos.y, pos.z] {
                assert!(
                    (16 - 6..=16 + 6).contains(&c),
                    "seeded cell outside the noise radius"
                );
            }
        } else {
            assert_eq!(grid.cells[idx].state, CellState::Empty);
        }
    }
    assert!(alive >= 1);
    assert!(alive <= 1728);
    assert_counts_consistent(&grid);
}

/// After any sequence of updates from a seeded grid, every counter equals
/// a full brute-force recount.
#[test]
fn counters_match_brute_force_recount_after_updates() {
    let mut grid = AutomatonGrid::new(16, reference_rule(), ColorMethod::DistToCenter);
    assert_counts_consistent(&grid);
    for _ in 0..4 {
        grid.update();
        assert_counts_consistent(&grid);
    }
}

/// A single forced live cell on a 5x5x5 grid, one tick, against an
/// independent brute-force simulation of the same rule.
#[test]
fn single_cell_end_to_end() {
    let mut grid = AutomatonGrid::new_empty(5, reference_rule(), ColorMethod::DistToCenter);
    grid.spawn_cell(Pos3::new(2, 2, 2));
    let center = grid.pos_to_idx(Pos3::new(2, 2, 2));
    assert_eq!(grid.cells[center].state, CellState::Alive);
    assert_counts_consistent(&grid);

    // Independent next-state computation from the pre-tick snapshot.
    let before = brute_force_counts(&grid);
    let mut expected = Vec::new();
    for idx in 0..grid.cells.len() {
        let n = before[idx];
        expected.push(match grid.cells[idx].state {
            CellState::Empty => {
                if [4u8, 6, 8, 9, 10].contains(&n) {
                    CellState::Alive
                } else {
                    CellState::Empty
                }
            }
            CellState::Alive => {
                if [2u8, 6, 9].contains(&n) {
                    CellState::Alive
                } else {
                    CellState::Dying(8)
                }
            }
            CellState::Dying(level) => {
                if level == 1 {
                    CellState::Empty
                } else {
                    CellState::Dying(level - 1)
                }
            }
        });
    }

    grid.update();

    for idx in 0..grid.cells.len() {
        assert_eq!(grid.cells[idx].state, expected[idx]);
    }
    // The lone cell dies into its decay trail; no cell is born, so every
    // counter drops back to zero.
    assert_eq!(grid.cells[center].state, CellState::Dying(8));
    for idx in 0..grid.cells.len() {
        assert_eq!(grid.cells[idx].neighbours, 0);
        if idx != center {
            assert_eq!(grid.cells[idx].state, CellState::Empty);
        }
    }
    assert_counts_consistent(&grid);
}

/// Installing a preset replaces the rule and reseeds; nothing of the old
/// lattice survives.
#[test]
fn set_example_replaces_rule_and_reseeds() {
    let mut grid = AutomatonGrid::new(16, reference_rule(), ColorMethod::DistToCenter);
    grid.update();
    let example = Example {
        name: "Amoeba".to_string(),
        rule: Rule {
            survival_rule: Indexes::from_range(9..=26),
            birth_rule: Indexes::new(&[5, 6, 7, 12, 13, 15]),
            states: 20,
            neighbour_method: NeighbourMethod::Moore,
        },
        color_method: ColorMethod::StateLerp,
    };
    grid.set_example(example);
    assert!(grid.cells.iter().any(|c| c.state == CellState::Alive));
    assert_eq!(grid.rule.states, 20);
    assert_eq!(grid.color_method, ColorMethod::StateLerp);
    for idx in 0..grid.cells.len() {
        assert!(matches!(
            grid.cells[idx].state,
            CellState::Empty | CellState::Alive
        ));
    }
    assert_counts_consistent(&grid);
}

#[test]
fn set_size_discards_and_reseeds() {
    let mut grid = AutomatonGrid::new(16, reference_rule(), ColorMethod::DistToCenter);
    grid.set_size(16);
    assert_eq!(grid.size, 16);
    grid.set_size(8);
    assert_eq!(grid.size, 8);
    assert_eq!(grid.cells.len(), 512);
    assert!(grid.cells.iter().any(|c| c.state == CellState::Alive));
    assert_counts_consistent(&grid);
}

#[test]
fn cell_counter_helpers() {
    let mut cell = Cell::default();
    assert_eq!(cell.state, CellState::Empty);
    assert_eq!(cell.neighbours, 0);
    cell.decrease_neighbours();
    assert_eq!(cell.neighbours, 0, "decrement floors at zero");
    cell.increase_neighbours();
    cell.increase_neighbours();
    assert_eq!(cell.neighbours, 2);
    cell.decrease_neighbours();
    assert_eq!(cell.neighbours, 1);
    assert_eq!(cell.get_value(10), 0);
    let alive = Cell {
        state: CellState::Alive,
        neighbours: 0,
    };
    assert_eq!(alive.get_value(10), 9);
    let dying = Cell {
        state: CellState::Dying(3),
        neighbours: 0,
    };
    assert_eq!(dying.get_value(10), 3);
}
