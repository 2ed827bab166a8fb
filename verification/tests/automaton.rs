use tile_automata::simulation::{
    tiling_is_steppable, RuleUpdateTarget, SimulationCellState, SimulationState, StateRule, StateRules,
};
use tile_automata::tiling::{TileIndex, TileShape, Tiling, TilingKind};

fn square(n: i32) -> Tiling {
    Tiling { kind: TilingKind::Square, max_index: TileIndex::new(n, n) }
}

fn life_rules() -> Vec<StateRules> {
    vec![
        StateRules {
            default_state: 0,
            rules: vec![StateRule { min: 3, max: 3, neighbor_states_to_count: vec![1], output: 1 }],
        },
        StateRules {
            default_state: 0,
            rules: vec![StateRule { min: 2, max: 3, neighbor_states_to_count: vec![1], output: 1 }],
        },
    ]
}

#[test]
fn fresh_cell_counts_all_neighbors_in_state_zero() {
    let cell = SimulationCellState::new(1, 8, 3);
    assert_eq!(cell.state, 1);
    assert_eq!(cell.neighbors_in_state, vec![8, 0, 0]);
    let cell = SimulationCellState::new(0, 4, 0);
    assert_eq!(cell.neighbors_in_state, vec![4]);
}

#[test]
fn cell_evaluation_follows_first_matching_rule() {
    let rules = life_rules();
    let mut cell = SimulationCellState::new(0, 8, 2);
    assert_eq!(cell.apply_change(0, 1, &rules), None);
    assert_eq!(cell.apply_change(0, 1, &rules), None);
    assert_eq!(cell.apply_change(0, 1, &rules), Some(1));
    assert_eq!(cell.neighbors_in_state, vec![5, 3]);
    assert_eq!(cell.apply_change(0, 1, &rules), None);
    let total: u32 = cell.neighbors_in_state.iter().sum();
    assert_eq!(total, 8);
    let alive = SimulationCellState { state: 1, neighbors_in_state: vec![7, 1] };
    assert_eq!(alive.evaluate(&rules), Some(0));
}

#[test]
fn tiling_basics() {
    let t = square(4);
    assert!(t.in_bounds(TileIndex::new(3, 0)));
    assert!(!t.in_bounds(TileIndex::new(4, 0)));
    assert_eq!(t.adjust_index(TileIndex::new(-1, 5)), TileIndex::new(3, 1));
    assert_eq!(t.get_dual().max_index, TileIndex::new(5, 5));
    assert_eq!(t.get_neighbors(TileIndex::new(0, 0)).len(), 8);
    assert_eq!(t.get_adjacent(TileIndex::new(0, 0)), vec![(1, 0, 2), (0, 1, 3), (-1, 0, 0), (0, -1, 1)]);
    assert_eq!(
        t.get_verticies(TileIndex::new(2, 2), true),
        vec![TileIndex::new(1, 2), TileIndex::new(2, 2), TileIndex::new(2, 1), TileIndex::new(1, 1)]
    );
    let hex = Tiling { kind: TilingKind::Hexagonal, max_index: TileIndex::new(4, 4) };
    assert_eq!(hex.adjust_index(TileIndex::new(0, -1)), TileIndex::new(2, 3));
    assert_eq!(hex.get_tile_at_index(TileIndex::new(1, 1)).shape, TileShape::Hexagon);
    let octs = Tiling { kind: TilingKind::OctagonAndSquare, max_index: TileIndex::new(4, 4) };
    assert_eq!(octs.get_tile_at_index(TileIndex::new(1, 0)).shape, TileShape::Octagon);
    assert_eq!(octs.get_neighbors(TileIndex::new(1, 1)).len(), 4);
    assert_eq!(TileShape::Hexagon.get_side_count(), 6);
    assert_eq!(TileShape::Octagon.get_name(), "Octagon");
}

#[test]
fn default_rules_of_a_square_tiling() {
    let sim = SimulationState::new(square(5));
    assert_eq!(sim.num_states, 2);
    assert_eq!(sim.get_shapes(), vec![TileShape::Square]);
    assert_eq!(sim.get_num_states_for_shape(TileShape::Square), 2);
    assert_eq!(sim.get_num_states_for_shape(TileShape::Hexagon), 0);
    let rules = sim.clone_rules_for_shape(TileShape::Square);
    assert_eq!(rules[1].rules[0].min, 2);
    assert_eq!(rules[0].rules[0].max, 3);
}

#[test]
fn blinker_oscillates() {
    let mut sim = SimulationState::new(square(5));
    for x in 1..4 {
        sim.set_at(TileIndex::new(x, 2), 1);
    }
    assert_eq!(sim.get_pending(TileIndex::new(2, 2)), 1);
    sim.process();
    assert_eq!(sim.get_at(TileIndex::new(1, 2)), 1);
    assert_eq!(sim.get_neighbor_count(TileIndex::new(2, 1), 1), 3);
    assert_eq!(sim.get_neighbor_count(TileIndex::new(2, 2), 1), 2);
    assert_eq!(sim.get_pending(TileIndex::new(2, 1)), 1);
    assert_eq!(sim.get_pending(TileIndex::new(1, 2)), 0);
    sim.step = 1;
    sim.process();
    assert_eq!(sim.step, 0);
    assert_eq!(sim.get_at(TileIndex::new(2, 1)), 1);
    assert_eq!(sim.get_at(TileIndex::new(2, 3)), 1);
    assert_eq!(sim.get_at(TileIndex::new(1, 2)), 0);
    assert_eq!(sim.get_at(TileIndex::new(2, 2)), 1);
}

#[test]
fn rule_edits() {
    let mut sim = SimulationState::new(square(3));
    sim.set_rule_value(TileShape::Square, 1, 0, 4, RuleUpdateTarget::MaxValue);
    assert_eq!(sim.clone_rules_for_shape(TileShape::Square)[1].rules[0].max, 4);
    sim.set_rule_value(TileShape::Square, 1, 0, 1, RuleUpdateTarget::ToggleCount);
    assert_eq!(sim.clone_rules_for_shape(TileShape::Square)[1].rules[0].neighbor_states_to_count, Vec::<u32>::new());
    sim.set_rule_value(TileShape::Square, 1, 0, 1, RuleUpdateTarget::ToggleCount);
    assert_eq!(sim.clone_rules_for_shape(TileShape::Square)[1].rules[0].neighbor_states_to_count, vec![1]);
    sim.set_rule_value(TileShape::Square, 0, 0, 1, RuleUpdateTarget::DefaultValue);
    assert_eq!(sim.clone_rules_for_shape(TileShape::Square)[0].default_state, 1);
    sim.add_rule(TileShape::Square, 0);
    assert_eq!(sim.clone_rules_for_shape(TileShape::Square)[0].rules.len(), 2);
    sim.add_state(TileShape::Square);
    assert_eq!(sim.num_states, 3);
    assert_eq!(sim.get_num_states_for_shape(TileShape::Square), 3);
}

#[test]
fn blinker_reports_its_changed_cells() {
    let mut sim = SimulationState::new(square(5));
    for x in 1..4 {
        sim.set_at(TileIndex::new(x, 2), 1);
    }
    let before = sim.cell_states();
    assert!(before.iter().all(|(_, state)| *state == 0));
    sim.process();
    let changed = sim.changed_since(&before);
    assert_eq!(changed.len(), 3);
    assert!(changed.iter().all(|(index, state)| index.y == 2 && *state == 1));
    let before = sim.cell_states();
    sim.step = 1;
    sim.process();
    let mut changed = sim.changed_since(&before);
    changed.sort_by_key(|(index, _)| (index.x, index.y));
    assert_eq!(
        changed,
        vec![(TileIndex::new(1, 2), 0), (TileIndex::new(2, 1), 1), (TileIndex::new(2, 3), 1), (TileIndex::new(3, 2), 0)]
    );
    assert!(sim.changed_since(&sim.cell_states()).is_empty());
}

#[test]
fn clicking_cycles_a_cell_through_its_states() {
    let mut sim = SimulationState::new(square(3));
    sim.cycle_state(TileIndex::new(1, 1), TileShape::Square);
    sim.process();
    assert_eq!(sim.get_at(TileIndex::new(1, 1)), 1);
    sim.cycle_state(TileIndex::new(4, 1), TileShape::Square);
    sim.process();
    assert_eq!(sim.get_at(TileIndex::new(1, 1)), 0);
}

#[test]
fn touching_is_symmetric_on_every_tiling() {
    for kind in [
        TilingKind::Square,
        TilingKind::Hexagonal,
        TilingKind::OctagonAndSquare,
        TilingKind::EquilateralTriangular,
        TilingKind::RightTriangular,
    ] {
        let t = Tiling { kind, max_index: TileIndex::new(8, 8) };
        for x in -4..8 {
            for y in -4..8 {
                for (dx, dy) in t.get_neighbors(TileIndex::new(x, y)) {
                    let back = t.get_neighbors(TileIndex::new(x + dx, y + dy));
                    assert!(back.contains(&(-dx, -dy)), "{:?} {} {} {} {}", kind, x, y, dx, dy);
                }
            }
        }
    }
}

fn brute_force_steppable(t: &Tiling) -> bool {
    let mut cells = Vec::new();
    for y in 0..t.max_index.y {
        for x in 0..t.max_index.x {
            cells.push(TileIndex::new(x, y));
        }
    }
    let toward = |c: TileIndex, m: TileIndex| {
        t.get_neighbors(c)
            .iter()
            .filter(|(dx, dy)| t.adjust_index(TileIndex::new(c.x + dx, c.y + dy)) == m)
            .count()
    };
    cells.iter().all(|&c| cells.iter().all(|&m| toward(c, m) == toward(m, c)))
}

#[test]
fn steppable_tilings_are_found() {
    for kind in [
        TilingKind::Square,
        TilingKind::Hexagonal,
        TilingKind::OctagonAndSquare,
        TilingKind::EquilateralTriangular,
        TilingKind::RightTriangular,
    ] {
        for (w, h) in [(4, 4), (5, 4), (4, 5), (6, 6), (3, 3), (8, 2)] {
            let t = Tiling { kind, max_index: TileIndex::new(w, h) };
            assert_eq!(tiling_is_steppable(&t), brute_force_steppable(&t), "{:?} {} {}", kind, w, h);
        }
    }
    assert!(tiling_is_steppable(&Tiling { kind: TilingKind::Square, max_index: TileIndex::new(5, 7) }));
    assert!(tiling_is_steppable(&Tiling { kind: TilingKind::Square, max_index: TileIndex::new(0, 0) }));
}
