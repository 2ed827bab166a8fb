use tile_automata::hashmap_ext::HashMultiMapExt;
use tile_automata::simulation::SimulationState;
use tile_automata::tiling::{TileIndex, Tiling, TilingKind};
use tile_automata::visuals::collapse::{
    storage_ready_for_collapse, CollapseEntry, CollapseEntryIndex, CollapseHistory, CollapseNeighborUpdate, EdgeRestriction,
};
use tile_automata::visuals::collapse_state::{CollapseState, CollapseStep};
use tile_automata::visuals::geom::build_profiles::{LayerProfileIndex, MeshProfile, WallProfileIndex};
use tile_automata::visuals::geom::geom::GeometryStorage;
use tile_automata::visuals::geom::handles::GeometryHandle;
use tile_automata::visuals::geom::orientations::GeomOrientation;
use tile_automata::visuals::geom::vertical::VerticalProfile;

fn square(n: i32) -> Tiling {
    Tiling { kind: TilingKind::Square, max_index: TileIndex::new(n, n) }
}

fn turns() -> Vec<GeomOrientation> {
    (0..4).map(|r| GeomOrientation::Standard { rotations: r }).collect()
}

/// Flat ground: full below, empty above, profile 0 on every side, which is its own
/// reverse; and a block with profile 1 on every side, the reverse of profile 2.
fn flat_storage() -> GeometryStorage<u32> {
    let mut geom: GeometryStorage<u32> = GeometryStorage::new();
    geom.wall_reverse_profiles = vec![WallProfileIndex::new(0), WallProfileIndex::new(2), WallProfileIndex::new(1)];
    let full = vec![VerticalProfile::Full; 4];
    let empty = vec![VerticalProfile::Empty; 4];
    let ground = MeshProfile {
        sides: 4,
        walls: vec![WallProfileIndex::new(0); 4],
        top: LayerProfileIndex::new(0),
        bottom: LayerProfileIndex::new(0),
        orientations: turns(),
    };
    geom.store(ground, &empty, &full, Some(7));
    let block = MeshProfile {
        sides: 4,
        walls: vec![WallProfileIndex::new(1); 4],
        top: LayerProfileIndex::new(0),
        bottom: LayerProfileIndex::new(0),
        orientations: vec![GeomOrientation::Standard { rotations: 0 }],
    };
    geom.store(block, &empty, &full, Some(8));
    geom
}

fn ground_entry(geom: &GeometryStorage<u32>) -> CollapseEntry {
    let sim = SimulationState::new(square(2));
    CollapseEntry::new(&square(3), &sim, geom, TileIndex::new(1, 1), 0, true)
}

#[test]
fn new_entry_reads_its_corners() {
    let geom = flat_storage();
    let entry = ground_entry(&geom);
    assert_eq!(entry.corner_data.len(), 4);
    assert_eq!(entry.corner_data[0], (TileIndex::new(0, 1), 0));
    assert_eq!(entry.corner_data[1], (TileIndex::new(1, 1), 0));
    assert_eq!(entry.current_bottom_indicator, VerticalProfile::compute_indicator(&vec![VerticalProfile::Full; 4], GeomOrientation::Standard { rotations: 0 }));
    assert_eq!(entry.current_top_indicator, VerticalProfile::compute_indicator(&vec![VerticalProfile::Empty; 4], GeomOrientation::Standard { rotations: 0 }));
    assert_eq!(entry.current_top_indicator, 0b01010101);
    assert_eq!(entry.possible_geometry_entries_from_corner_data.length(), 5);
    assert!(entry.current_mesh.is_none());
    assert_eq!(entry.options, 0);
}

#[test]
fn selecting_takes_the_first_allowed_handle() {
    let geom = flat_storage();
    let mut entry = ground_entry(&geom);
    let updates = entry.recompute_from_restrictions(true, &square(3), &geom);
    let chosen = GeometryHandle { index: 0, orientation: GeomOrientation::Standard { rotations: 0 } };
    assert_eq!(entry.current_mesh, Some(chosen));
    assert_eq!(entry.options, 1);
    assert_eq!(updates.len(), 4);
    assert_eq!(updates[0].0, CollapseEntryIndex::new(TileIndex::new(2, 1), 0));
    assert_eq!(updates[0].1.side, 2);
    assert_eq!(updates[0].1.walls, 1);
    assert_eq!(updates[0].1.from_neighbor, TileIndex::new(1, 1));
    assert_eq!(entry.history[0], CollapseHistory::Selected(chosen, 5));
    assert_eq!(entry.history[1], CollapseHistory::SendingUpdates(TileIndex::new(2, 1), 0, 1));
}

#[test]
fn recomputing_without_selecting_keeps_all_options() {
    let geom = flat_storage();
    let mut entry = ground_entry(&geom);
    let updates = entry.recompute_from_restrictions(false, &square(3), &geom);
    assert_eq!(entry.current_mesh, None);
    assert_eq!(entry.options, 5);
    assert_eq!(updates[0].1.walls, 0b101);
}

#[test]
fn neighbor_restrictions_narrow_and_repeat_quietly() {
    let geom = flat_storage();
    let mut entry = ground_entry(&geom);
    let update = CollapseNeighborUpdate { side: 0, walls: 1 << 1, from_neighbor: TileIndex::new(2, 1) };
    let sent = entry.process_neighbor_updates(vec![update], &square(3), &geom);
    assert_eq!(entry.edge_restrictions.len(), 1);
    assert_eq!(entry.edge_restrictions[0], EdgeRestriction { edge: 0, restruction: Some(2) });
    assert_eq!(entry.options, 1);
    assert_eq!(sent.len(), 4);
    assert_eq!(sent[0].1.walls, 1 << 2);
    assert_eq!(entry.history[0], CollapseHistory::SetEdge(TileIndex::new(2, 1), 0, 2, None));
    assert!(entry.process_neighbor_updates(vec![update], &square(3), &geom).is_empty());
}

#[test]
fn conflicting_restrictions_are_dropped() {
    let geom = flat_storage();
    let mut entry = ground_entry(&geom);
    let update = CollapseNeighborUpdate { side: 1, walls: 1 << 5, from_neighbor: TileIndex::new(1, 2) };
    entry.process_neighbor_updates(vec![update], &square(3), &geom);
    assert!(entry.edge_restrictions.is_empty());
    assert_eq!(entry.options, 5);
    assert_eq!(entry.history[1], CollapseHistory::Deselected(true));
}

#[test]
fn unchanged_corners_send_nothing() {
    let geom = flat_storage();
    let mut entry = ground_entry(&geom);
    let sent = entry.vertex_set_to(&[(TileIndex::new(1, 1), 0)], &square(3), &geom);
    assert!(sent.is_empty());
    assert_eq!(entry.history, vec![CollapseHistory::SetCorner(TileIndex::new(1, 1), 0)]);
    let sent = entry.vertex_set_to(&[(TileIndex::new(1, 1), 1)], &square(3), &geom);
    assert_eq!(entry.corner_data[1], (TileIndex::new(1, 1), 1));
    assert_eq!(entry.possible_geometry_entries_from_corner_data.length(), 0);
    assert_eq!(sent.len(), 4);
    assert_eq!(sent[0].1.walls, 0);
}

#[test]
fn history_stops_at_one_hundred_events() {
    let geom = flat_storage();
    let mut entry = ground_entry(&geom);
    for _ in 0..120 {
        entry.vertex_set_to(&[(TileIndex::new(1, 1), 0)], &square(3), &geom);
    }
    assert_eq!(entry.history.len(), 100);
}

#[test]
fn multi_map_appends_in_order() {
    let mut map: Vec<(TileIndex, Vec<(TileIndex, u32)>)> = Vec::new();
    map.add_element(TileIndex::new(1, 1), (TileIndex::new(0, 0), 3));
    map.extend_elements(vec![(TileIndex::new(2, 2), (TileIndex::new(0, 1), 4)), (TileIndex::new(1, 1), (TileIndex::new(1, 0), 5))]);
    assert_eq!(map.len(), 2);
    assert_eq!(map[0].1, vec![(TileIndex::new(0, 0), 3), (TileIndex::new(1, 0), 5)]);
    assert_eq!(map[1].1, vec![(TileIndex::new(0, 1), 4)]);
}

#[test]
fn collapse_of_flat_ground_settles_every_cell() {
    let geom = flat_storage();
    let sim = SimulationState::new(square(2));
    let mut state = CollapseState::default();
    state.rebuild_for_new_tiling(&sim, &geom);
    assert_eq!(state.entries.len(), 9);
    assert_eq!(state.entries[4].index_in_tiling, TileIndex::new(1, 1));
    assert_eq!(state.height_updates.len(), 9);
    assert_eq!(state.step(&geom), CollapseStep::HeightUpdate(TileIndex::new(0, 0)));
    let mut steps = 1;
    loop {
        let step = state.step(&geom);
        steps += 1;
        if step == CollapseStep::Done || steps > 10_000 {
            break;
        }
    }
    assert!(steps <= 10_000);
    assert!(state.entries.iter().all(|e| e.current_mesh.is_some()));
    assert!(state.entries.iter().all(|e| e.current_mesh.unwrap().index == 0));
}

#[test]
fn changed_states_are_queued_for_their_corners() {
    let geom = flat_storage();
    let sim = SimulationState::new(square(2));
    let mut state = CollapseState::default();
    state.rebuild_for_new_tiling(&sim, &geom);
    state.height_updates.clear();
    state.states_changed(&sim, &vec![(TileIndex::new(0, 0), 1)]);
    assert_eq!(state.height_updates.len(), 4);
    assert_eq!(state.height_updates[0], (TileIndex::new(0, 0), vec![(TileIndex::new(0, 0), 1)]));
    assert_eq!(state.height_updates[2].0, TileIndex::new(1, 1));
}

#[test]
fn repeated_corner_values_change_nothing() {
    let geom = flat_storage();
    let mut entry = ground_entry(&geom);
    let pairs = [(TileIndex::new(1, 1), 1), (TileIndex::new(0, 0), 2)];
    assert_eq!(entry.vertex_set_to(&pairs, &square(3), &geom).len(), 4);
    assert!(entry.vertex_set_to(&pairs, &square(3), &geom).is_empty());
    assert_eq!(entry.corner_data[3], (TileIndex::new(0, 0), 2));
}

#[test]
fn storage_readiness_checks_reverse_profiles() {
    let geom = flat_storage();
    assert!(storage_ready_for_collapse(&geom));
    let mut broken = flat_storage();
    broken.wall_reverse_profiles = vec![WallProfileIndex::new(0), WallProfileIndex::new(5), WallProfileIndex::new(1)];
    assert!(!storage_ready_for_collapse(&broken));
    let mut short = flat_storage();
    short.wall_reverse_profiles = vec![WallProfileIndex::new(0)];
    assert!(!storage_ready_for_collapse(&short));
}

#[test]
fn next_selection_names_the_cell_with_fewest_options() {
    let geom = flat_storage();
    let sim = SimulationState::new(square(2));
    let mut state = CollapseState::default();
    assert_eq!(state.next_selection(), None);
    state.rebuild_for_new_tiling(&sim, &geom);
    while state.height_updates.len() > 0 {
        state.step(&geom);
    }
    state.neighbor_restriction_updates.clear();
    let chosen = state.next_selection();
    assert_eq!(chosen, Some(CollapseEntryIndex::new(state.entries[0].index_in_tiling, state.entries[0].height)));
    assert_eq!(state.step(&geom), CollapseStep::Selected(chosen.unwrap()));
}

#[test]
fn watched_cells_are_found_before_the_step() {
    let geom = flat_storage();
    let sim = SimulationState::new(square(2));
    let mut state = CollapseState::default();
    state.rebuild_for_new_tiling(&sim, &geom);
    let first = CollapseEntryIndex::new(TileIndex::new(0, 0), 0);
    assert_eq!(state.watched_target(&vec![]), None);
    assert_eq!(state.watched_target(&vec![CollapseEntryIndex::new(TileIndex::new(2, 2), 0), first]), Some(first));
    assert_eq!(state.watched_target(&vec![CollapseEntryIndex::new(TileIndex::new(0, 0), 1)]), None);
    while state.height_updates.len() > 0 {
        state.step(&geom);
    }
    state.neighbor_restriction_updates.clear();
    let next = state.next_selection().unwrap();
    assert_eq!(state.watched_target(&vec![next]), Some(next));
    assert_eq!(state.watched_target(&vec![CollapseEntryIndex::new(TileIndex::new(9, 9), 0)]), None);
}
