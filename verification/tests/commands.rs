use tile_automata::menus::{
    rules_panel, change_view_to, on_rule_update, toggle_play_event, ChangeViewTo, CommandEventGenerator, RuleUpdateEvent,
    RuleUpdateEventGenerator, ShowRulesFor, TogglePlay,
};
use tile_automata::simulation::{RuleUpdateTarget, SimulationState};
use tile_automata::tile_inspect::{
    parse_command, parse_i32, parse_u32, parse_usize, toggle_break, DebugCommand, DebugNameTarget, DebugTileOps,
    IntErrorKind, ParseError,
};
use tile_automata::tiling::{EquilateralDirection, TileIndex, TileShape, Tiling, TilingKind};
use tile_automata::ui::{
    button_reaction, edit_number, edit_text, is_control, ButtonImage, ButtonReaction, ElementChange, InputState, UiStateDetails,
};
use tile_automata::visuals::collapse::CollapseEntryIndex;
use tile_automata::visuals::geom::orientations::GeomOrientation;

fn chars(s: &str) -> Vec<char> {
    s.chars().collect()
}

#[test]
fn numbers_read_like_the_standard_library() {
    assert_eq!(parse_i32(&chars("-12")), Ok(-12));
    assert_eq!(parse_i32(&chars("+7")), Ok(7));
    assert_eq!(parse_i32(&chars("-2147483648")), Ok(i32::MIN));
    assert_eq!(parse_i32(&chars("2147483648")), Err(IntErrorKind::PosOverflow));
    assert_eq!(parse_i32(&chars("-2147483649")), Err(IntErrorKind::NegOverflow));
    assert_eq!(parse_i32(&chars("")), Err(IntErrorKind::Empty));
    assert_eq!(parse_i32(&chars("-")), Err(IntErrorKind::InvalidDigit));
    assert_eq!(parse_i32(&chars("1x")), Err(IntErrorKind::InvalidDigit));
    assert_eq!(parse_u32(&chars("-1")), Err(IntErrorKind::InvalidDigit));
    assert_eq!(parse_u32(&chars("4294967295")), Ok(u32::MAX));
    assert_eq!(parse_usize(&chars("0042")), Ok(42));
    for text in ["0", "-5", "+5", "x", "", "99999999999"] {
        assert_eq!(parse_i32(&chars(text)).ok(), text.parse::<i32>().ok());
    }
}

#[test]
fn break_and_info_commands_read_cells() {
    match parse_command("b 3 -4 2".to_string()) {
        Ok(DebugCommand::ToggleBreak { tile }) => assert_eq!(tile, CollapseEntryIndex::new(TileIndex::new(3, -4), 2)),
        _ => panic!("expected a breakpoint"),
    }
    match parse_command("info 1 2 m".to_string()) {
        Ok(DebugCommand::DebugTile { tile, debug_op }) => {
            assert_eq!(tile, CollapseEntryIndex::new(TileIndex::new(1, 2), 0));
            assert_eq!(debug_op, DebugTileOps::PrintMeshes);
        },
        _ => panic!("expected a cell command"),
    }
    match parse_command("break 1 2 up".to_string()) {
        Err(ParseError::InvalidToken { position, value, error }) => {
            assert_eq!(position, 3);
            assert_eq!(value, "up");
            assert_eq!(error, "Parse Height: ParseIntError { kind: InvalidDigit }");
        },
        _ => panic!("expected an invalid height"),
    }
    match parse_command("i 1".to_string()) {
        Err(ParseError::MissingTokens { num_tokens, expected }) => {
            assert_eq!(num_tokens, 2);
            assert_eq!(expected, 3);
        },
        _ => panic!("expected missing tokens"),
    }
}

#[test]
fn other_commands() {
    assert!(matches!(parse_command("c".to_string()), Ok(DebugCommand::Continue)));
    assert!(matches!(parse_command("step".to_string()), Ok(DebugCommand::Step)));
    assert!(matches!(parse_command("h".to_string()), Ok(DebugCommand::Help)));
    match parse_command("n w 01 floor".to_string()) {
        Ok(DebugCommand::NameProfile { target, index, name }) => {
            assert_eq!(target, DebugNameTarget::Wall);
            assert_eq!(index, 1);
            assert_eq!(name, "floor");
        },
        _ => panic!("expected a name"),
    }
    match parse_command("p 12@r3".to_string()) {
        Ok(DebugCommand::PrintMesh { mesh }) => {
            assert_eq!(mesh.index, 12);
            assert_eq!(mesh.orientation, GeomOrientation::Flipped { rotations: 3 });
        },
        _ => panic!("expected a print"),
    }
    match parse_command("p 12".to_string()) {
        Err(ParseError::InvalidToken { error, .. }) => assert_eq!(error, "Expected index@orientation format"),
        _ => panic!("expected a bad handle"),
    }
    match parse_command("jump".to_string()) {
        Err(ParseError::NoSuchCommand { command }) => assert_eq!(command, "jump"),
        _ => panic!("expected an unknown command"),
    }
    match parse_command("".to_string()) {
        Err(ParseError::NoSuchCommand { command }) => assert_eq!(command, ""),
        _ => panic!("an empty line names no command"),
    }
    assert_eq!(CommandEventGenerator.create_event("s".to_string()).0, "s");
}

#[test]
fn breakpoints_toggle() {
    let mut breaks = Vec::new();
    let tile = CollapseEntryIndex::new(TileIndex::new(1, 1), 0);
    assert!(toggle_break(&mut breaks, tile));
    assert_eq!(breaks, vec![tile]);
    assert!(!toggle_break(&mut breaks, tile));
    assert!(breaks.is_empty());
}

#[test]
fn play_and_step() {
    let mut sim = SimulationState::new(Tiling { kind: TilingKind::Square, max_index: TileIndex::new(4, 4) });
    toggle_play_event(&mut sim, TogglePlay::Toggle);
    assert_eq!(sim.run_every, 5);
    toggle_play_event(&mut sim, TogglePlay::Toggle);
    assert_eq!(sim.run_every, 0);
    toggle_play_event(&mut sim, TogglePlay::Step);
    assert_eq!(sim.step, 1);
}

#[test]
fn view_change_starts_a_fresh_automaton() {
    let (sim, show) = change_view_to(ChangeViewTo(TilingKind::EquilateralTriangular));
    assert_eq!(sim.tiling.max_index, TileIndex::new(52, 52));
    assert_eq!(sim.num_states, 2);
    assert_eq!(show, ShowRulesFor { shape: TileShape::EquilateralTriangle(EquilateralDirection::Up), state: 0 });
}

#[test]
fn rule_updates_say_what_to_show() {
    let mut sim = SimulationState::new(Tiling { kind: TilingKind::Square, max_index: TileIndex::new(4, 4) });
    let shown = ShowRulesFor { shape: TileShape::Square, state: 1 };
    let generator = RuleUpdateEventGenerator { tile: TileShape::Square, state: 1, rule_number: 0, target: RuleUpdateTarget::MinValue };
    let event = generator.create_event(4);
    assert_eq!(on_rule_update(&mut sim, shown, event), None);
    let toggle = RuleUpdateEvent::ModifyRule { shape: TileShape::Square, state: 1, rule_number: 0, value: 0, target: RuleUpdateTarget::ToggleCount };
    assert_eq!(on_rule_update(&mut sim, shown, toggle), Some(shown));
    assert_eq!(on_rule_update(&mut sim, shown, RuleUpdateEvent::AddState { shape: TileShape::Square }), Some(shown));
    assert_eq!(sim.num_states, 3);
    let other = RuleUpdateEvent::ShowRulesFor { shape: TileShape::Square, state: 2 };
    assert_eq!(on_rule_update(&mut sim, shown, other), Some(ShowRulesFor { shape: TileShape::Square, state: 2 }));
}

#[test]
fn ui_state_edges() {
    let mut s = UiStateDetails::<bool>::default();
    assert!(!s.entered() && !s.exited());
    s.current = true;
    assert!(s.entered());
    s.previous = true;
    s.current = false;
    assert!(s.exited());
}

#[test]
fn rules_panel_lists_states_and_rules() {
    let sim = SimulationState::new(Tiling { kind: TilingKind::Square, max_index: TileIndex::new(4, 4) });
    let shown = ShowRulesFor { shape: TileShape::Square, state: 1 };
    let panel = rules_panel(&sim, shown);
    assert!(panel.shape_buttons.is_empty());
    assert_eq!(panel.state_buttons.len(), 3);
    assert_eq!(panel.state_buttons[0].label, "0");
    assert!(panel.state_buttons[1].active);
    assert_eq!(panel.state_buttons[2].label, "+");
    assert_eq!(panel.state_buttons[2].event, RuleUpdateEvent::AddState { shape: TileShape::Square });
    assert_eq!(panel.default_field.max_value, 1);
    assert_eq!(panel.default_field.event_generator.target, RuleUpdateTarget::DefaultValue);
    assert_eq!(panel.rules.len(), 1);
    assert_eq!(panel.rules[0].min_field.current_value, 2);
    assert_eq!(panel.rules[0].max_field.current_value, 3);
    assert_eq!(panel.rules[0].output_field.max_value, 1);
    assert_eq!(panel.rules[0].count_buttons.len(), 2);
    assert!(panel.rules[0].count_buttons[1].counted);
    assert!(!panel.rules[0].count_buttons[0].counted);
    assert_eq!(panel.add_rule, RuleUpdateEvent::AddRule { shape: TileShape::Square, state: 1 });
    let (octagons, _) = change_view_to(ChangeViewTo(TilingKind::OctagonAndSquare));
    let panel = rules_panel(&octagons, ShowRulesFor { shape: TileShape::Octagon, state: 0 });
    assert_eq!(panel.shape_buttons.len(), 2);
    assert!(panel.shape_buttons.iter().any(|b| b.active && b.shape == TileShape::Octagon));
}

#[test]
fn pointer_presses_holds_and_releases_an_element() {
    let mut state = InputState::default();
    assert!(state.settle(true, true).is_empty());
    assert_eq!(state.take_targets(true, true, Some(7), Some(3), None), vec![(7, ElementChange::Clicked(true))]);
    assert_eq!(state.ui_element_clicked, Some(7));
    assert_eq!(state.settle(true, false), vec![(7, ElementChange::ClickHeld)]);
    assert_eq!(state.settle(false, false), vec![(7, ElementChange::Clicked(false))]);
    assert_eq!(state.ui_element_clicked, None);
    assert_eq!(state.ui_element_clicked_buffered, Some(7));
    assert_eq!(state.settle(false, false), vec![(7, ElementChange::Clicked(false))]);
    assert!(state.settle(false, false).is_empty());
}

#[test]
fn pointer_selects_until_the_next_press() {
    let mut state = InputState::default();
    assert_eq!(state.take_targets(true, true, None, Some(3), Some(5)), vec![(3, ElementChange::Selected(true))]);
    assert!(state.has_selection());
    assert_eq!(state.settle(false, false), vec![(3, ElementChange::Selected(true))]);
    assert_eq!(state.settle(true, true), vec![(3, ElementChange::Selected(false))]);
    assert!(!state.has_selection());
    assert_eq!(state.settle(false, false), vec![(3, ElementChange::Selected(false))]);
    assert!(state.settle(false, false).is_empty());
}

#[test]
fn pointer_scrolls_only_with_the_button_up() {
    let mut state = InputState::default();
    assert!(state.take_targets(true, false, None, None, Some(5)).is_empty());
    assert_eq!(state.take_targets(false, false, None, None, Some(5)), vec![(5, ElementChange::Scrolled)]);
    assert_eq!(state.settle(false, false), vec![(5, ElementChange::ScrollCleared)]);
    assert_eq!(state.ui_element_scrolled, None);
}

#[test]
fn number_field_typing() {
    assert_eq!(edit_number(12, 0, 1000, false, Some(3)), Some(123));
    assert_eq!(edit_number(12, 0, 100, false, Some(3)), Some(100));
    assert_eq!(edit_number(123, 0, 1000, true, None), Some(12));
    assert_eq!(edit_number(123, 20, 1000, true, None), Some(20));
    assert_eq!(edit_number(123, 0, 1000, true, Some(7)), Some(127));
    assert_eq!(edit_number(5, 0, 10, false, None), Some(5));
    assert_eq!(edit_number(u32::MAX / 5, 0, u32::MAX, false, Some(1)), None);
}

#[test]
fn text_field_typing() {
    assert!(is_control('\u{7f}'));
    assert!(is_control('\n'));
    assert!(is_control('\u{85}'));
    assert!(!is_control('a'));
    assert!(!is_control(' '));
    let mut text: Vec<char> = "ab".chars().collect();
    let typed: Vec<char> = vec!['c', '\u{08}', '\u{08}', 'd', '\t', 'é'];
    assert_eq!(edit_text(&mut text, &typed, false), None);
    assert_eq!(text, vec!['a', 'd', 'é']);
    let mut empty: Vec<char> = Vec::new();
    assert_eq!(edit_text(&mut empty, &vec!['\u{7f}'], false), None);
    assert!(empty.is_empty());
    assert_eq!(edit_text(&mut text, &vec!['!'], true), Some(vec!['a', 'd', 'é', '!']));
    assert!(text.is_empty());
}

#[test]
fn button_reactions() {
    let state = |current: bool, previous: bool| UiStateDetails { current, previous, accepts_state: true };
    let pressed = button_reaction(&state(true, false), &state(true, true), true, true);
    assert_eq!(pressed, ButtonReaction { send_event: false, image: Some(ButtonImage::Pressed) });
    let released = button_reaction(&state(false, true), &state(true, true), true, true);
    assert_eq!(released, ButtonReaction { send_event: true, image: Some(ButtonImage::Hover) });
    let released_away = button_reaction(&state(false, true), &state(false, true), true, true);
    assert_eq!(released_away, ButtonReaction { send_event: true, image: Some(ButtonImage::Default) });
    let hovered = button_reaction(&state(false, false), &state(true, false), true, true);
    assert_eq!(hovered, ButtonReaction { send_event: false, image: Some(ButtonImage::Hover) });
    let held = button_reaction(&state(true, true), &state(false, true), true, true);
    assert_eq!(held, ButtonReaction { send_event: false, image: None });
    let no_hover_image = button_reaction(&state(false, false), &state(true, false), true, false);
    assert_eq!(no_hover_image, ButtonReaction { send_event: false, image: None });
}
