use vstd::prelude::*;

use crate::simulation::{
    reevaluated, reevaluation_defined, rules_after_add_rule, rules_after_update, rules_table, update_reevaluates, RuleUpdateTarget,
    RuleView, SimulationState, StateRules, StateRulesView,
};
use crate::text::{decimal, push_decimal, string_from_chars};
use crate::tiling::{EquilateralDirection, RightTriangleRotation, TileIndex, TileShape, Tiling, TilingKind};

verus! {

/// Start or stop the automaton, or advance it by one step.
#[derive(Clone, Copy, PartialEq, Eq, Debug, Structural)]
pub enum TogglePlay {
    Toggle,
    Step,
}

/// Replace the automaton by a new one on another kind of tiling.
#[derive(Clone, Copy, PartialEq, Eq, Debug, Structural)]
pub struct ChangeViewTo(pub TilingKind);

/// Show the rules of a state of a tile shape.
#[derive(Clone, Copy, PartialEq, Eq, Debug, Structural)]
pub struct ShowRulesFor {
    pub shape: TileShape,
    pub state: u32,
}

/// A change to the rules, or a request to show other rules.
#[derive(Clone, Copy, PartialEq, Eq, Debug, Structural)]
pub enum RuleUpdateEvent {
    ModifyRule { shape: TileShape, state: u32, rule_number: usize, value: u32, target: RuleUpdateTarget },
    AddState { shape: TileShape },
    AddRule { shape: TileShape, state: u32 },
    ShowRulesFor { shape: TileShape, state: u32 },
}

/// Makes the rule change that a number field edits.
#[derive(Clone, Copy, PartialEq, Eq, Debug, Structural)]
pub struct RuleUpdateEventGenerator {
    pub tile: TileShape,
    pub state: u32,
    pub rule_number: usize,
    pub target: RuleUpdateTarget,
}

impl RuleUpdateEventGenerator {
    /// The change that sets the edited value to `value`.
    pub fn create_event(&self, value: u32) -> (r: RuleUpdateEvent)
        ensures
            r == (RuleUpdateEvent::ModifyRule {
                shape: self.tile,
                state: self.state,
                rule_number: self.rule_number,
                value,
                target: self.target,
            }),
    {
        RuleUpdateEvent::ModifyRule {
            shape: self.tile,
            state: self.state,
            rule_number: self.rule_number,
            value,
            target: self.target,
        }
    }
}

/// Marks the element that holds the rules of the shown state.
pub struct RulesContainer {}

/// A command typed into the debugger.
pub struct CommandEvent(pub String);

/// Makes a debugger command from the text of a field.
#[derive(Clone, Copy)]
pub struct CommandEventGenerator;

impl CommandEventGenerator {
    /// The command for the typed text.
    pub fn create_event(&self, value: String) -> (r: CommandEvent)
        ensures
            r.0@ == value@,
    {
        CommandEvent(value)
    }
}

/// Starts or stops the automaton, or asks for one more step.
pub fn toggle_play_event(sim_state: &mut SimulationState, event: TogglePlay)
    requires
        event is Step ==> old(sim_state).step < u32::MAX,
    ensures
        final(sim_state).run_every == match event {
            TogglePlay::Toggle => if old(sim_state).run_every == 0 { 5u32 } else { 0u32 },
            TogglePlay::Step => old(sim_state).run_every,
        },
        final(sim_state).step == match event {
            TogglePlay::Toggle => old(sim_state).step,
            TogglePlay::Step => (old(sim_state).step + 1) as u32,
        },
        final(sim_state).tiling == old(sim_state).tiling,
        final(sim_state).time_since_last_update == old(sim_state).time_since_last_update,
        final(sim_state).num_states == old(sim_state).num_states,
        final(sim_state).states@ == old(sim_state).states@,
        final(sim_state).index_to_state@ == old(sim_state).index_to_state@,
        final(sim_state).manual_sets@ == old(sim_state).manual_sets@,
        final(sim_state).pending_sets@ == old(sim_state).pending_sets@,
{
    match event {
        TogglePlay::Toggle => {
            sim_state.run_every = if sim_state.run_every == 0 { 5 } else { 0 };
        },
        TogglePlay::Step => {
            sim_state.step = sim_state.step + 1;
        },
    }
}

/// The shape whose rules are shown first on a kind of tiling.
pub open spec fn first_shape(kind: TilingKind) -> TileShape {
    match kind {
        TilingKind::Square => TileShape::Square,
        TilingKind::Hexagonal => TileShape::Hexagon,
        TilingKind::OctagonAndSquare => TileShape::Octagon,
        TilingKind::EquilateralTriangular => TileShape::EquilateralTriangle(EquilateralDirection::Up),
        TilingKind::RightTriangular => TileShape::RightTriangle(RightTriangleRotation::Zero),
    }
}

/// The number of tiles along each axis of a new tiling.
pub const GRID_SIZE: i32 = 52;

/// A fresh automaton on a 52 by 52 tiling of the asked kind, and the rules to show
/// for it: those of state 0 of its first shape.
pub fn change_view_to(event: ChangeViewTo) -> (r: (SimulationState, ShowRulesFor))
    ensures
        r.0.wf(),
        r.0.tiling == (Tiling { kind: event.0, max_index: TileIndex { x: GRID_SIZE, y: GRID_SIZE } }),
        r.0.rules() == crate::simulation::default_rules(event.0),
        r.0.num_states == 2,
        r.0.run_every == 0,
        r.0.step == 0,
        r.0.cells() == Map::<TileIndex, crate::simulation::CellView>::empty(),
        r.1 == (ShowRulesFor { shape: first_shape(event.0), state: 0 }),
{
    let sim_state = SimulationState::new(Tiling { kind: event.0, max_index: TileIndex { x: GRID_SIZE, y: GRID_SIZE } });
    let shape = match event.0 {
        TilingKind::Square => TileShape::Square,
        TilingKind::Hexagonal => TileShape::Hexagon,
        TilingKind::OctagonAndSquare => TileShape::Octagon,
        TilingKind::EquilateralTriangular => TileShape::EquilateralTriangle(EquilateralDirection::Up),
        TilingKind::RightTriangular => TileShape::RightTriangle(RightTriangleRotation::Zero),
    };
    (sim_state, ShowRulesFor { shape, state: 0 })
}

/// What a rule change needs to be applied without overflow.
pub open spec fn rule_update_defined(sim: SimulationState, event: RuleUpdateEvent) -> bool {
    match event {
        RuleUpdateEvent::ModifyRule { shape, state, rule_number, value, target } =>
            update_reevaluates(sim.rules(), shape, state, target) ==> reevaluation_defined(
                sim.tiling,
                sim.cells(),
                rules_after_update(sim.rules(), shape, state, rule_number, value, target),
            ),
        RuleUpdateEvent::AddRule { shape, state } =>
            reevaluation_defined(sim.tiling, sim.cells(), rules_after_add_rule(sim.rules(), shape, state)),
        _ => true,
    }
}

/// Applies a rule change to the automaton and says which rules to show next, if the
/// shown rules have to be rebuilt: those asked for, or else the ones `shown`.
pub fn on_rule_update(sim_state: &mut SimulationState, shown: ShowRulesFor, event: RuleUpdateEvent) -> (r: Option<ShowRulesFor>)
    requires
        old(sim_state).wf(),
        rule_update_defined(*old(sim_state), event),
    ensures
        final(sim_state).wf(),
        r == match event {
            RuleUpdateEvent::ModifyRule { target, .. } => if target == RuleUpdateTarget::ToggleCount {
                Some(shown)
            } else {
                None
            },
            RuleUpdateEvent::ShowRulesFor { shape, state } => Some(ShowRulesFor { shape, state }),
            _ => Some(shown),
        },
        final(sim_state).rules() == match event {
            RuleUpdateEvent::ModifyRule { shape, state, rule_number, value, target } =>
                rules_after_update(old(sim_state).rules(), shape, state, rule_number, value, target),
            RuleUpdateEvent::AddState { shape } => if old(sim_state).rules().contains_key(shape) {
                old(sim_state).rules().insert(
                    shape,
                    old(sim_state).rules()[shape].push((0u32, Seq::<crate::simulation::RuleView>::empty())),
                )
            } else {
                old(sim_state).rules()
            },
            RuleUpdateEvent::AddRule { shape, state } => rules_after_add_rule(old(sim_state).rules(), shape, state),
            RuleUpdateEvent::ShowRulesFor { .. } => old(sim_state).rules(),
        },
        final(sim_state).pending() == match event {
            RuleUpdateEvent::ModifyRule { shape, state, target, .. } => if update_reevaluates(old(sim_state).rules(), shape, state, target) {
                reevaluated(old(sim_state).tiling, old(sim_state).cells(), final(sim_state).rules())
            } else {
                old(sim_state).pending()
            },
            RuleUpdateEvent::AddRule { .. } => reevaluated(old(sim_state).tiling, old(sim_state).cells(), final(sim_state).rules()),
            _ => old(sim_state).pending(),
        },
        final(sim_state).num_states == match event {
            RuleUpdateEvent::AddState { shape } => if old(sim_state).rules().contains_key(shape)
                && old(sim_state).num_states < old(sim_state).rules()[shape].len() + 1 {
                (old(sim_state).rules()[shape].len() + 1) as usize
            } else {
                old(sim_state).num_states
            },
            _ => old(sim_state).num_states,
        },
        final(sim_state).cells() == match event {
            RuleUpdateEvent::AddState { .. } => if final(sim_state).num_states > old(sim_state).num_states {
                crate::simulation::padded_cells(old(sim_state).cells(), old(sim_state).num_states as int, final(sim_state).num_states as int)
            } else {
                old(sim_state).cells()
            },
            _ => old(sim_state).cells(),
        },
        final(sim_state).tiling == old(sim_state).tiling,
        final(sim_state).manual() == old(sim_state).manual(),
        final(sim_state).run_every == old(sim_state).run_every,
        final(sim_state).step == old(sim_state).step,
{
    match event {
        RuleUpdateEvent::ModifyRule { shape, state, rule_number, value, target } => {
            sim_state.set_rule_value(shape, state, rule_number, value, target);
            if target == RuleUpdateTarget::ToggleCount {
                Some(shown)
            } else {
                None
            }
        },
        RuleUpdateEvent::AddState { shape } => {
            sim_state.add_state(shape);
            Some(shown)
        },
        RuleUpdateEvent::AddRule { shape, state } => {
            sim_state.add_rule(shape, state);
            Some(shown)
        },
        RuleUpdateEvent::ShowRulesFor { shape, state } => Some(ShowRulesFor { shape, state }),
    }
}

/// A number field of the rule editor: what it edits, its value and its range.
#[derive(Clone, Copy, PartialEq, Eq, Debug, Structural)]
pub struct NumberFieldModel {
    pub event_generator: RuleUpdateEventGenerator,
    pub current_value: u32,
    pub min_value: u32,
    pub max_value: u32,
}

/// A button that shows the rules of a shape.
#[derive(Clone, Copy, PartialEq, Eq, Debug, Structural)]
pub struct ShapeButton {
    pub shape: TileShape,
    pub active: bool,
    pub event: ShowRulesFor,
}

/// A button of the row of states: one state, or adding a state.
pub struct StateButton {
    pub label: String,
    pub active: bool,
    pub event: RuleUpdateEvent,
}

/// A button that toggles whether a rule counts the neighbours in a state.
#[derive(Clone, Copy, PartialEq, Eq, Debug, Structural)]
pub struct CountButton {
    pub state: u32,
    pub counted: bool,
    pub event: RuleUpdateEvent,
}

/// The editor of one rule.
pub struct RuleEditor {
    pub count_buttons: Vec<CountButton>,
    pub min_field: NumberFieldModel,
    pub max_field: NumberFieldModel,
    pub output_field: NumberFieldModel,
}

/// What the rule editor shows for a state of a shape.
pub struct RulesPanel {
    pub shape_buttons: Vec<ShapeButton>,
    pub state_buttons: Vec<StateButton>,
    pub default_field: NumberFieldModel,
    pub rules: Vec<RuleEditor>,
    pub add_rule: RuleUpdateEvent,
}

/// The field editing one value of a rule.
pub open spec fn field_for(shown: ShowRulesFor, rule_number: usize, target: RuleUpdateTarget, value: u32, max: u32) -> NumberFieldModel {
    NumberFieldModel {
        event_generator: RuleUpdateEventGenerator { tile: shown.shape, state: shown.state, rule_number, target },
        current_value: value,
        min_value: 0,
        max_value: max,
    }
}

/// The editor of rule `i` with rule values `rule`, among `state_count` states of
/// its shape and `num_states` states of the automaton.
pub open spec fn rule_editor_holds(e: RuleEditor, shown: ShowRulesFor, i: usize, rule: RuleView, state_count: u32, num_states: usize) -> bool {
    &&& e.count_buttons@.len() == num_states
    &&& forall|j: int| 0 <= j < num_states ==> #[trigger] e.count_buttons@[j] == (CountButton {
        state: j as u32,
        counted: rule.2.contains(j as u32),
        event: RuleUpdateEvent::ModifyRule {
            shape: shown.shape,
            state: shown.state,
            rule_number: i,
            value: j as u32,
            target: RuleUpdateTarget::ToggleCount,
        },
    })
    &&& e.min_field == field_for(shown, i, RuleUpdateTarget::MinValue, rule.0, 8)
    &&& e.max_field == field_for(shown, i, RuleUpdateTarget::MaxValue, rule.1, 8)
    &&& e.output_field == field_for(shown, i, RuleUpdateTarget::ResultValue, rule.3, (state_count - 1) as u32)
}

/// What the rule editor shows: a button per shape when there are several, a button
/// per state of the shown shape and one to add a state, the default state of the
/// shown state, an editor per rule, and the button to add a rule.
pub open spec fn panel_holds(p: RulesPanel, shown: ShowRulesFor, shapes: Seq<TileShape>, states: Seq<StateRulesView>, num_states: usize) -> bool {
    let n = states.len();
    let rules = states[shown.state as int].1;
    &&& p.shape_buttons@ == (if shapes.len() > 1 {
        shapes.map_values(|s: TileShape| ShapeButton { shape: s, active: s == shown.shape, event: ShowRulesFor { shape: s, state: shown.state } })
    } else {
        Seq::<ShapeButton>::empty()
    })
    &&& p.state_buttons@.len() == n + 1
    &&& forall|i: int| 0 <= i < n ==> {
        let b = #[trigger] p.state_buttons@[i];
        &&& b.label@ == decimal(i as nat)
        &&& b.active == (i == shown.state)
        &&& b.event == RuleUpdateEvent::ShowRulesFor { shape: shown.shape, state: i as u32 }
    }
    &&& p.state_buttons@[n as int].label@ == seq!['+']
    &&& !p.state_buttons@[n as int].active
    &&& p.state_buttons@[n as int].event == RuleUpdateEvent::AddState { shape: shown.shape }
    &&& p.default_field == field_for(shown, 0, RuleUpdateTarget::DefaultValue, states[shown.state as int].0, (n - 1) as u32)
    &&& p.rules@.len() == rules.len()
    &&& forall|i: int| 0 <= i < rules.len() ==> rule_editor_holds(#[trigger] p.rules@[i], shown, i as usize, rules[i], n as u32, num_states)
    &&& p.add_rule == RuleUpdateEvent::AddRule { shape: shown.shape, state: shown.state }
}

fn rule_editor(shown: ShowRulesFor, i: usize, rule: &crate::simulation::StateRule, state_count: u32, num_states: usize) -> (r: RuleEditor)
    requires
        0 < state_count,
        num_states <= u32::MAX,
    ensures
        rule_editor_holds(r, shown, i, crate::simulation::rule_view(*rule), state_count, num_states),
{
    let mut count_buttons: Vec<CountButton> = Vec::new();
    let mut j: usize = 0;
    while j < num_states
        invariant
            j <= num_states,
            num_states <= u32::MAX,
            count_buttons@.len() == j,
            forall|k: int| 0 <= k < j ==> #[trigger] count_buttons@[k] == (CountButton {
                state: k as u32,
                counted: rule.neighbor_states_to_count@.contains(k as u32),
                event: RuleUpdateEvent::ModifyRule {
                    shape: shown.shape,
                    state: shown.state,
                    rule_number: i,
                    value: k as u32,
                    target: RuleUpdateTarget::ToggleCount,
                },
            }),
        decreases num_states - j,
    {
        let state = j as u32;
        let counted = contains_state(&rule.neighbor_states_to_count, state);
        count_buttons.push(CountButton {
            state,
            counted,
            event: RuleUpdateEvent::ModifyRule {
                shape: shown.shape,
                state: shown.state,
                rule_number: i,
                value: state,
                target: RuleUpdateTarget::ToggleCount,
            },
        });
        j = j + 1;
    }
    let field = |target: RuleUpdateTarget, value: u32, max: u32| -> (f: NumberFieldModel)
        ensures
            f == field_for(shown, i, target, value, max),
    {
        NumberFieldModel {
            event_generator: RuleUpdateEventGenerator { tile: shown.shape, state: shown.state, rule_number: i, target },
            current_value: value,
            min_value: 0,
            max_value: max,
        }
    };
    RuleEditor {
        count_buttons,
        min_field: field(RuleUpdateTarget::MinValue, rule.min, 8),
        max_field: field(RuleUpdateTarget::MaxValue, rule.max, 8),
        output_field: field(RuleUpdateTarget::ResultValue, rule.output, state_count - 1),
    }
}

fn contains_state(list: &Vec<u32>, state: u32) -> (r: bool)
    ensures
        r == list@.contains(state),
{
    let mut k: usize = 0;
    while k < list.len()
        invariant
            k <= list@.len(),
            forall|q: int| 0 <= q < k ==> list@[q] != state,
        decreases list@.len() - k,
    {
        if list[k] == state {
            return true;
        }
        k = k + 1;
    }
    false
}

/// What the rule editor shows for the rules of state `shown.state` of shape
/// `shown.shape`.
pub fn rules_panel(sim_state: &SimulationState, shown: ShowRulesFor) -> (r: RulesPanel)
    requires
        sim_state.wf(),
        sim_state.rules().contains_key(shown.shape),
        shown.state < sim_state.rules()[shown.shape].len(),
        sim_state.rules()[shown.shape].len() <= u32::MAX,
        sim_state.num_states <= u32::MAX,
    ensures
        panel_holds(r, shown, sim_state.shape_order(), sim_state.rules()[shown.shape], sim_state.num_states),
{
    let shapes = sim_state.get_shapes();
    let states = sim_state.clone_rules_for_shape(shown.shape);
    let ghost table = rules_table(states@);
    let mut shape_buttons: Vec<ShapeButton> = Vec::new();
    if shapes.len() > 1 {
        let mut k: usize = 0;
        while k < shapes.len()
            invariant
                k <= shapes@.len(),
                shape_buttons@ == shapes@.subrange(0, k as int).map_values(
                    |s: TileShape| ShapeButton { shape: s, active: s == shown.shape, event: ShowRulesFor { shape: s, state: shown.state } },
                ),
            decreases shapes@.len() - k,
        {
            let s = shapes[k];
            shape_buttons.push(ShapeButton { shape: s, active: s == shown.shape, event: ShowRulesFor { shape: s, state: shown.state } });
            k = k + 1;
            proof {
                assert(shape_buttons@ =~= shapes@.subrange(0, k as int).map_values(
                    |s: TileShape| ShapeButton { shape: s, active: s == shown.shape, event: ShowRulesFor { shape: s, state: shown.state } },
                ));
            }
        }
        proof {
            assert(shapes@.subrange(0, k as int) =~= shapes@);
        }
    }
    let n = states.len();
    let mut state_buttons: Vec<StateButton> = Vec::new();
    let mut i: usize = 0;
    while i < n
        invariant
            n == states@.len(),
            n <= u32::MAX,
            i <= n,
            state_buttons@.len() == i,
            forall|q: int| 0 <= q < i ==> {
                let b = #[trigger] state_buttons@[q];
                &&& b.label@ == decimal(q as nat)
                &&& b.active == (q == shown.state)
                &&& b.event == RuleUpdateEvent::ShowRulesFor { shape: shown.shape, state: q as u32 }
            },
        decreases n - i,
    {
        let mut label: Vec<char> = Vec::new();
        push_decimal(&mut label, i);
        state_buttons.push(StateButton {
            label: string_from_chars(&label),
            active: i as u32 == shown.state,
            event: RuleUpdateEvent::ShowRulesFor { shape: shown.shape, state: i as u32 },
        });
        i = i + 1;
    }
    let mut plus: Vec<char> = Vec::new();
    plus.push('+');
    state_buttons.push(StateButton { label: string_from_chars(&plus), active: false, event: RuleUpdateEvent::AddState { shape: shown.shape } });
    let state_count = n as u32;
    let rule_set: &StateRules = &states[shown.state as usize];
    proof {
        assert(table[shown.state as int] == crate::simulation::state_rules_view(*rule_set));
    }
    let default_field = NumberFieldModel {
        event_generator: RuleUpdateEventGenerator {
            tile: shown.shape,
            state: shown.state,
            rule_number: 0,
            target: RuleUpdateTarget::DefaultValue,
        },
        current_value: rule_set.default_state,
        min_value: 0,
        max_value: state_count - 1,
    };
    let mut rules: Vec<RuleEditor> = Vec::new();
    let mut k: usize = 0;
    while k < rule_set.rules.len()
        invariant
            0 < state_count,
            sim_state.num_states <= u32::MAX,
            k <= rule_set.rules@.len(),
            rules@.len() == k,
            forall|q: int| 0 <= q < k ==> rule_editor_holds(#[trigger] rules@[q], shown, q as usize,
                crate::simulation::rule_view(rule_set.rules@[q]), state_count, sim_state.num_states),
        decreases rule_set.rules@.len() - k,
    {
        rules.push(rule_editor(shown, k, &rule_set.rules[k], state_count, sim_state.num_states));
        k = k + 1;
    }
    let r = RulesPanel {
        shape_buttons,
        state_buttons,
        default_field,
        rules,
        add_rule: RuleUpdateEvent::AddRule { shape: shown.shape, state: shown.state },
    };
    proof {
        let rs = table[shown.state as int].1;
        assert forall|q: int| 0 <= q < rs.len() implies rule_editor_holds(#[trigger] r.rules@[q], shown, q as usize, rs[q], n as u32,
            sim_state.num_states) by {
            assert(rs[q] == crate::simulation::rule_view(rule_set.rules@[q]));
        }
        assert(r.state_buttons@[n as int].label@ == seq!['+']);
    }
    r
}

/// After switching the view, the rules shown are those of a shape that the new
/// automaton has rules for and that the new tiling has a tile of.
pub proof fn law_view_shows_a_shape_of_the_tiling(kind: TilingKind)
    ensures
        crate::simulation::default_rules(kind).contains_key(first_shape(kind)),
        exists|i: TileIndex| #[trigger] crate::tiling::index_in_bounds(
            Tiling { kind, max_index: TileIndex { x: GRID_SIZE, y: GRID_SIZE } }, i)
            && crate::tiling::shape_at(Tiling { kind, max_index: TileIndex { x: GRID_SIZE, y: GRID_SIZE } }, i) == first_shape(kind),
{
    let t = Tiling { kind, max_index: TileIndex { x: GRID_SIZE, y: GRID_SIZE } };
    let i = match kind {
        TilingKind::OctagonAndSquare | TilingKind::EquilateralTriangular => TileIndex { x: 1, y: 0 },
        _ => TileIndex { x: 0, y: 0 },
    };
    assert(crate::tiling::index_in_bounds(t, i));
    assert(crate::tiling::shape_at(t, i) == first_shape(kind));
}

} // verus!
