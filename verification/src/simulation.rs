use vstd::prelude::*;

use crate::assoc::{assoc_map, has_key, key_index, keys_distinct, lemma_key_at, lemma_push, lemma_remove, lemma_update};
use crate::tiling::{
    adjust_index_defined, adjusted_index, half_toward_zero, index_in_bounds, neighbors_of, shape_at, shape_defined,
    EquilateralDirection, RightTriangleRotation, TileIndex, TileShape, Tiling, TilingKind,
};

verus! {

#[derive(Clone, Copy, PartialEq, Eq, Debug, Structural)]
pub enum RuleUpdateTarget {
    DefaultValue,
    MinValue,
    MaxValue,
    ToggleCount,
    ResultValue,
}

/// A rule of the automaton: when the number of neighbours in the counted states
/// lies in `[min, max]`, the cell takes the state `output`.
pub struct StateRule {
    pub min: u32,
    pub max: u32,
    pub neighbor_states_to_count: Vec<u32>,
    pub output: u32,
}

/// The rules of one state: the first rule that applies decides the next state,
/// `default_state` when none does.
pub struct StateRules {
    pub default_state: u32,
    pub rules: Vec<StateRule>,
}

/// A rule as plain values: `(min, max, counted states, output)`.
pub type RuleView = (u32, u32, Seq<u32>, u32);

/// The rules of a state as plain values: `(default state, rules)`.
pub type StateRulesView = (u32, Seq<RuleView>);

pub open spec fn rule_view(r: StateRule) -> RuleView {
    (r.min, r.max, r.neighbor_states_to_count@, r.output)
}

pub open spec fn state_rules_view(r: StateRules) -> StateRulesView {
    (r.default_state, r.rules@.map_values(|x: StateRule| rule_view(x)))
}

pub open spec fn rules_table(rules: Seq<StateRules>) -> Seq<StateRulesView> {
    rules.map_values(|r: StateRules| state_rules_view(r))
}

impl Clone for StateRule {
    fn clone(&self) -> (r: Self)
        ensures
            rule_view(r) == rule_view(*self),
    {
        let counted = self.neighbor_states_to_count.clone();
        proof {
            assert(counted@ == self.neighbor_states_to_count@);
        }
        StateRule { min: self.min, max: self.max, neighbor_states_to_count: counted, output: self.output }
    }
}

fn clone_rule_list(rules: &Vec<StateRule>) -> (r: Vec<StateRule>)
    ensures
        r@.map_values(|x: StateRule| rule_view(x)) == rules@.map_values(|x: StateRule| rule_view(x)),
{
    let mut out: Vec<StateRule> = Vec::new();
    let mut i: usize = 0;
    while i < rules.len()
        invariant
            i <= rules@.len(),
            out@.map_values(|x: StateRule| rule_view(x)) == rules@.subrange(0, i as int).map_values(|x: StateRule| rule_view(x)),
        decreases rules@.len() - i,
    {
        let ghost before = out@;
        let c = rules[i].clone();
        out.push(c);
        i = i + 1;
        proof {
            assert(rules@.subrange(0, i as int) == rules@.subrange(0, i - 1).push(rules@[i - 1]));
            assert(out@.map_values(|x: StateRule| rule_view(x)) =~= before.map_values(|x: StateRule| rule_view(x)).push(rule_view(c)));
            assert(out@.map_values(|x: StateRule| rule_view(x)) =~= rules@.subrange(0, i as int).map_values(|x: StateRule| rule_view(x)));
        }
    }
    proof {
        assert(rules@.subrange(0, i as int) == rules@);
    }
    out
}

impl Clone for StateRules {
    fn clone(&self) -> (r: Self)
        ensures
            state_rules_view(r) == state_rules_view(*self),
    {
        StateRules { default_state: self.default_state, rules: clone_rule_list(&self.rules) }
    }
}

/// The number of neighbours in the counted states, counting a state as often as it
/// is listed.
pub open spec fn count_in(states: Seq<u32>, counts: Seq<u32>) -> int
    decreases states.len(),
{
    if states.len() == 0 {
        0
    } else {
        count_in(states.drop_last(), counts) + counts[states.last() as int]
    }
}

/// Every counted state has a count, and the total fits in a `u32`.
pub open spec fn count_defined(states: Seq<u32>, counts: Seq<u32>) -> bool {
    &&& forall|i: int| 0 <= i < states.len() ==> states[i] < counts.len()
    &&& count_in(states, counts) <= u32::MAX
}

pub open spec fn rule_applies(r: RuleView, counts: Seq<u32>) -> bool {
    r.0 <= count_in(r.2, counts) <= r.1
}

/// The output of the first rule from position `i` on that applies, or the default.
pub open spec fn rule_outcome(rules: Seq<RuleView>, default: u32, counts: Seq<u32>, i: int) -> u32
    decreases rules.len() - i,
{
    if i < 0 || i >= rules.len() {
        default
    } else if rule_applies(rules[i], counts) {
        rules[i].3
    } else {
        rule_outcome(rules, default, counts, i + 1)
    }
}

/// Every rule that `rule_outcome` looks at, from `i` on, can be counted.
pub open spec fn outcome_defined(rules: Seq<RuleView>, counts: Seq<u32>, i: int) -> bool
    decreases rules.len() - i,
{
    if i < 0 || i >= rules.len() {
        true
    } else {
        count_defined(rules[i].2, counts) && (rule_applies(rules[i], counts) || outcome_defined(rules, counts, i + 1))
    }
}

/// The state a cell in state `state` with neighbour counts `counts` moves to, if it
/// changes.
pub open spec fn next_state(table: Seq<StateRulesView>, state: u32, counts: Seq<u32>) -> Option<u32> {
    let rules = table[state as int];
    let v = rule_outcome(rules.1, rules.0, counts, 0);
    if v == state {
        None
    } else {
        Some(v)
    }
}

/// Whether `next_state` can be computed for a cell.
pub open spec fn evaluation_defined(table: Seq<StateRulesView>, state: u32, counts: Seq<u32>) -> bool {
    &&& state < table.len()
    &&& outcome_defined(table[state as int].1, counts, 0)
}

/// The sum of a sequence of counts.
pub open spec fn total(s: Seq<u32>) -> int
    decreases s.len(),
{
    if s.len() == 0 {
        0
    } else {
        total(s.drop_last()) + s.last()
    }
}

/// The counts of a fresh cell: all its neighbours in state 0.
pub open spec fn fresh_counts(num_neighbors: u32, states: usize) -> Seq<u32> {
    let n = if states > 1 { states as int } else { 1int };
    Seq::new(n as nat, |i: int| if i == 0 { num_neighbors } else { 0u32 })
}

/// The counts after a neighbour moved from state `replaced` to `new`.
pub open spec fn changed_counts(counts: Seq<u32>, replaced: u32, new: u32) -> Seq<u32> {
    let mid = counts.update(replaced as int, (counts[replaced as int] - 1) as u32);
    mid.update(new as int, (mid[new as int] + 1) as u32)
}

/// Whether `apply_change` can move a neighbour from `replaced` to `new`.
pub open spec fn change_defined(counts: Seq<u32>, replaced: u32, new: u32) -> bool {
    &&& replaced < counts.len()
    &&& new < counts.len()
    &&& counts[replaced as int] > 0
    &&& replaced != new ==> counts[new as int] < u32::MAX
}

/// A cell of the automaton: its state and, for each state, how many of its
/// neighbours are in it.
pub struct SimulationCellState {
    pub state: u32,
    pub neighbors_in_state: Vec<u32>,
}

proof fn lemma_count_prefix(states: Seq<u32>, counts: Seq<u32>, k: int)
    requires
        0 <= k <= states.len(),
    ensures
        count_in(states.subrange(0, k), counts) <= count_in(states, counts),
    decreases states.len() - k,
{
    if k < states.len() {
        lemma_count_prefix(states, counts, k + 1);
        assert(states.subrange(0, k + 1).drop_last() == states.subrange(0, k));
    } else {
        assert(states.subrange(0, k) == states);
    }
}

pub proof fn lemma_total_update(s: Seq<u32>, i: int, v: u32)
    requires
        0 <= i < s.len(),
    ensures
        total(s.update(i, v)) == total(s) - s[i] + v,
    decreases s.len(),
{
    let t = s.update(i, v);
    if i < s.len() - 1 {
        lemma_total_update(s.drop_last(), i, v);
        assert(t.drop_last() == s.drop_last().update(i, v));
    } else {
        assert(t.drop_last() == s.drop_last());
    }
}

impl SimulationCellState {
    /// A cell in state `state` whose `num_neighbors` neighbours are all in state 0.
    pub fn new(state: u32, num_neighbors: u32, states: usize) -> (r: Self)
        ensures
            r.state == state,
            r.neighbors_in_state@ == fresh_counts(num_neighbors, states),
    {
        let n: usize = if states > 1 { states } else { 1 };
        let mut neighbors_in_state: Vec<u32> = Vec::new();
        let mut i: usize = 0;
        while i < n
            invariant
                i <= n,
                n >= 1,
                neighbors_in_state@.len() == i,
                forall|j: int| 0 <= j < i ==> neighbors_in_state@[j] == 0,
            decreases n - i,
        {
            neighbors_in_state.push(0);
            i = i + 1;
        }
        neighbors_in_state.set(0, num_neighbors);
        proof {
            assert(neighbors_in_state@ == fresh_counts(num_neighbors, states));
        }
        Self { state, neighbors_in_state }
    }

    /// Records that a neighbour moved from state `replaced_state` to `new_state`, and
    /// returns the state this cell should move to, if it changes.
    pub fn apply_change(&mut self, replaced_state: u32, new_state: u32, rules: &Vec<StateRules>) -> (r: Option<u32>)
        requires
            change_defined(old(self).neighbors_in_state@, replaced_state, new_state),
            evaluation_defined(
                rules_table(rules@),
                old(self).state,
                changed_counts(old(self).neighbors_in_state@, replaced_state, new_state),
            ),
        ensures
            final(self).state == old(self).state,
            final(self).neighbors_in_state@ == changed_counts(old(self).neighbors_in_state@, replaced_state, new_state),
            total(final(self).neighbors_in_state@) == total(old(self).neighbors_in_state@),
            r == next_state(rules_table(rules@), final(self).state, final(self).neighbors_in_state@),
    {
        let ghost before = self.neighbors_in_state@;
        let lowered = self.neighbors_in_state[replaced_state as usize] - 1;
        self.neighbors_in_state.set(replaced_state as usize, lowered);
        let raised = self.neighbors_in_state[new_state as usize] + 1;
        self.neighbors_in_state.set(new_state as usize, raised);
        proof {
            let mid = before.update(replaced_state as int, lowered);
            lemma_total_update(before, replaced_state as int, lowered);
            lemma_total_update(mid, new_state as int, raised);
            assert(self.neighbors_in_state@ == changed_counts(before, replaced_state, new_state));
        }
        self.evaluate(rules)
    }

    /// The state this cell should move to under `rules`, if it changes.
    pub fn evaluate(&self, rules: &Vec<StateRules>) -> (r: Option<u32>)
        requires
            evaluation_defined(rules_table(rules@), self.state, self.neighbors_in_state@),
        ensures
            r == next_state(rules_table(rules@), self.state, self.neighbors_in_state@),
    {
        let ghost table = rules_table(rules@);
        let ghost counts = self.neighbors_in_state@;
        let state_rules = &rules[self.state as usize];
        let ghost rs = state_rules_view(*state_rules).1;
        proof {
            assert(table[self.state as int] == state_rules_view(*state_rules));
        }
        let mut final_value: u32 = state_rules.default_state;
        let mut i: usize = 0;
        while i < state_rules.rules.len()
            invariant
                rs == state_rules.rules@.map_values(|x: StateRule| rule_view(x)),
                table == rules_table(rules@),
                table[self.state as int] == state_rules_view(*state_rules),
                i <= rs.len(),
                counts == self.neighbors_in_state@,
                final_value == state_rules.default_state,
                outcome_defined(rs, counts, i as int),
                rule_outcome(rs, state_rules.default_state, counts, 0) == rule_outcome(rs, state_rules.default_state, counts, i as int),
            decreases rs.len() - i,
        {
            let rule = &state_rules.rules[i];
            proof {
                assert(rs[i as int] == rule_view(*rule));
            }
            let states = &rule.neighbor_states_to_count;
            let mut count: u32 = 0;
            let mut k: usize = 0;
            while k < states.len()
                invariant
                    k <= states@.len(),
                    counts == self.neighbors_in_state@,
                    count_defined(states@, counts),
                    count == count_in(states@.subrange(0, k as int), counts),
                decreases states@.len() - k,
            {
                proof {
                    lemma_count_prefix(states@, counts, k + 1);
                    assert(states@.subrange(0, k + 1).drop_last() == states@.subrange(0, k as int));
                }
                count = count + self.neighbors_in_state[states[k] as usize];
                k = k + 1;
            }
            proof {
                assert(states@.subrange(0, k as int) == states@);
            }
            if rule.min <= count && count <= rule.max {
                proof {
                    assert(rule_applies(rs[i as int], counts));
                    assert(rule_outcome(rs, state_rules.default_state, counts, i as int) == rule.output);
                }
                final_value = rule.output;
                return if final_value == self.state {
                    None
                } else {
                    Some(final_value)
                };
            }
            i = i + 1;
        }
        if final_value == self.state {
            None
        } else {
            Some(final_value)
        }
    }
}

/// A fresh cell counts each of its neighbours once.
pub proof fn law_fresh_cell_counts_every_neighbor(num_neighbors: u32, states: usize)
    ensures
        total(fresh_counts(num_neighbors, states)) == num_neighbors,
{
    let s = fresh_counts(num_neighbors, states);
    lemma_total_zeros(s, s.len() as int);
    assert(s.subrange(0, s.len() as int) == s);
}

proof fn lemma_total_zeros(s: Seq<u32>, n: int)
    requires
        1 <= n <= s.len(),
        forall|i: int| 1 <= i < s.len() ==> s[i] == 0,
    ensures
        total(s.subrange(0, n)) == s[0],
    decreases n,
{
    if n > 1 {
        lemma_total_zeros(s, n - 1);
        assert(s.subrange(0, n).drop_last() == s.subrange(0, n - 1));
        assert(s.subrange(0, n).last() == s[n - 1]);
    } else {
        let sub = s.subrange(0, 1);
        assert(sub.drop_last() == Seq::<u32>::empty());
        assert(total(Seq::<u32>::empty()) == 0);
        assert(total(sub) == total(sub.drop_last()) + sub.last());
    }
}

/// A rule set of Conway-like rules that count neighbours in state 1 and lead to
/// state 1.
pub open spec fn life_rule(min: u32, max: u32) -> RuleView {
    (min, max, seq![1u32], 1u32)
}

/// Two states, each with default state 0 and the given rules.
pub open spec fn two_states(dead: Seq<RuleView>, alive: Seq<RuleView>) -> Seq<StateRulesView> {
    seq![(0u32, dead), (0u32, alive)]
}

pub open spec fn triangle_rules() -> Seq<StateRulesView> {
    two_states(seq![life_rule(3, 3)], seq![life_rule(3, 3)])
}

/// The rules each tile shape of a tiling starts with.
pub open spec fn default_rules(kind: TilingKind) -> Map<TileShape, Seq<StateRulesView>> {
    match kind {
        TilingKind::Square => map![TileShape::Square => two_states(seq![life_rule(3, 3)], seq![life_rule(2, 3)])],
        TilingKind::Hexagonal => map![
            TileShape::Hexagon => two_states(seq![life_rule(2, 2)], seq![life_rule(3, 3), life_rule(5, 5)])
        ],
        TilingKind::OctagonAndSquare => map![
            TileShape::Octagon => two_states(seq![life_rule(3, 3)], seq![life_rule(3, 3)]),
            TileShape::Square => two_states(seq![life_rule(2, 3)], seq![life_rule(1, 2)])
        ],
        TilingKind::EquilateralTriangular => map![
            TileShape::EquilateralTriangle(EquilateralDirection::Up) => triangle_rules(),
            TileShape::EquilateralTriangle(EquilateralDirection::Down) => triangle_rules()
        ],
        TilingKind::RightTriangular => map![
            TileShape::RightTriangle(RightTriangleRotation::Zero) => triangle_rules(),
            TileShape::RightTriangle(RightTriangleRotation::One) => triangle_rules(),
            TileShape::RightTriangle(RightTriangleRotation::Two) => triangle_rules(),
            TileShape::RightTriangle(RightTriangleRotation::Three) => triangle_rules()
        ],
    }
}

/// The rules of a list of shapes, as a map.
pub open spec fn shape_rules_map(list: Seq<(TileShape, Vec<StateRules>)>) -> Map<TileShape, Seq<StateRulesView>> {
    assoc_map(list).map_values(|v: Vec<StateRules>| rules_table(v@))
}

fn life_rule_exec(min: u32, max: u32) -> (r: StateRule)
    ensures
        rule_view(r) == life_rule(min, max),
{
    let r = StateRule { min, max, neighbor_states_to_count: vec![1], output: 1 };
    proof {
        assert(r.neighbor_states_to_count@ == seq![1u32]);
    }
    r
}

fn two_states_exec(dead: Vec<StateRule>, alive: Vec<StateRule>) -> (r: Vec<StateRules>)
    ensures
        r@.len() == 2,
        rules_table(r@) == two_states(
            dead@.map_values(|x: StateRule| rule_view(x)),
            alive@.map_values(|x: StateRule| rule_view(x)),
        ),
{
    let r = vec![StateRules { default_state: 0, rules: dead }, StateRules { default_state: 0, rules: alive }];
    proof {
        assert(rules_table(r@) =~= two_states(
            r@[0].rules@.map_values(|x: StateRule| rule_view(x)),
            r@[1].rules@.map_values(|x: StateRule| rule_view(x)),
        ));
    }
    r
}

fn triangle_rules_exec() -> (r: Vec<StateRules>)
    ensures
        rules_table(r@) == triangle_rules(),
        r@.len() == 2,
{
    let dead = vec![life_rule_exec(3, 3)];
    let alive = vec![life_rule_exec(3, 3)];
    proof {
        assert(dead@.map_values(|x: StateRule| rule_view(x)) =~= seq![life_rule(3, 3)]);
        assert(alive@.map_values(|x: StateRule| rule_view(x)) =~= seq![life_rule(3, 3)]);
    }
    two_states_exec(dead, alive)
}

fn push_shape(list: &mut Vec<(TileShape, Vec<StateRules>)>, shape: TileShape, rules: Vec<StateRules>)
    requires
        keys_distinct(old(list)@),
        !has_key(old(list)@, shape),
    ensures
        final(list)@ == old(list)@.push((shape, rules)),
        keys_distinct(final(list)@),
        shape_rules_map(final(list)@) == shape_rules_map(old(list)@).insert(shape, rules_table(rules@)),
{
    let ghost before = list@;
    list.push((shape, rules));
    proof {
        lemma_push(before, shape, rules);
        assert(shape_rules_map(list@) =~= shape_rules_map(before).insert(shape, rules_table(rules@)));
    }
}

/// The rules each tile shape of a tiling of `kind` starts with.
pub fn get_default_rules_for_tiling(kind: TilingKind) -> (r: Vec<(TileShape, Vec<StateRules>)>)
    ensures
        keys_distinct(r@),
        shape_rules_map(r@) == default_rules(kind),
        forall|i: int| 0 <= i < r@.len() ==> (#[trigger] r@[i]).1@.len() == 2,
{
    let mut map: Vec<(TileShape, Vec<StateRules>)> = Vec::new();
    proof {
        assert(shape_rules_map(map@) =~= Map::<TileShape, Seq<StateRulesView>>::empty());
    }
    match kind {
        TilingKind::Square => {
            let dead = vec![life_rule_exec(3, 3)];
            let alive = vec![life_rule_exec(2, 3)];
            proof {
                assert(dead@.map_values(|x: StateRule| rule_view(x)) =~= seq![life_rule(3, 3)]);
                assert(alive@.map_values(|x: StateRule| rule_view(x)) =~= seq![life_rule(2, 3)]);
            }
            push_shape(&mut map, TileShape::Square, two_states_exec(dead, alive));
        },
        TilingKind::Hexagonal => {
            let dead = vec![life_rule_exec(2, 2)];
            let alive = vec![life_rule_exec(3, 3), life_rule_exec(5, 5)];
            proof {
                assert(dead@.map_values(|x: StateRule| rule_view(x)) =~= seq![life_rule(2, 2)]);
                assert(alive@.map_values(|x: StateRule| rule_view(x)) =~= seq![life_rule(3, 3), life_rule(5, 5)]);
            }
            push_shape(&mut map, TileShape::Hexagon, two_states_exec(dead, alive));
        },
        TilingKind::OctagonAndSquare => {
            let dead = vec![life_rule_exec(3, 3)];
            let alive = vec![life_rule_exec(3, 3)];
            proof {
                assert(dead@.map_values(|x: StateRule| rule_view(x)) =~= seq![life_rule(3, 3)]);
                assert(alive@.map_values(|x: StateRule| rule_view(x)) =~= seq![life_rule(3, 3)]);
            }
            push_shape(&mut map, TileShape::Octagon, two_states_exec(dead, alive));
            let dead = vec![life_rule_exec(2, 3)];
            let alive = vec![life_rule_exec(1, 2)];
            proof {
                assert(dead@.map_values(|x: StateRule| rule_view(x)) =~= seq![life_rule(2, 3)]);
                assert(alive@.map_values(|x: StateRule| rule_view(x)) =~= seq![life_rule(1, 2)]);
                assert(!has_key(map@, TileShape::Square)) by {
                    if has_key(map@, TileShape::Square) {
                        assert(shape_rules_map(map@).contains_key(TileShape::Square));
                    }
                }
            }
            push_shape(&mut map, TileShape::Square, two_states_exec(dead, alive));
        },
        TilingKind::EquilateralTriangular => {
            let directions = [EquilateralDirection::Up, EquilateralDirection::Down];
            let mut i: usize = 0;
            while i < 2
                invariant
                    i <= 2,
                    directions@ == seq![EquilateralDirection::Up, EquilateralDirection::Down],
                    keys_distinct(map@),
                    forall|j: int| 0 <= j < map@.len() ==> (#[trigger] map@[j]).1@.len() == 2,
                    shape_rules_map(map@) == Map::new(
                        |shape: TileShape| exists|j: int| 0 <= j < i && shape == TileShape::EquilateralTriangle(directions@[j]),
                        |shape: TileShape| triangle_rules(),
                    ),
                decreases 2 - i,
            {
                let shape = TileShape::EquilateralTriangle(directions[i]);
                proof {
                    assert(!has_key(map@, shape)) by {
                        if has_key(map@, shape) {
                            assert(shape_rules_map(map@).contains_key(shape));
                        }
                    }
                }
                let ghost before = map@;
                push_shape(&mut map, shape, triangle_rules_exec());
                i = i + 1;
                proof {
                    assert(shape_rules_map(map@) =~= Map::new(
                        |shape: TileShape| exists|j: int| 0 <= j < i && shape == TileShape::EquilateralTriangle(directions@[j]),
                        |shape: TileShape| triangle_rules(),
                    ));
                    assert forall|j: int| 0 <= j < map@.len() implies (#[trigger] map@[j]).1@.len() == 2 by {
                        if j < before.len() {
                            assert(map@[j] == before[j]);
                        }
                    }
                }
            }
            proof {
                assert(shape_rules_map(map@) =~= default_rules(kind)) by {
                    assert(directions@[0] == EquilateralDirection::Up);
                    assert(directions@[1] == EquilateralDirection::Down);
                }
            }
            return map;
        },
        TilingKind::RightTriangular => {
            let rotations = [
                RightTriangleRotation::Zero,
                RightTriangleRotation::One,
                RightTriangleRotation::Two,
                RightTriangleRotation::Three,
            ];
            let mut i: usize = 0;
            while i < 4
                invariant
                    i <= 4,
                    rotations@ == seq![
                        RightTriangleRotation::Zero,
                        RightTriangleRotation::One,
                        RightTriangleRotation::Two,
                        RightTriangleRotation::Three,
                    ],
                    keys_distinct(map@),
                    forall|j: int| 0 <= j < map@.len() ==> (#[trigger] map@[j]).1@.len() == 2,
                    shape_rules_map(map@) == Map::new(
                        |shape: TileShape| exists|j: int| 0 <= j < i && shape == TileShape::RightTriangle(rotations@[j]),
                        |shape: TileShape| triangle_rules(),
                    ),
                decreases 4 - i,
            {
                let shape = TileShape::RightTriangle(rotations[i]);
                proof {
                    assert(!has_key(map@, shape)) by {
                        if has_key(map@, shape) {
                            assert(shape_rules_map(map@).contains_key(shape));
                        }
                    }
                }
                let ghost before = map@;
                push_shape(&mut map, shape, triangle_rules_exec());
                i = i + 1;
                proof {
                    assert(shape_rules_map(map@) =~= Map::new(
                        |shape: TileShape| exists|j: int| 0 <= j < i && shape == TileShape::RightTriangle(rotations@[j]),
                        |shape: TileShape| triangle_rules(),
                    ));
                    assert forall|j: int| 0 <= j < map@.len() implies (#[trigger] map@[j]).1@.len() == 2 by {
                        if j < before.len() {
                            assert(map@[j] == before[j]);
                        }
                    }
                }
            }
            proof {
                assert(shape_rules_map(map@) =~= default_rules(kind)) by {
                    assert(rotations@[0] == RightTriangleRotation::Zero);
                    assert(rotations@[1] == RightTriangleRotation::One);
                    assert(rotations@[2] == RightTriangleRotation::Two);
                    assert(rotations@[3] == RightTriangleRotation::Three);
                }
            }
            return map;
        },
    }
    proof {
        assert(shape_rules_map(map@) =~= default_rules(kind));
    }
    map
}

fn clone_state_rules_list(rules: &Vec<StateRules>) -> (r: Vec<StateRules>)
    ensures
        rules_table(r@) == rules_table(rules@),
{
    let mut out: Vec<StateRules> = Vec::new();
    let mut i: usize = 0;
    while i < rules.len()
        invariant
            i <= rules@.len(),
            rules_table(out@) == rules_table(rules@.subrange(0, i as int)),
        decreases rules@.len() - i,
    {
        let ghost before = out@;
        let c = rules[i].clone();
        out.push(c);
        i = i + 1;
        proof {
            assert(rules@.subrange(0, i as int) == rules@.subrange(0, i - 1).push(rules@[i - 1]));
            assert(rules_table(out@) =~= rules_table(before).push(state_rules_view(c)));
            assert(rules_table(out@) =~= rules_table(rules@.subrange(0, i as int)));
        }
    }
    proof {
        assert(rules@.subrange(0, i as int) == rules@);
    }
    out
}

/// A cell as plain values: its state and its neighbour counts.
pub type CellView = (u32, Seq<u32>);

pub open spec fn cell_view(c: SimulationCellState) -> CellView {
    (c.state, c.neighbors_in_state@)
}

pub open spec fn cells_map(list: Seq<(TileIndex, SimulationCellState)>) -> Map<TileIndex, CellView> {
    assoc_map(list).map_values(|c: SimulationCellState| cell_view(c))
}

/// The state of the cell at `index`; cells never set are in state 0.
pub open spec fn state_of(cells: Map<TileIndex, CellView>, index: TileIndex) -> u32 {
    if cells.contains_key(index) {
        cells[index].0
    } else {
        0
    }
}

/// The next states of all cells whose shape has rules, where they change.
pub open spec fn reevaluated(t: Tiling, cells: Map<TileIndex, CellView>, rules: Map<TileShape, Seq<StateRulesView>>) -> Map<TileIndex, u32> {
    Map::new(
        |c: TileIndex| cells.contains_key(c) && rules.contains_key(shape_at(t, c))
            && next_state(rules[shape_at(t, c)], cells[c].0, cells[c].1) is Some,
        |c: TileIndex| next_state(rules[shape_at(t, c)], cells[c].0, cells[c].1)->0,
    )
}

/// Every cell can be evaluated under the rules of its shape.
pub open spec fn reevaluation_defined(t: Tiling, cells: Map<TileIndex, CellView>, rules: Map<TileShape, Seq<StateRulesView>>) -> bool {
    forall|c: TileIndex| #[trigger] cells.contains_key(c) ==> {
        &&& shape_defined(t, c)
        &&& rules.contains_key(shape_at(t, c)) ==> evaluation_defined(rules[shape_at(t, c)], cells[c].0, cells[c].1)
    }
}

/// Position of the first `v` in `s`.
pub open spec fn first_position(s: Seq<u32>, v: u32) -> int
    decreases s.len(),
{
    if s.len() == 0 || s[0] == v {
        0
    } else {
        1 + first_position(s.drop_first(), v)
    }
}

/// The counted states with `value` toggled: its first occurrence removed, or
/// `value` appended when it does not occur.
pub open spec fn toggled(states: Seq<u32>, value: u32) -> Seq<u32> {
    if states.contains(value) {
        states.remove(first_position(states, value))
    } else {
        states.push(value)
    }
}

pub open spec fn updated_rule(r: RuleView, target: RuleUpdateTarget, value: u32) -> RuleView {
    match target {
        RuleUpdateTarget::MinValue => (value, r.1, r.2, r.3),
        RuleUpdateTarget::MaxValue => (r.0, value, r.2, r.3),
        RuleUpdateTarget::ToggleCount => (r.0, r.1, toggled(r.2, value), r.3),
        RuleUpdateTarget::ResultValue => (r.0, r.1, r.2, value),
        RuleUpdateTarget::DefaultValue => r,
    }
}

/// The rules after `set_rule_value`.
pub open spec fn rules_after_update(
    m: Map<TileShape, Seq<StateRulesView>>,
    shape: TileShape,
    state: u32,
    rule_number: usize,
    value: u32,
    target: RuleUpdateTarget,
) -> Map<TileShape, Seq<StateRulesView>> {
    if !m.contains_key(shape) || state >= m[shape].len() {
        m
    } else {
        let sr = m[shape][state as int];
        if target == RuleUpdateTarget::DefaultValue {
            m.insert(shape, m[shape].update(state as int, (value, sr.1)))
        } else if rule_number >= sr.1.len() {
            m
        } else {
            m.insert(shape, m[shape].update(state as int, (sr.0, sr.1.update(rule_number as int, updated_rule(sr.1[rule_number as int], target, value)))))
        }
    }
}

/// Whether `set_rule_value` ends by re-evaluating the cells: it does not when it
/// changes a default state or is given a state the shape does not have.
pub open spec fn update_reevaluates(m: Map<TileShape, Seq<StateRulesView>>, shape: TileShape, state: u32, target: RuleUpdateTarget) -> bool {
    !(m.contains_key(shape) && (state >= m[shape].len() || target == RuleUpdateTarget::DefaultValue))
}

/// The rules after `add_rule`: an empty rule appended to the rules of `state`.
pub open spec fn rules_after_add_rule(m: Map<TileShape, Seq<StateRulesView>>, shape: TileShape, state: u32) -> Map<TileShape, Seq<StateRulesView>> {
    if m.contains_key(shape) && state < m[shape].len() {
        let sr = m[shape][state as int];
        m.insert(shape, m[shape].update(state as int, (sr.0, sr.1.push((0u32, 0u32, Seq::<u32>::empty(), 0u32)))))
    } else {
        m
    }
}

/// The cells after the number of states grew from `from` to `to`: every count list
/// gains a zero for each new state.
pub open spec fn padded_cells(cells: Map<TileIndex, CellView>, from: int, to: int) -> Map<TileIndex, CellView> {
    cells.map_values(|c: CellView| (c.0, c.1 + Seq::new((to - from) as nat, |i: int| 0u32)))
}

/// The state of a cellular automaton on a tiling: the rules of each tile shape, the
/// cells set so far, and the changes waiting for the next step.
pub struct SimulationState {
    pub tiling: Tiling,
    pub run_every: u32,
    pub step: u32,
    pub time_since_last_update: u32,
    pub num_states: usize,
    pub states: Vec<(TileShape, Vec<StateRules>)>,
    pub index_to_state: Vec<(TileIndex, SimulationCellState)>,
    pub manual_sets: Vec<(TileIndex, u32)>,
    pub pending_sets: Vec<(TileIndex, u32)>,
}

fn find_shape<V>(list: &Vec<(TileShape, V)>, key: TileShape) -> (r: Option<usize>)
    ensures
        match r {
            Some(p) => p < list@.len() && list@[p as int].0 == key,
            None => !has_key(list@, key),
        },
{
    let mut i: usize = 0;
    while i < list.len()
        invariant
            i <= list@.len(),
            forall|j: int| 0 <= j < i ==> list@[j].0 != key,
        decreases list@.len() - i,
    {
        if list[i].0 == key {
            return Some(i);
        }
        i = i + 1;
    }
    None
}

fn find_index<V>(list: &Vec<(TileIndex, V)>, key: TileIndex) -> (r: Option<usize>)
    ensures
        match r {
            Some(p) => p < list@.len() && list@[p as int].0 == key,
            None => !has_key(list@, key),
        },
{
    let mut i: usize = 0;
    while i < list.len()
        invariant
            i <= list@.len(),
            forall|j: int| 0 <= j < i ==> list@[j].0 != key,
        decreases list@.len() - i,
    {
        if list[i].0 == key {
            return Some(i);
        }
        i = i + 1;
    }
    None
}

/// Set `key` to `value` in an association list.
fn insert_value(list: &mut Vec<(TileIndex, u32)>, key: TileIndex, value: u32)
    requires
        keys_distinct(old(list)@),
    ensures
        keys_distinct(final(list)@),
        assoc_map(final(list)@) == assoc_map(old(list)@).insert(key, value),
{
    let ghost before = list@;
    match find_index(list, key) {
        Some(p) => {
            list.set(p, (key, value));
            proof {
                lemma_update(before, p as int, value);
            }
        },
        None => {
            list.push((key, value));
            proof {
                lemma_push(before, key, value);
            }
        },
    }
}

/// Remove `key` from an association list.
fn remove_value(list: &mut Vec<(TileIndex, u32)>, key: TileIndex)
    requires
        keys_distinct(old(list)@),
    ensures
        keys_distinct(final(list)@),
        assoc_map(final(list)@) == assoc_map(old(list)@).remove(key),
{
    let ghost before = list@;
    match find_index(list, key) {
        Some(p) => {
            list.remove(p);
            proof {
                lemma_remove(before, p as int);
            }
        },
        None => {
            proof {
                assert(assoc_map(before).remove(key) =~= assoc_map(before));
            }
        },
    }
}

impl SimulationState {
    pub open spec fn rules(&self) -> Map<TileShape, Seq<StateRulesView>> {
        shape_rules_map(self.states@)
    }

    /// The shapes that have rules, in the order the state keeps them.
    pub open spec fn shape_order(&self) -> Seq<TileShape> {
        self.states@.map_values(|p: (TileShape, Vec<StateRules>)| p.0)
    }

    pub open spec fn cells(&self) -> Map<TileIndex, CellView> {
        cells_map(self.index_to_state@)
    }

    pub open spec fn manual(&self) -> Map<TileIndex, u32> {
        assoc_map(self.manual_sets@)
    }

    pub open spec fn pending(&self) -> Map<TileIndex, u32> {
        assoc_map(self.pending_sets@)
    }

    /// No shape and no index is listed twice.
    pub open spec fn wf(&self) -> bool {
        &&& keys_distinct(self.states@)
        &&& keys_distinct(self.index_to_state@)
        &&& keys_distinct(self.manual_sets@)
        &&& keys_distinct(self.pending_sets@)
    }

    /// An automaton on `tiling` with the default rules of its shapes and no cell set.
    pub fn new(tiling: Tiling) -> (r: Self)
        ensures
            r.wf(),
            r.tiling == tiling,
            r.rules() == default_rules(tiling.kind),
            r.num_states == 2,
            r.run_every == 0,
            r.step == 0,
            r.time_since_last_update == 0,
            r.cells() == Map::<TileIndex, CellView>::empty(),
            r.manual() == Map::<TileIndex, u32>::empty(),
            r.pending() == Map::<TileIndex, u32>::empty(),
    {
        let states = get_default_rules_for_tiling(tiling.kind);
        let mut num_states: usize = 1;
        let mut i: usize = 0;
        while i < states.len()
            invariant
                i <= states@.len(),
                forall|j: int| 0 <= j < states@.len() ==> (#[trigger] states@[j]).1@.len() == 2,
                num_states == if i == 0 { 1usize } else { 2usize },
            decreases states@.len() - i,
        {
            let count = states[i].1.len();
            if num_states < count {
                num_states = count;
            }
            i = i + 1;
        }
        proof {
            if states@.len() == 0 {
                assert(!shape_rules_map(states@).contains_key(TileShape::Square));
                match tiling.kind {
                    TilingKind::Square => assert(default_rules(tiling.kind).contains_key(TileShape::Square)),
                    TilingKind::Hexagonal => assert(default_rules(tiling.kind).contains_key(TileShape::Hexagon)),
                    TilingKind::OctagonAndSquare => assert(default_rules(tiling.kind).contains_key(TileShape::Square)),
                    TilingKind::EquilateralTriangular => assert(default_rules(tiling.kind).contains_key(
                        TileShape::EquilateralTriangle(EquilateralDirection::Up),
                    )),
                    TilingKind::RightTriangular => assert(default_rules(tiling.kind).contains_key(
                        TileShape::RightTriangle(RightTriangleRotation::Zero),
                    )),
                }
                assert(shape_rules_map(states@).dom() =~= Set::<TileShape>::empty());
            }
        }
        let r = Self {
            tiling,
            run_every: 0,
            step: 0,
            time_since_last_update: 0,
            states,
            num_states,
            index_to_state: Vec::new(),
            manual_sets: Vec::new(),
            pending_sets: Vec::new(),
        };
        proof {
            assert(r.cells() =~= Map::<TileIndex, CellView>::empty());
            assert(r.manual() =~= Map::<TileIndex, u32>::empty());
            assert(r.pending() =~= Map::<TileIndex, u32>::empty());
        }
        r
    }

    /// The shapes that have rules, each once.
    pub fn get_shapes(&self) -> (r: Vec<TileShape>)
        requires
            self.wf(),
        ensures
            r@ == self.shape_order(),
            forall|shape: TileShape| r@.contains(shape) <==> self.rules().contains_key(shape),
            r@.no_duplicates(),
    {
        let mut out: Vec<TileShape> = Vec::new();
        let mut i: usize = 0;
        while i < self.states.len()
            invariant
                i <= self.states@.len(),
                out@ == self.states@.subrange(0, i as int).map_values(|p: (TileShape, Vec<StateRules>)| p.0),
            decreases self.states@.len() - i,
        {
            out.push(self.states[i].0);
            i = i + 1;
            proof {
                assert(out@ =~= self.states@.subrange(0, i as int).map_values(|p: (TileShape, Vec<StateRules>)| p.0));
            }
        }
        proof {
            assert(self.states@.subrange(0, i as int) == self.states@);
            assert forall|shape: TileShape| out@.contains(shape) <==> self.rules().contains_key(shape) by {
                if out@.contains(shape) {
                    let j = choose|j: int| 0 <= j < out@.len() && out@[j] == shape;
                    assert(self.states@[j].0 == shape);
                    assert(has_key(self.states@, shape));
                }
                if self.rules().contains_key(shape) {
                    let j = key_index(self.states@, shape);
                    assert(out@[j] == shape);
                }
            }
        }
        out
    }

    pub fn get_num_states_for_shape(&self, shape: TileShape) -> (r: u32)
        requires
            self.wf(),
        ensures
            r == if self.rules().contains_key(shape) { self.rules()[shape].len() as u32 } else { 0u32 },
    {
        match find_shape(&self.states, shape) {
            Some(p) => {
                proof {
                    lemma_key_at(self.states@, p as int);
                }
                self.states[p].1.len() as u32
            },
            None => 0,
        }
    }

    pub fn clone_rules_for_shape(&self, shape: TileShape) -> (r: Vec<StateRules>)
        requires
            self.wf(),
        ensures
            rules_table(r@) == if self.rules().contains_key(shape) {
                self.rules()[shape]
            } else {
                Seq::<StateRulesView>::empty()
            },
    {
        match find_shape(&self.states, shape) {
            Some(p) => {
                proof {
                    lemma_key_at(self.states@, p as int);
                }
                clone_state_rules_list(&self.states[p].1)
            },
            None => {
                let r: Vec<StateRules> = Vec::new();
                proof {
                    assert(rules_table(r@) =~= Seq::<StateRulesView>::empty());
                }
                r
            },
        }
    }

    /// Marks the cell at `index` (wrapped into the tiling) to be set to `new_state`
    /// at the next step.
    pub fn set_at(&mut self, index: TileIndex, new_state: u32)
        requires
            old(self).wf(),
            adjust_index_defined(old(self).tiling, index),
        ensures
            final(self).wf(),
            final(self).manual() == old(self).manual().insert(adjusted_index(old(self).tiling, index), new_state),
            final(self).tiling == old(self).tiling,
            final(self).rules() == old(self).rules(),
            final(self).cells() == old(self).cells(),
            final(self).pending() == old(self).pending(),
            final(self).num_states == old(self).num_states,
            final(self).run_every == old(self).run_every,
            final(self).step == old(self).step,
            final(self).time_since_last_update == old(self).time_since_last_update,
    {
        let key = self.tiling.adjust_index(index);
        insert_value(&mut self.manual_sets, key, new_state);
    }

    /// Marks the cell at `index` (wrapped into the tiling) to move on to the next of
    /// the states of `shape` at the next step, the last one going round to 0.
    pub fn cycle_state(&mut self, index: TileIndex, shape: TileShape)
        requires
            old(self).wf(),
            adjust_index_defined(old(self).tiling, index),
            old(self).rules().contains_key(shape),
            0 < old(self).rules()[shape].len() <= u32::MAX,
        ensures
            final(self).wf(),
            final(self).manual() == old(self).manual().insert(
                adjusted_index(old(self).tiling, index),
                ((state_of(old(self).cells(), adjusted_index(old(self).tiling, index)) + 1) % (old(self).rules()[shape].len() as int)) as u32,
            ),
            final(self).tiling == old(self).tiling,
            final(self).rules() == old(self).rules(),
            final(self).cells() == old(self).cells(),
            final(self).pending() == old(self).pending(),
            final(self).num_states == old(self).num_states,
            final(self).run_every == old(self).run_every,
            final(self).step == old(self).step,
            final(self).time_since_last_update == old(self).time_since_last_update,
    {
        let count = self.get_num_states_for_shape(shape);
        let current = self.get_at(index);
        let wide: u64 = (current as u64 + 1) % (count as u64);
        let target = wide as u32;
        self.set_at(index, target);
    }

    /// The state of the cell at `index` (wrapped into the tiling).
    pub fn get_at(&self, index: TileIndex) -> (r: u32)
        requires
            self.wf(),
            adjust_index_defined(self.tiling, index),
        ensures
            r == state_of(self.cells(), adjusted_index(self.tiling, index)),
    {
        let key = self.tiling.adjust_index(index);
        match find_index(&self.index_to_state, key) {
            Some(p) => {
                proof {
                    lemma_key_at(self.index_to_state@, p as int);
                }
                self.index_to_state[p].1.state
            },
            None => 0,
        }
    }

    /// How many neighbours of the cell at `index` are in state `neighbor_state`; 0
    /// for a cell never set.
    pub fn get_neighbor_count(&self, index: TileIndex, neighbor_state: u32) -> (r: u32)
        requires
            self.wf(),
            adjust_index_defined(self.tiling, index),
            self.cells().contains_key(adjusted_index(self.tiling, index))
                ==> neighbor_state < self.cells()[adjusted_index(self.tiling, index)].1.len(),
        ensures
            r == if self.cells().contains_key(adjusted_index(self.tiling, index)) {
                self.cells()[adjusted_index(self.tiling, index)].1[neighbor_state as int]
            } else {
                0u32
            },
    {
        let key = self.tiling.adjust_index(index);
        match find_index(&self.index_to_state, key) {
            Some(p) => {
                proof {
                    lemma_key_at(self.index_to_state@, p as int);
                }
                self.index_to_state[p].1.neighbors_in_state[neighbor_state as usize]
            },
            None => 0,
        }
    }

    /// The state the cell at `index` will have after the next step: a manual set
    /// first, then a pending change, else its current state.
    pub fn get_pending(&self, index: TileIndex) -> (r: u32)
        requires
            self.wf(),
            adjust_index_defined(self.tiling, index),
        ensures
            r == if self.manual().contains_key(adjusted_index(self.tiling, index)) {
                self.manual()[adjusted_index(self.tiling, index)]
            } else if self.pending().contains_key(adjusted_index(self.tiling, index)) {
                self.pending()[adjusted_index(self.tiling, index)]
            } else {
                state_of(self.cells(), adjusted_index(self.tiling, index))
            },
    {
        let key = self.tiling.adjust_index(index);
        match find_index(&self.manual_sets, key) {
            Some(p) => {
                proof {
                    lemma_key_at(self.manual_sets@, p as int);
                }
                self.manual_sets[p].1
            },
            None => match find_index(&self.pending_sets, key) {
                Some(p) => {
                    proof {
                        lemma_key_at(self.pending_sets@, p as int);
                    }
                    self.pending_sets[p].1
                },
                None => self.get_at(index),
            },
        }
    }
}

proof fn lemma_cells_prefix(list: Seq<(TileIndex, SimulationCellState)>, i: int)
    requires
        keys_distinct(list),
        0 <= i < list.len(),
    ensures
        keys_distinct(list.subrange(0, i)),
        keys_distinct(list.subrange(0, i + 1)),
        !has_key(list.subrange(0, i), list[i].0),
        cells_map(list.subrange(0, i + 1)) == cells_map(list.subrange(0, i)).insert(list[i].0, cell_view(list[i].1)),
{
    let a = list.subrange(0, i);
    let b = list.subrange(0, i + 1);
    assert(b == a.push(list[i]));
    assert(keys_distinct(a)) by {
        assert forall|x: int, y: int| 0 <= x < a.len() && 0 <= y < a.len() && x != y implies a[x].0 != a[y].0 by {
            assert(a[x] == list[x] && a[y] == list[y]);
        }
    }
    assert(!has_key(a, list[i].0)) by {
        if has_key(a, list[i].0) {
            let j = key_index(a, list[i].0);
            assert(a[j] == list[j]);
        }
    }
    lemma_push(a, list[i].0, list[i].1);
    assert(cells_map(b) =~= cells_map(a).insert(list[i].0, cell_view(list[i].1)));
}

proof fn lemma_shape_rules_at(list: Seq<(TileShape, Vec<StateRules>)>, p: int)
    requires
        keys_distinct(list),
        0 <= p < list.len(),
    ensures
        shape_rules_map(list).contains_key(list[p].0),
        shape_rules_map(list)[list[p].0] == rules_table(list[p].1@),
{
    lemma_key_at(list, p);
}

proof fn lemma_shape_rules_update(list: Seq<(TileShape, Vec<StateRules>)>, p: int, v: Vec<StateRules>)
    requires
        keys_distinct(list),
        0 <= p < list.len(),
    ensures
        keys_distinct(list.update(p, (list[p].0, v))),
        shape_rules_map(list.update(p, (list[p].0, v))) == shape_rules_map(list).insert(list[p].0, rules_table(v@)),
{
    lemma_update(list, p, v);
    assert(shape_rules_map(list.update(p, (list[p].0, v))) =~= shape_rules_map(list).insert(list[p].0, rules_table(v@)));
}

impl SimulationState {
    /// Recomputes the pending change of every cell from the current rules.
    fn re_evaluate_cells(&mut self)
        requires
            old(self).wf(),
            reevaluation_defined(old(self).tiling, old(self).cells(), old(self).rules()),
        ensures
            final(self).wf(),
            final(self).pending() == reevaluated(old(self).tiling, old(self).cells(), old(self).rules()),
            final(self).tiling == old(self).tiling,
            final(self).states == old(self).states,
            final(self).index_to_state == old(self).index_to_state,
            final(self).manual_sets == old(self).manual_sets,
            final(self).num_states == old(self).num_states,
            final(self).run_every == old(self).run_every,
            final(self).step == old(self).step,
            final(self).time_since_last_update == old(self).time_since_last_update,
    {
        self.pending_sets = Vec::new();
        let ghost cells_list = self.index_to_state@;
        let mut i: usize = 0;
        proof {
            assert(cells_map(cells_list.subrange(0, 0)) =~= Map::<TileIndex, CellView>::empty());
            assert(assoc_map(self.pending_sets@) =~= reevaluated(self.tiling, cells_map(cells_list.subrange(0, 0)), self.rules()));
        }
        while i < self.index_to_state.len()
            invariant
                keys_distinct(self.states@),
                keys_distinct(self.index_to_state@),
                keys_distinct(self.manual_sets@),
                keys_distinct(self.pending_sets@),
                cells_list == self.index_to_state@,
                self.tiling == old(self).tiling,
                self.states == old(self).states,
                self.index_to_state == old(self).index_to_state,
                self.manual_sets == old(self).manual_sets,
                self.num_states == old(self).num_states,
                self.run_every == old(self).run_every,
                self.step == old(self).step,
                self.time_since_last_update == old(self).time_since_last_update,
                i <= cells_list.len(),
                reevaluation_defined(self.tiling, cells_map(cells_list), self.rules()),
                forall|c: TileIndex| #[trigger] assoc_map(self.pending_sets@).contains_key(c) ==> has_key(cells_list.subrange(0, i as int), c),
                assoc_map(self.pending_sets@) == reevaluated(self.tiling, cells_map(cells_list.subrange(0, i as int)), self.rules()),
            decreases cells_list.len() - i,
        {
            let index = self.index_to_state[i].0;
            proof {
                lemma_key_at(cells_list, i as int);
                lemma_cells_prefix(cells_list, i as int);
                assert(cells_map(cells_list).contains_key(index));
            }
            let shape = self.tiling.get_tile_at_index(index).shape;
            let ghost before = self.pending_sets@;
            let ghost prefix = cells_map(cells_list.subrange(0, i as int));
            let ghost next_prefix = cells_map(cells_list.subrange(0, i + 1));
            match find_shape(&self.states, shape) {
                Some(p) => {
                    proof {
                        lemma_shape_rules_at(self.states@, p as int);
                    }
                    match self.index_to_state[i].1.evaluate(&self.states[p].1) {
                        Some(next) => {
                            proof {
                                assert(!has_key(before, index)) by {
                                    if has_key(before, index) {
                                        assert(assoc_map(before).contains_key(index));
                                    }
                                }
                                lemma_push(before, index, next);
                            }
                            self.pending_sets.push((index, next));
                        },
                        None => {},
                    }
                },
                None => {},
            }
            i = i + 1;
            proof {
                assert(assoc_map(self.pending_sets@) =~= reevaluated(self.tiling, next_prefix, self.rules()));
                assert forall|c: TileIndex| #[trigger] assoc_map(self.pending_sets@).contains_key(c) implies has_key(cells_list.subrange(0, i as int), c) by {
                    assert(next_prefix.contains_key(c));
                }
            }
        }
        proof {
            assert(cells_list.subrange(0, i as int) == cells_list);
        }
    }

    /// Appends an empty rule to the rules of `state` of `shape`, then re-evaluates the
    /// cells.
    pub fn add_rule(&mut self, shape: TileShape, state: u32)
        requires
            old(self).wf(),
            reevaluation_defined(old(self).tiling, old(self).cells(), rules_after_add_rule(old(self).rules(), shape, state)),
        ensures
            final(self).wf(),
            final(self).rules() == rules_after_add_rule(old(self).rules(), shape, state),
            final(self).pending() == reevaluated(old(self).tiling, old(self).cells(), final(self).rules()),
            final(self).tiling == old(self).tiling,
            final(self).cells() == old(self).cells(),
            final(self).manual() == old(self).manual(),
            final(self).num_states == old(self).num_states,
            final(self).run_every == old(self).run_every,
            final(self).step == old(self).step,
            final(self).time_since_last_update == old(self).time_since_last_update,
    {
        let ghost old_list = self.states@;
        match find_shape(&self.states, shape) {
            Some(p) => {
                proof {
                    lemma_shape_rules_at(old_list, p as int);
                }
                if (state as usize) < self.states[p].1.len() {
                    let mut rules = clone_state_rules_list(&self.states[p].1);
                    let mut state_rules = rules[state as usize].clone();
                    let ghost rules_before = state_rules.rules@;
                    state_rules.rules.push(StateRule { min: 0, max: 0, neighbor_states_to_count: Vec::new(), output: 0 });
                    let ghost rules_vec = rules@;
                    rules.set(state as usize, state_rules);
                    proof {
                        assert(rules_table(rules@) =~= rules_table(rules_vec).update(state as int, state_rules_view(state_rules)));
                        assert(state_rules.rules@.map_values(|x: StateRule| rule_view(x)) =~= rules_before.map_values(
                            |x: StateRule| rule_view(x),
                        ).push((0u32, 0u32, Seq::<u32>::empty(), 0u32)));
                        lemma_shape_rules_update(old_list, p as int, rules);
                    }
                    self.states.set(p, (shape, rules));
                    proof {
                        assert(shape_rules_map(self.states@) =~= rules_after_add_rule(shape_rules_map(old_list), shape, state));
                    }
                }
            },
            None => {
                proof {
                    assert(!shape_rules_map(old_list).contains_key(shape));
                }
            },
        }
        self.re_evaluate_cells();
    }
}

proof fn lemma_first_position(s: Seq<u32>, v: u32, i: int)
    requires
        0 <= i < s.len(),
        s[i] == v,
        forall|j: int| 0 <= j < i ==> s[j] != v,
    ensures
        first_position(s, v) == i,
    decreases i,
{
    if i > 0 {
        lemma_first_position(s.drop_first(), v, i - 1);
    }
}

/// Toggles `value` among the counted states of a rule.
fn toggle_count(states: &mut Vec<u32>, value: u32)
    ensures
        final(states)@ == toggled(old(states)@, value),
{
    let mut i: usize = 0;
    while i < states.len()
        invariant
            i <= states@.len(),
            states@ == old(states)@,
            forall|j: int| 0 <= j < i ==> states@[j] != value,
        decreases states@.len() - i,
    {
        if states[i] == value {
            proof {
                lemma_first_position(states@, value, i as int);
                assert(states@.contains(value));
            }
            states.remove(i);
            return;
        }
        i = i + 1;
    }
    proof {
        assert(!states@.contains(value));
    }
    states.push(value);
}

proof fn lemma_cells_map_pointwise(old_list: Seq<(TileIndex, SimulationCellState)>, new_list: Seq<(TileIndex, SimulationCellState)>, from: int, to: int)
    requires
        keys_distinct(old_list),
        new_list.len() == old_list.len(),
        forall|j: int| 0 <= j < old_list.len() ==> (#[trigger] new_list[j]).0 == old_list[j].0,
        forall|j: int| 0 <= j < old_list.len() ==> cell_view((#[trigger] new_list[j]).1) == (
            old_list[j].1.state,
            old_list[j].1.neighbors_in_state@ + Seq::new((to - from) as nat, |k: int| 0u32),
        ),
    ensures
        keys_distinct(new_list),
        cells_map(new_list) == padded_cells(cells_map(old_list), from, to),
{
    assert forall|x: int, y: int| 0 <= x < new_list.len() && 0 <= y < new_list.len() && x != y implies new_list[x].0 != new_list[y].0 by {
        assert(new_list[x].0 == old_list[x].0);
        assert(new_list[y].0 == old_list[y].0);
    }
    assert forall|k: TileIndex| #[trigger] has_key(new_list, k) == has_key(old_list, k) by {
        if has_key(new_list, k) {
            let j = key_index(new_list, k);
            assert(old_list[j].0 == k);
        }
        if has_key(old_list, k) {
            let j = key_index(old_list, k);
            assert(new_list[j].0 == k);
        }
    }
    assert forall|k: TileIndex| #[trigger] cells_map(new_list).contains_key(k) implies cells_map(new_list)[k]
        == padded_cells(cells_map(old_list), from, to)[k] by {
        let j = key_index(new_list, k);
        lemma_key_at(new_list, j);
        assert(old_list[j].0 == k);
        lemma_key_at(old_list, j);
    }
    assert(cells_map(new_list) =~= padded_cells(cells_map(old_list), from, to));
}

impl SimulationState {
    /// Changes one value of the rules of `shape`, then re-evaluates the cells unless a
    /// default state was changed or the shape has no state `state`.
    pub fn set_rule_value(&mut self, shape: TileShape, state: u32, rule_number: usize, value: u32, target: RuleUpdateTarget)
        requires
            old(self).wf(),
            update_reevaluates(old(self).rules(), shape, state, target) ==> reevaluation_defined(
                old(self).tiling,
                old(self).cells(),
                rules_after_update(old(self).rules(), shape, state, rule_number, value, target),
            ),
        ensures
            final(self).wf(),
            final(self).rules() == rules_after_update(old(self).rules(), shape, state, rule_number, value, target),
            final(self).pending() == if update_reevaluates(old(self).rules(), shape, state, target) {
                reevaluated(old(self).tiling, old(self).cells(), final(self).rules())
            } else {
                old(self).pending()
            },
            final(self).tiling == old(self).tiling,
            final(self).cells() == old(self).cells(),
            final(self).manual() == old(self).manual(),
            final(self).num_states == old(self).num_states,
            final(self).run_every == old(self).run_every,
            final(self).step == old(self).step,
            final(self).time_since_last_update == old(self).time_since_last_update,
    {
        let ghost old_list = self.states@;
        match find_shape(&self.states, shape) {
            Some(p) => {
                proof {
                    lemma_shape_rules_at(old_list, p as int);
                }
                if state as usize >= self.states[p].1.len() {
                    return;
                }
                let mut rules = clone_state_rules_list(&self.states[p].1);
                proof {
                    assert(rules_table(rules@).len() == rules@.len());
                    assert(rules_table(self.states@[p as int].1@).len() == self.states@[p as int].1@.len());
                }
                let mut state_rules = rules[state as usize].clone();
                let ghost rules_vec = rules@;
                let ghost sr = state_rules_view(state_rules);
                if target == RuleUpdateTarget::DefaultValue {
                    state_rules.default_state = value;
                    rules.set(state as usize, state_rules);
                    proof {
                        assert(rules_table(rules@) =~= rules_table(rules_vec).update(state as int, (value, sr.1)));
                        lemma_shape_rules_update(old_list, p as int, rules);
                    }
                    self.states.set(p, (shape, rules));
                    return;
                }
                if rule_number < state_rules.rules.len() {
                    let mut rule = state_rules.rules[rule_number].clone();
                    let ghost before_rule = rule_view(rule);
                    match target {
                        RuleUpdateTarget::MinValue => {
                            rule.min = value;
                        },
                        RuleUpdateTarget::MaxValue => {
                            rule.max = value;
                        },
                        RuleUpdateTarget::ToggleCount => {
                            toggle_count(&mut rule.neighbor_states_to_count, value);
                        },
                        RuleUpdateTarget::ResultValue => {
                            rule.output = value;
                        },
                        RuleUpdateTarget::DefaultValue => {},
                    }
                    proof {
                        assert(rule_view(rule) == updated_rule(before_rule, target, value));
                    }
                    let ghost inner = state_rules.rules@;
                    state_rules.rules.set(rule_number, rule);
                    proof {
                        assert(state_rules.rules@.map_values(|x: StateRule| rule_view(x)) =~= inner.map_values(
                            |x: StateRule| rule_view(x),
                        ).update(rule_number as int, updated_rule(before_rule, target, value)));
                    }
                    rules.set(state as usize, state_rules);
                    proof {
                        assert(rules_table(rules@) =~= rules_table(rules_vec).update(state as int, state_rules_view(state_rules)));
                        lemma_shape_rules_update(old_list, p as int, rules);
                    }
                    self.states.set(p, (shape, rules));
                    proof {
                        assert(shape_rules_map(self.states@) =~= rules_after_update(shape_rules_map(old_list), shape, state, rule_number, value, target));
                    }
                }
            },
            None => {},
        }
        self.re_evaluate_cells();
    }

    /// Adds a state to `shape`, with default state 0 and no rule; when the shape now
    /// has more states than any before, every cell gets a zero count for each new
    /// state.
    pub fn add_state(&mut self, shape: TileShape)
        requires
            old(self).wf(),
        ensures
            final(self).wf(),
            final(self).rules() == if old(self).rules().contains_key(shape) {
                old(self).rules().insert(shape, old(self).rules()[shape].push((0u32, Seq::<RuleView>::empty())))
            } else {
                old(self).rules()
            },
            final(self).num_states == if old(self).rules().contains_key(shape) && old(self).num_states < old(self).rules()[shape].len() + 1 {
                (old(self).rules()[shape].len() + 1) as usize
            } else {
                old(self).num_states
            },
            final(self).cells() == if final(self).num_states > old(self).num_states {
                padded_cells(old(self).cells(), old(self).num_states as int, final(self).num_states as int)
            } else {
                old(self).cells()
            },
            final(self).tiling == old(self).tiling,
            final(self).manual() == old(self).manual(),
            final(self).pending() == old(self).pending(),
            final(self).run_every == old(self).run_every,
            final(self).step == old(self).step,
            final(self).time_since_last_update == old(self).time_since_last_update,
    {
        let ghost old_list = self.states@;
        match find_shape(&self.states, shape) {
            Some(p) => {
                proof {
                    lemma_shape_rules_at(old_list, p as int);
                }
                let mut rules = clone_state_rules_list(&self.states[p].1);
                let ghost rules_vec = rules@;
                let fresh = StateRules { default_state: 0, rules: Vec::new() };
                proof {
                    assert(state_rules_view(fresh).1 =~= Seq::<RuleView>::empty());
                }
                rules.push(fresh);
                let len = rules.len();
                proof {
                    assert(rules_table(rules@) =~= rules_table(rules_vec).push((0u32, Seq::<RuleView>::empty())));
                    lemma_shape_rules_update(old_list, p as int, rules);
                }
                self.states.set(p, (shape, rules));
                if self.num_states < len {
                    let extra = len - self.num_states;
                    let ghost old_cells = self.index_to_state@;
                    let ghost states_now = self.states@;
                    let ghost count_before = self.num_states;
                    let mut i: usize = 0;
                    while i < self.index_to_state.len()
                        invariant
                            i <= old_cells.len(),
                            self.states@ == states_now,
                            self.num_states == count_before,
                            extra == len - count_before,
                            self.tiling == old(self).tiling,
                            self.manual_sets == old(self).manual_sets,
                            self.pending_sets == old(self).pending_sets,
                            self.run_every == old(self).run_every,
                            self.step == old(self).step,
                            self.time_since_last_update == old(self).time_since_last_update,
                            self.index_to_state@.len() == old_cells.len(),
                            keys_distinct(old_cells),
                            forall|j: int| 0 <= j < old_cells.len() ==> (#[trigger] self.index_to_state@[j]).0 == old_cells[j].0,
                            forall|j: int| 0 <= j < i ==> cell_view((#[trigger] self.index_to_state@[j]).1) == (
                                old_cells[j].1.state,
                                old_cells[j].1.neighbors_in_state@ + Seq::new(extra as nat, |k: int| 0u32),
                            ),
                            forall|j: int| i <= j < old_cells.len() ==> #[trigger] self.index_to_state@[j] == old_cells[j],
                        decreases old_cells.len() - i,
                    {
                        let key = self.index_to_state[i].0;
                        let cell_state = self.index_to_state[i].1.state;
                        let mut counts = self.index_to_state[i].1.neighbors_in_state.clone();
                        let ghost start = counts@;
                        let mut k: usize = 0;
                        while k < extra
                            invariant
                                k <= extra,
                                counts@ == start + Seq::new(k as nat, |m: int| 0u32),
                            decreases extra - k,
                        {
                            counts.push(0);
                            k = k + 1;
                            proof {
                                assert(counts@ =~= start + Seq::new(k as nat, |m: int| 0u32));
                            }
                        }
                        proof {
                            assert(start == old_cells[i as int].1.neighbors_in_state@);
                        }
                        self.index_to_state.set(i, (key, SimulationCellState { state: cell_state, neighbors_in_state: counts }));
                        i = i + 1;
                    }
                    proof {
                        assert(len - self.num_states == extra);
                        lemma_cells_map_pointwise(old_cells, self.index_to_state@, self.num_states as int, len as int);
                    }
                    self.num_states = len;
                }
                proof {
                    assert(shape_rules_map(self.states@) =~= shape_rules_map(old_list).insert(
                        shape,
                        shape_rules_map(old_list)[shape].push((0u32, Seq::<RuleView>::empty())),
                    ));
                }
            },
            None => {},
        }
    }
}

/// The tile reached from `c` by offset `o`, wrapped into the tiling.
pub open spec fn neighbor_at(t: Tiling, c: TileIndex, o: (i32, i32)) -> TileIndex {
    adjusted_index(t, TileIndex { x: (c.x + o.0) as i32, y: (c.y + o.1) as i32 })
}

/// The `k`-th neighbour of `c`.
pub open spec fn kth_neighbor(t: Tiling, c: TileIndex, k: int) -> TileIndex {
    neighbor_at(t, c, neighbors_of(t, c)[k])
}

pub open spec fn degree(t: Tiling, c: TileIndex) -> int {
    neighbors_of(t, c).len() as int
}

/// How many of the first `n` neighbours of `c` are in state `s`.
pub open spec fn count_matching(t: Tiling, cells: Map<TileIndex, CellView>, c: TileIndex, s: u32, n: int) -> int
    decreases n,
{
    if n <= 0 {
        0
    } else {
        count_matching(t, cells, c, s, n - 1) + if state_of(cells, kth_neighbor(t, c, n - 1)) == s { 1int } else { 0int }
    }
}

/// How many of the first `n` neighbours of `c` are the tile `m`.
pub open spec fn multiplicity(t: Tiling, c: TileIndex, m: TileIndex, n: int) -> int
    decreases n,
{
    if n <= 0 {
        0
    } else {
        multiplicity(t, c, m, n - 1) + if kth_neighbor(t, c, n - 1) == m { 1int } else { 0int }
    }
}

/// The neighbours of `c` can be computed without overflow.
pub open spec fn neighbors_defined(t: Tiling, c: TileIndex) -> bool {
    &&& shape_defined(t, c)
    &&& forall|k: int| 0 <= k < degree(t, c) ==> {
        let o = #[trigger] neighbors_of(t, c)[k];
        &&& i32::MIN <= c.x + o.0 <= i32::MAX
        &&& i32::MIN <= c.y + o.1 <= i32::MAX
        &&& adjust_index_defined(t, TileIndex { x: (c.x + o.0) as i32, y: (c.y + o.1) as i32 })
    }
}

/// The automaton can step on this tiling: the neighbours of every tile can be
/// computed, and a tile is as often a neighbour of another as that one is of it.
pub open spec fn tiling_steppable(t: Tiling) -> bool {
    &&& forall|c: TileIndex| #[trigger] index_in_bounds(t, c) ==> neighbors_defined(t, c)
    &&& forall|c: TileIndex, m: TileIndex| index_in_bounds(t, c) && index_in_bounds(t, m)
        ==> #[trigger] multiplicity(t, c, m, degree(t, c)) == #[trigger] multiplicity(t, m, c, degree(t, m))
}

/// Every rule counts states that exist and few enough of them for any count to fit,
/// and every tile shape has rules.
pub open spec fn rules_steppable(t: Tiling, rules: Map<TileShape, Seq<StateRulesView>>, num_states: usize) -> bool {
    &&& forall|c: TileIndex| #[trigger] index_in_bounds(t, c) ==> rules.contains_key(shape_at(t, c)) && rules[shape_at(t, c)].len() > 0
    &&& forall|shape: TileShape, st: int, k: int, q: int| rules.contains_key(shape) && 0 <= st < rules[shape].len()
        && 0 <= k < rules[shape][st].1.len() && 0 <= q < rules[shape][st].1[k].2.len()
        ==> #[trigger] rules[shape][st].1[k].2[q] < num_states
    &&& forall|shape: TileShape, st: int, k: int| rules.contains_key(shape) && 0 <= st < rules[shape].len()
        && 0 <= k < rules[shape][st].1.len() ==> 16 * (#[trigger] rules[shape][st].1[k]).2.len() <= u32::MAX
}

/// The bookkeeping of every cell agrees with the states of its neighbours: it lies
/// in the tiling, its state has rules, it has one count per state, the counts add
/// up to its number of neighbours and count the neighbours in each state, and a
/// cell that is not in state 0 has all its neighbours set up.
pub open spec fn cells_consistent(t: Tiling, rules: Map<TileShape, Seq<StateRulesView>>, cells: Map<TileIndex, CellView>, num_states: usize) -> bool {
    forall|c: TileIndex| #[trigger] cells.contains_key(c) ==> {
        &&& index_in_bounds(t, c)
        &&& cells[c].0 < num_states
        &&& cells[c].0 < rules[shape_at(t, c)].len()
        &&& cells[c].1.len() == num_states
        &&& total(cells[c].1) == degree(t, c)
        &&& forall|s: u32| s < num_states ==> #[trigger] cells[c].1[s as int] == count_matching(t, cells, c, s, degree(t, c))
        &&& cells[c].0 != 0 ==> forall|k: int| 0 <= k < degree(t, c) ==> cells.contains_key(#[trigger] kth_neighbor(t, c, k))
    }
}

/// A state may be given to the cell at `k`.
pub open spec fn settable(t: Tiling, rules: Map<TileShape, Seq<StateRulesView>>, num_states: usize, k: TileIndex, v: u32) -> bool {
    &&& index_in_bounds(t, k)
    &&& v < num_states
    &&& v < rules[shape_at(t, k)].len()
}

/// The changes a step applies: the manual sets, and the pending changes where no
/// manual set is given.
pub open spec fn merged_sets(manual: Map<TileIndex, u32>, pending: Map<TileIndex, u32>) -> Map<TileIndex, u32> {
    pending.union_prefer_right(manual)
}

/// Whether this step takes in the pending changes.
pub open spec fn takes_pending(step: u32, run_every: u32, time_since_last_update: u32) -> bool {
    step > 0 || (run_every != 0 && time_since_last_update == 0)
}

/// Whether a cell is set by a step or neighbours a cell that is.
pub open spec fn touched(t: Tiling, sets: Map<TileIndex, u32>, c: TileIndex) -> bool {
    sets.contains_key(c) || exists|m: TileIndex, k: int| sets.contains_key(m) && 0 <= k < degree(t, m) && #[trigger] kth_neighbor(t, m, k) == c
}

/// The pending change recorded for `c` is the one its rules give now.
pub open spec fn pending_matches(t: Tiling, rules: Map<TileShape, Seq<StateRulesView>>, cells: Map<TileIndex, CellView>, pending: Map<TileIndex, u32>, c: TileIndex) -> bool {
    &&& cells.contains_key(c)
    &&& pending.contains_key(c) == (next_state(rules[shape_at(t, c)], cells[c].0, cells[c].1) is Some)
    &&& pending.contains_key(c) ==> pending[c] == next_state(rules[shape_at(t, c)], cells[c].0, cells[c].1)->0
}

pub open spec fn indicator(b: bool) -> int {
    if b { 1 } else { 0 }
}

proof fn lemma_count_changed_state(
    t: Tiling,
    a: Map<TileIndex, CellView>,
    b: Map<TileIndex, CellView>,
    c: TileIndex,
    s: u32,
    n: int,
    key: TileIndex,
    old_value: u32,
    value: u32,
)
    requires
        forall|m: TileIndex| m != key ==> #[trigger] state_of(b, m) == state_of(a, m),
        state_of(a, key) == old_value,
        state_of(b, key) == value,
    ensures
        count_matching(t, b, c, s, n) == count_matching(t, a, c, s, n)
            + multiplicity(t, c, key, n) * (indicator(s == value) - indicator(s == old_value)),
    decreases n,
{
    if n > 0 {
        lemma_count_changed_state(t, a, b, c, s, n - 1, key, old_value, value);
        let m = kth_neighbor(t, c, n - 1);
        if m != key {
            assert(state_of(b, m) == state_of(a, m));
        }
        assert(multiplicity(t, c, key, n) * (indicator(s == value) - indicator(s == old_value))
            == multiplicity(t, c, key, n - 1) * (indicator(s == value) - indicator(s == old_value))
                + indicator(m == key) * (indicator(s == value) - indicator(s == old_value))) by (nonlinear_arith)
            requires
                multiplicity(t, c, key, n) == multiplicity(t, c, key, n - 1) + indicator(m == key),
        ;
    }
}

proof fn lemma_count_same_states(t: Tiling, a: Map<TileIndex, CellView>, b: Map<TileIndex, CellView>, c: TileIndex, s: u32, n: int)
    requires
        forall|m: TileIndex| #[trigger] state_of(b, m) == state_of(a, m),
    ensures
        count_matching(t, b, c, s, n) == count_matching(t, a, c, s, n),
    decreases n,
{
    if n > 0 {
        lemma_count_same_states(t, a, b, c, s, n - 1);
        assert(state_of(b, kth_neighbor(t, c, n - 1)) == state_of(a, kth_neighbor(t, c, n - 1)));
    }
}

proof fn lemma_count_quiet_neighbors(t: Tiling, cells: Map<TileIndex, CellView>, c: TileIndex, key: TileIndex, value: u32, s: u32, n: int)
    requires
        forall|k: int| 0 <= k < n && kth_neighbor(t, c, k) != key ==> state_of(cells, #[trigger] kth_neighbor(t, c, k)) == 0,
        state_of(cells, key) == value,
    ensures
        count_matching(t, cells, c, s, n) == multiplicity(t, c, key, n) * indicator(s == value)
            + (if n > 0 { n } else { 0 } - multiplicity(t, c, key, n)) * indicator(s == 0),
    decreases n,
{
    if n > 0 {
        lemma_count_quiet_neighbors(t, cells, c, key, value, s, n - 1);
        let m = kth_neighbor(t, c, n - 1);
        if m != key {
            assert(state_of(cells, m) == 0);
        }
        let mu = multiplicity(t, c, key, n - 1);
        assert(multiplicity(t, c, key, n) == mu + indicator(m == key));
        assert(mu * indicator(s == value) + (if n - 1 > 0 { n - 1 } else { 0 } - mu) * indicator(s == 0)
            + indicator(state_of(cells, m) == s)
            == (mu + indicator(m == key)) * indicator(s == value) + (n - (mu + indicator(m == key))) * indicator(s == 0))
            by (nonlinear_arith)
            requires
                n >= 1,
                m == key ==> state_of(cells, m) == value,
                m != key ==> state_of(cells, m) == 0,
                indicator(m == key) == if m == key { 1int } else { 0int },
                indicator(state_of(cells, m) == s) == if state_of(cells, m) == s { 1int } else { 0int },
                indicator(s == value) == if s == value { 1int } else { 0int },
                indicator(s == 0) == if s == 0 { 1int } else { 0int },
        ;
    }
}

proof fn lemma_multiplicity_witness(t: Tiling, c: TileIndex, m: TileIndex, n: int)
    ensures
        multiplicity(t, c, m, n) > 0 <==> exists|k: int| 0 <= k < n && #[trigger] kth_neighbor(t, c, k) == m,
        0 <= multiplicity(t, c, m, n),
        multiplicity(t, c, m, n) <= if n > 0 { n } else { 0 },
    decreases n,
{
    if n > 0 {
        lemma_multiplicity_witness(t, c, m, n - 1);
        if multiplicity(t, c, m, n) > 0 {
            if multiplicity(t, c, m, n - 1) > 0 {
                let k = choose|k: int| 0 <= k < n - 1 && #[trigger] kth_neighbor(t, c, k) == m;
                assert(0 <= k < n && kth_neighbor(t, c, k) == m);
            } else {
                assert(kth_neighbor(t, c, n - 1) == m);
            }
        }
        if exists|k: int| 0 <= k < n && #[trigger] kth_neighbor(t, c, k) == m {
            let k = choose|k: int| 0 <= k < n && #[trigger] kth_neighbor(t, c, k) == m;
            if k < n - 1 {
                assert(multiplicity(t, c, m, n - 1) > 0);
            }
        }
    }
}

proof fn lemma_count_bounds(t: Tiling, cells: Map<TileIndex, CellView>, c: TileIndex, s: u32, n: int)
    ensures
        0 <= count_matching(t, cells, c, s, n) <= if n > 0 { n } else { 0 },
    decreases n,
{
    if n > 0 {
        lemma_count_bounds(t, cells, c, s, n - 1);
    }
}

proof fn lemma_element_le_total(s: Seq<u32>, i: int)
    requires
        0 <= i < s.len(),
    ensures
        s[i] <= total(s),
        0 <= total(s),
    decreases s.len(),
{
    if i < s.len() - 1 {
        lemma_element_le_total(s.drop_last(), i);
    } else {
        lemma_total_nonneg(s.drop_last());
    }
}

proof fn lemma_total_nonneg(s: Seq<u32>)
    ensures
        0 <= total(s),
    decreases s.len(),
{
    if s.len() > 0 {
        lemma_total_nonneg(s.drop_last());
    }
}

proof fn lemma_count_in_bound(states: Seq<u32>, counts: Seq<u32>, bound: int)
    requires
        forall|i: int| 0 <= i < states.len() ==> #[trigger] states[i] < counts.len(),
        forall|i: int| 0 <= i < counts.len() ==> #[trigger] counts[i] <= bound,
        bound >= 0,
    ensures
        count_in(states, counts) <= states.len() * bound,
    decreases states.len(),
{
    if states.len() > 0 {
        lemma_count_in_bound(states.drop_last(), counts, bound);
        assert(states.drop_last().len() * bound + bound == states.len() * bound) by (nonlinear_arith)
            requires
                states.drop_last().len() + 1 == states.len(),
        ;
        assert(states.last() == states[states.len() - 1]);
    }
}

proof fn lemma_outcome_defined(rules: Seq<RuleView>, counts: Seq<u32>, i: int)
    requires
        forall|k: int| 0 <= k < rules.len() ==> count_defined(#[trigger] rules[k].2, counts),
    ensures
        outcome_defined(rules, counts, i),
    decreases rules.len() - i,
{
    if 0 <= i < rules.len() {
        lemma_outcome_defined(rules, counts, i + 1);
    }
}

proof fn lemma_degree_bound(t: Tiling, c: TileIndex)
    ensures
        0 <= degree(t, c) <= 14,
{
}

/// Under steppable rules, a cell whose counts add up to its number of neighbours can
/// be evaluated.
proof fn lemma_evaluation_defined(t: Tiling, rules: Map<TileShape, Seq<StateRulesView>>, num_states: usize, c: TileIndex, state: u32, counts: Seq<u32>)
    requires
        rules_steppable(t, rules, num_states),
        index_in_bounds(t, c),
        state < rules[shape_at(t, c)].len(),
        counts.len() == num_states,
        total(counts) == degree(t, c),
    ensures
        evaluation_defined(rules[shape_at(t, c)], state, counts),
{
    let shape = shape_at(t, c);
    assert(rules.contains_key(shape));
    let rs = rules[shape][state as int].1;
    lemma_degree_bound(t, c);
    assert forall|i: int| 0 <= i < counts.len() implies #[trigger] counts[i] <= 16 by {
        lemma_element_le_total(counts, i);
    }
    assert forall|k: int| 0 <= k < rs.len() implies count_defined(#[trigger] rs[k].2, counts) by {
        assert forall|q: int| 0 <= q < rs[k].2.len() implies rs[k].2[q] < counts.len() by {
            assert(rules[shape][state as int].1[k].2[q] < num_states);
        }
        assert(16 * rules[shape][state as int].1[k].2.len() <= u32::MAX);
        lemma_count_in_bound(rs[k].2, counts, 16);
    }
    lemma_outcome_defined(rs, counts, 0);
}

proof fn lemma_count_covers_key(t: Tiling, cells: Map<TileIndex, CellView>, c: TileIndex, key: TileIndex, s: u32, n: int)
    requires
        state_of(cells, key) == s,
    ensures
        count_matching(t, cells, c, s, n) >= multiplicity(t, c, key, n),
    decreases n,
{
    if n > 0 {
        lemma_count_covers_key(t, cells, c, key, s, n - 1);
    }
}

/// The counts a cell has before a neighbour is told of a change: its own counts, or
/// those of a fresh cell with all neighbours in state 0.
pub open spec fn counts_before(t: Tiling, cells: Map<TileIndex, CellView>, n: TileIndex, num_states: usize) -> Seq<u32> {
    if cells.contains_key(n) {
        cells[n].1
    } else {
        fresh_counts(degree(t, n) as u32, num_states)
    }
}

impl SimulationState {
    /// The position of the rules of the shape of the tile at `index`.
    fn rules_position(&self, index: TileIndex) -> (p: usize)
        requires
            self.wf(),
            shape_defined(self.tiling, index),
            self.rules().contains_key(shape_at(self.tiling, index)),
        ensures
            p < self.states@.len(),
            self.states@[p as int].0 == shape_at(self.tiling, index),
            self.rules()[shape_at(self.tiling, index)] == rules_table(self.states@[p as int].1@),
    {
        let shape = self.tiling.get_tile_at_index(index).shape;
        match find_shape(&self.states, shape) {
            Some(p) => {
                proof {
                    lemma_shape_rules_at(self.states@, p as int);
                }
                p
            },
            None => {
                proof {
                    assert(!self.rules().contains_key(shape));
                }
                0
            },
        }
    }
}

impl SimulationState {
    /// Tells the cell at `neighbor_index` that one of its neighbours moved from
    /// `old_value` to `value`, setting the cell up first if it was never set, and
    /// records its pending change.
    fn notify_neighbor(&mut self, neighbor_index: TileIndex, old_value: u32, value: u32)
        requires
            old(self).wf(),
            index_in_bounds(old(self).tiling, neighbor_index),
            neighbors_defined(old(self).tiling, neighbor_index),
            old(self).rules().contains_key(shape_at(old(self).tiling, neighbor_index)),
            change_defined(counts_before(old(self).tiling, old(self).cells(), neighbor_index, old(self).num_states), old_value, value),
            evaluation_defined(
                old(self).rules()[shape_at(old(self).tiling, neighbor_index)],
                state_of(old(self).cells(), neighbor_index),
                changed_counts(counts_before(old(self).tiling, old(self).cells(), neighbor_index, old(self).num_states), old_value, value),
            ),
        ensures
            final(self).wf(),
            final(self).cells() == old(self).cells().insert(
                neighbor_index,
                (
                    state_of(old(self).cells(), neighbor_index),
                    changed_counts(counts_before(old(self).tiling, old(self).cells(), neighbor_index, old(self).num_states), old_value, value),
                ),
            ),
            final(self).pending() == match next_state(
                old(self).rules()[shape_at(old(self).tiling, neighbor_index)],
                state_of(old(self).cells(), neighbor_index),
                changed_counts(counts_before(old(self).tiling, old(self).cells(), neighbor_index, old(self).num_states), old_value, value),
            ) {
                Some(n) => old(self).pending().insert(neighbor_index, n),
                None => old(self).pending().remove(neighbor_index),
            },
            final(self).tiling == old(self).tiling,
            final(self).states == old(self).states,
            final(self).manual_sets == old(self).manual_sets,
            final(self).num_states == old(self).num_states,
            final(self).run_every == old(self).run_every,
            final(self).step == old(self).step,
            final(self).time_since_last_update == old(self).time_since_last_update,
    {
        let p = self.rules_position(neighbor_index);
        let ghost old_list = self.index_to_state@;
        let next = match find_index(&self.index_to_state, neighbor_index) {
            Some(q) => {
                proof {
                    lemma_key_at(old_list, q as int);
                }
                let mut cell = SimulationCellState {
                    state: self.index_to_state[q].1.state,
                    neighbors_in_state: self.index_to_state[q].1.neighbors_in_state.clone(),
                };
                let next = cell.apply_change(old_value, value, &self.states[p].1);
                self.index_to_state.set(q, (neighbor_index, cell));
                proof {
                    lemma_update(old_list, q as int, cell);
                    assert(cells_map(self.index_to_state@) =~= cells_map(old_list).insert(neighbor_index, cell_view(cell)));
                }
                next
            },
            None => {
                let count = self.tiling.get_neighbors(neighbor_index).len();
                proof {
                    lemma_degree_bound(self.tiling, neighbor_index);
                }
                let mut cell = SimulationCellState::new(0, count as u32, self.num_states);
                let next = cell.apply_change(old_value, value, &self.states[p].1);
                self.index_to_state.push((neighbor_index, cell));
                proof {
                    lemma_push(old_list, neighbor_index, cell);
                    assert(cells_map(self.index_to_state@) =~= cells_map(old_list).insert(neighbor_index, cell_view(cell)));
                }
                next
            },
        };
        match next {
            Some(n) => insert_value(&mut self.pending_sets, neighbor_index, n),
            None => remove_value(&mut self.pending_sets, neighbor_index),
        }
    }
}

/// The counts of every cell agree with the current states, except that the move of
/// `key` from `old_value` to `value` has not yet been told to the neighbours of
/// `key` from position `j` on; and a cell other than `key` that is not in state 0
/// has all its neighbours set up.
pub open spec fn counts_pending_change(
    t: Tiling,
    rules: Map<TileShape, Seq<StateRulesView>>,
    cells: Map<TileIndex, CellView>,
    num_states: usize,
    key: TileIndex,
    old_value: u32,
    value: u32,
    j: int,
) -> bool {
    forall|c: TileIndex| #[trigger] cells.contains_key(c) ==> {
        &&& index_in_bounds(t, c)
        &&& cells[c].0 < num_states
        &&& cells[c].0 < rules[shape_at(t, c)].len()
        &&& cells[c].1.len() == num_states
        &&& total(cells[c].1) == degree(t, c)
        &&& forall|s: u32| s < num_states ==> #[trigger] cells[c].1[s as int] == count_matching(t, cells, c, s, degree(t, c))
            - (multiplicity(t, key, c, degree(t, key)) - multiplicity(t, key, c, j)) * (indicator(s == value) - indicator(s == old_value))
        &&& (cells[c].0 != 0 && c != key) ==> forall|k: int| 0 <= k < degree(t, c) ==> cells.contains_key(#[trigger] kth_neighbor(t, c, k))
    }
}

proof fn lemma_multiplicity_monotone(t: Tiling, c: TileIndex, m: TileIndex, a: int, b: int)
    requires
        0 <= a <= b,
    ensures
        multiplicity(t, c, m, a) <= multiplicity(t, c, m, b),
    decreases b - a,
{
    if a < b {
        lemma_multiplicity_monotone(t, c, m, a, b - 1);
    }
}

proof fn lemma_changed_counts_at(counts: Seq<u32>, old_value: u32, value: u32, s: u32)
    requires
        change_defined(counts, old_value, value),
        s < counts.len(),
    ensures
        changed_counts(counts, old_value, value)[s as int] == counts[s as int] - indicator(s == old_value) + indicator(s == value),
        changed_counts(counts, old_value, value).len() == counts.len(),
{
}

/// A neighbour of a cell that was never set is in state 0, unless it is `except`.
proof fn lemma_unset_cell_has_quiet_neighbors(
    t: Tiling,
    rules: Map<TileShape, Seq<StateRulesView>>,
    cells0: Map<TileIndex, CellView>,
    cells: Map<TileIndex, CellView>,
    num_states: usize,
    n: TileIndex,
    except: TileIndex,
    k: int,
)
    requires
        tiling_steppable(t),
        cells_consistent(t, rules, cells0, num_states),
        index_in_bounds(t, n),
        !cells.contains_key(n),
        forall|c: TileIndex| #[trigger] cells0.contains_key(c) ==> cells.contains_key(c),
        forall|c: TileIndex| c != except ==> #[trigger] state_of(cells, c) == state_of(cells0, c),
        0 <= k < degree(t, n),
        kth_neighbor(t, n, k) != except,
    ensures
        state_of(cells, kth_neighbor(t, n, k)) == 0,
{
    let m = kth_neighbor(t, n, k);
    if state_of(cells, m) != 0 {
        assert(state_of(cells0, m) != 0);
        assert(cells0.contains_key(m));
        lemma_multiplicity_witness(t, n, m, degree(t, n));
        assert(multiplicity(t, n, m, degree(t, n)) > 0);
        assert(index_in_bounds(t, m));
        assert(multiplicity(t, m, n, degree(t, m)) > 0);
        lemma_multiplicity_witness(t, m, n, degree(t, m));
        let k2 = choose|k2: int| 0 <= k2 < degree(t, m) && #[trigger] kth_neighbor(t, m, k2) == n;
        assert(cells0.contains_key(kth_neighbor(t, m, k2)));
    }
}

/// Once `key` holds its new state, the bookkeeping holds with no neighbour told yet.
proof fn lemma_start_change(
    t: Tiling,
    rules: Map<TileShape, Seq<StateRulesView>>,
    cells0: Map<TileIndex, CellView>,
    cells1: Map<TileIndex, CellView>,
    num_states: usize,
    key: TileIndex,
    old_value: u32,
    value: u32,
)
    requires
        tiling_steppable(t),
        rules_steppable(t, rules, num_states),
        num_states >= 1,
        cells_consistent(t, rules, cells0, num_states),
        settable(t, rules, num_states, key, value),
        old_value == state_of(cells0, key),
        cells1 == cells0.insert(key, (value, if cells0.contains_key(key) { cells0[key].1 } else { fresh_counts(degree(t, key) as u32, num_states) })),
        !cells0.contains_key(key) ==> total(fresh_counts(degree(t, key) as u32, num_states)) == degree(t, key),
    ensures
        counts_pending_change(t, rules, cells1, num_states, key, old_value, value, 0),
{
    assert forall|c: TileIndex| c != key implies #[trigger] state_of(cells1, c) == state_of(cells0, c) by {}
    assert(state_of(cells1, key) == value);
    lemma_degree_bound(t, key);
    if !cells0.contains_key(key) {
        assert forall|k: int| 0 <= k < degree(t, key) && kth_neighbor(t, key, k) != key
            implies state_of(cells0, #[trigger] kth_neighbor(t, key, k)) == 0 by {
            lemma_unset_cell_has_quiet_neighbors(t, rules, cells0, cells0, num_states, key, key, k);
        }
    }
    assert forall|c: TileIndex| #[trigger] cells1.contains_key(c) implies {
        &&& index_in_bounds(t, c)
        &&& cells1[c].0 < num_states
        &&& cells1[c].0 < rules[shape_at(t, c)].len()
        &&& cells1[c].1.len() == num_states
        &&& total(cells1[c].1) == degree(t, c)
        &&& forall|s: u32| s < num_states ==> #[trigger] cells1[c].1[s as int] == count_matching(t, cells1, c, s, degree(t, c))
            - (multiplicity(t, key, c, degree(t, key)) - multiplicity(t, key, c, 0)) * (indicator(s == value) - indicator(s == old_value))
        &&& (cells1[c].0 != 0 && c != key) ==> forall|k: int| 0 <= k < degree(t, c) ==> cells1.contains_key(#[trigger] kth_neighbor(t, c, k))
    } by {
        assert(index_in_bounds(t, c));
        assert(multiplicity(t, c, key, degree(t, c)) == multiplicity(t, key, c, degree(t, key)));
        assert forall|s: u32| s < num_states implies #[trigger] cells1[c].1[s as int] == count_matching(t, cells1, c, s, degree(t, c))
            - (multiplicity(t, key, c, degree(t, key)) - multiplicity(t, key, c, 0)) * (indicator(s == value) - indicator(s == old_value)) by {
            lemma_count_changed_state(t, cells0, cells1, c, s, degree(t, c), key, old_value, value);
            if c == key && !cells0.contains_key(key) {
                lemma_count_quiet_neighbors(t, cells0, key, key, 0, s, degree(t, key));
                let mu = multiplicity(t, key, key, degree(t, key));
                assert(mu * indicator(s == 0) + (degree(t, key) - mu) * indicator(s == 0) == degree(t, key) * indicator(s == 0))
                    by (nonlinear_arith);
            }
        }
        if cells1[c].0 != 0 && c != key {
            assert(cells0.contains_key(c));
            assert forall|k: int| 0 <= k < degree(t, c) implies cells1.contains_key(#[trigger] kth_neighbor(t, c, k)) by {
                assert(cells0.contains_key(kth_neighbor(t, c, k)));
            }
        }
    }
}

/// Before the `j`-th neighbour of `key` is told of the move, its counts (or those of a
/// fresh cell) fit the bookkeeping, and the change can be applied and evaluated.
#[verifier::rlimit(40)]
#[verifier::spinoff_prover]
proof fn lemma_notify_ready(
    t: Tiling,
    rules: Map<TileShape, Seq<StateRulesView>>,
    cells0: Map<TileIndex, CellView>,
    cells_j: Map<TileIndex, CellView>,
    num_states: usize,
    key: TileIndex,
    old_value: u32,
    value: u32,
    j: int,
)
    requires
        tiling_steppable(t),
        rules_steppable(t, rules, num_states),
        num_states >= 1,
        cells_consistent(t, rules, cells0, num_states),
        settable(t, rules, num_states, key, value),
        old_value == state_of(cells0, key),
        0 <= j < degree(t, key),
        counts_pending_change(t, rules, cells_j, num_states, key, old_value, value, j),
        cells_j.contains_key(key),
        forall|c: TileIndex| #[trigger] state_of(cells_j, c) == if c == key { value } else { state_of(cells0, c) },
        forall|c: TileIndex| #[trigger] cells0.contains_key(c) ==> cells_j.contains_key(c),
        forall|k: int| 0 <= k < j ==> cells_j.contains_key(#[trigger] kth_neighbor(t, key, k)),
    ensures
        index_in_bounds(t, kth_neighbor(t, key, j)),
        neighbors_defined(t, kth_neighbor(t, key, j)),
        rules.contains_key(shape_at(t, kth_neighbor(t, key, j))),
        change_defined(counts_before(t, cells_j, kth_neighbor(t, key, j), num_states), old_value, value),
        evaluation_defined(
            rules[shape_at(t, kth_neighbor(t, key, j))],
            state_of(cells_j, kth_neighbor(t, key, j)),
            changed_counts(counts_before(t, cells_j, kth_neighbor(t, key, j), num_states), old_value, value),
        ),
        counts_before(t, cells_j, kth_neighbor(t, key, j), num_states).len() == num_states,
        total(changed_counts(counts_before(t, cells_j, kth_neighbor(t, key, j), num_states), old_value, value)) == degree(t, kth_neighbor(t, key, j)),
        state_of(cells_j, kth_neighbor(t, key, j)) < num_states,
        state_of(cells_j, kth_neighbor(t, key, j)) < rules[shape_at(t, kth_neighbor(t, key, j))].len(),
        forall|s: u32| s < num_states ==> #[trigger] counts_before(t, cells_j, kth_neighbor(t, key, j), num_states)[s as int]
            == count_matching(t, cells_j, kth_neighbor(t, key, j), s, degree(t, kth_neighbor(t, key, j)))
                - (multiplicity(t, key, kth_neighbor(t, key, j), degree(t, key)) - multiplicity(t, key, kth_neighbor(t, key, j), j))
                    * (indicator(s == value) - indicator(s == old_value)),
{
    let n = kth_neighbor(t, key, j);
    let deg = degree(t, key);
    assert(index_in_bounds(t, key));
    assert(neighbors_defined(t, key));
    assert(index_in_bounds(t, n));
    assert(neighbors_defined(t, n));
    lemma_degree_bound(t, n);
    lemma_multiplicity_witness(t, key, n, j);
    lemma_multiplicity_monotone(t, key, n, j + 1, deg);
    let before = counts_before(t, cells_j, n, num_states);
    let delta = multiplicity(t, key, n, deg) - multiplicity(t, key, n, j);
    assert(delta >= 1);
    assert(multiplicity(t, key, n, deg) == multiplicity(t, n, key, degree(t, n)));
    if !cells_j.contains_key(n) {
        assert(!cells0.contains_key(n));
        if old_value != 0 {
            assert(cells0.contains_key(key));
            assert(cells0.contains_key(kth_neighbor(t, key, j)));
        }
        assert(multiplicity(t, key, n, j) == 0) by {
            if multiplicity(t, key, n, j) > 0 {
                let k = choose|k: int| 0 <= k < j && #[trigger] kth_neighbor(t, key, k) == n;
                assert(cells_j.contains_key(kth_neighbor(t, key, k)));
            }
        }
        law_fresh_cell_counts_every_neighbor(degree(t, n) as u32, num_states);
        assert forall|k: int| 0 <= k < degree(t, n) && kth_neighbor(t, n, k) != key
            implies state_of(cells_j, #[trigger] kth_neighbor(t, n, k)) == 0 by {
            lemma_unset_cell_has_quiet_neighbors(t, rules, cells0, cells_j, num_states, n, key, k);
        }
        assert forall|s: u32| s < num_states implies #[trigger] before[s as int] == count_matching(t, cells_j, n, s, degree(t, n))
            - delta * (indicator(s == value) - indicator(s == old_value)) by {
            lemma_count_quiet_neighbors(t, cells_j, n, key, value, s, degree(t, n));
            assert(before[s as int] == degree(t, n) * indicator(s == 0));
            let mu = multiplicity(t, n, key, degree(t, n));
            assert(degree(t, n) * indicator(s == 0) == mu * indicator(s == value) + (degree(t, n) - mu) * indicator(s == 0)
                - mu * (indicator(s == value) - indicator(s == 0))) by (nonlinear_arith);
        }
    }
    assert(old_value < num_states) by {
        if cells0.contains_key(key) {
            assert(cells0[key].0 < num_states);
        }
    }
    lemma_count_bounds(t, cells_j, n, old_value, degree(t, n));
    lemma_count_covers_key(t, cells_j, n, key, value, degree(t, n));
    assert(before[old_value as int] == count_matching(t, cells_j, n, old_value, degree(t, n))
        - delta * (indicator(old_value == value) - indicator(old_value == old_value)));
    assert(before[old_value as int] > 0) by {
        if old_value == value {
            assert(count_matching(t, cells_j, n, value, degree(t, n)) >= multiplicity(t, n, key, degree(t, n)));
        }
    }
    assert(before.len() == num_states);
    assert(total(before) == degree(t, n));
    lemma_element_le_total(before, value as int);
    lemma_total_update(before, old_value as int, (before[old_value as int] - 1) as u32);
    let mid = before.update(old_value as int, (before[old_value as int] - 1) as u32);
    lemma_total_update(mid, value as int, (mid[value as int] + 1) as u32);
    assert(total(changed_counts(before, old_value, value)) == degree(t, n));
    assert(state_of(cells_j, n) < rules[shape_at(t, n)].len() && state_of(cells_j, n) < num_states) by {
        if cells_j.contains_key(n) {
            assert(cells_j[n].0 < rules[shape_at(t, n)].len());
        }
    }
    lemma_evaluation_defined(t, rules, num_states, n, state_of(cells_j, n), changed_counts(before, old_value, value));
}

/// After the `j`-th neighbour of `key` was told, the bookkeeping holds with one more
/// neighbour told.
proof fn lemma_notified(
    t: Tiling,
    rules: Map<TileShape, Seq<StateRulesView>>,
    cells_j: Map<TileIndex, CellView>,
    cells_k: Map<TileIndex, CellView>,
    num_states: usize,
    key: TileIndex,
    old_value: u32,
    value: u32,
    j: int,
)
    requires
        0 <= j < degree(t, key),
        counts_pending_change(t, rules, cells_j, num_states, key, old_value, value, j),
        change_defined(counts_before(t, cells_j, kth_neighbor(t, key, j), num_states), old_value, value),
        index_in_bounds(t, kth_neighbor(t, key, j)),
        counts_before(t, cells_j, kth_neighbor(t, key, j), num_states).len() == num_states,
        total(changed_counts(counts_before(t, cells_j, kth_neighbor(t, key, j), num_states), old_value, value)) == degree(t, kth_neighbor(t, key, j)),
        state_of(cells_j, kth_neighbor(t, key, j)) < num_states,
        state_of(cells_j, kth_neighbor(t, key, j)) < rules[shape_at(t, kth_neighbor(t, key, j))].len(),
        forall|s: u32| s < num_states ==> #[trigger] counts_before(t, cells_j, kth_neighbor(t, key, j), num_states)[s as int]
            == count_matching(t, cells_j, kth_neighbor(t, key, j), s, degree(t, kth_neighbor(t, key, j)))
                - (multiplicity(t, key, kth_neighbor(t, key, j), degree(t, key)) - multiplicity(t, key, kth_neighbor(t, key, j), j))
                    * (indicator(s == value) - indicator(s == old_value)),
        cells_k == cells_j.insert(
            kth_neighbor(t, key, j),
            (
                state_of(cells_j, kth_neighbor(t, key, j)),
                changed_counts(counts_before(t, cells_j, kth_neighbor(t, key, j), num_states), old_value, value),
            ),
        ),
    ensures
        counts_pending_change(t, rules, cells_k, num_states, key, old_value, value, j + 1),
        forall|c: TileIndex| #[trigger] state_of(cells_k, c) == state_of(cells_j, c),
{
    let n = kth_neighbor(t, key, j);
    let before = counts_before(t, cells_j, n, num_states);
    assert forall|c: TileIndex| #[trigger] state_of(cells_k, c) == state_of(cells_j, c) by {}
    assert forall|c: TileIndex| #[trigger] cells_k.contains_key(c) implies {
        &&& index_in_bounds(t, c)
        &&& cells_k[c].0 < num_states
        &&& cells_k[c].0 < rules[shape_at(t, c)].len()
        &&& cells_k[c].1.len() == num_states
        &&& total(cells_k[c].1) == degree(t, c)
        &&& forall|s: u32| s < num_states ==> #[trigger] cells_k[c].1[s as int] == count_matching(t, cells_k, c, s, degree(t, c))
            - (multiplicity(t, key, c, degree(t, key)) - multiplicity(t, key, c, j + 1)) * (indicator(s == value) - indicator(s == old_value))
        &&& (cells_k[c].0 != 0 && c != key) ==> forall|k: int| 0 <= k < degree(t, c) ==> cells_k.contains_key(#[trigger] kth_neighbor(t, c, k))
    } by {
        assert forall|s: u32| s < num_states implies #[trigger] cells_k[c].1[s as int] == count_matching(t, cells_k, c, s, degree(t, c))
            - (multiplicity(t, key, c, degree(t, key)) - multiplicity(t, key, c, j + 1)) * (indicator(s == value) - indicator(s == old_value)) by {
            lemma_count_same_states(t, cells_j, cells_k, c, s, degree(t, c));
            let d = indicator(s == value) - indicator(s == old_value);
            let total_mult = multiplicity(t, key, c, degree(t, key));
            if c == n {
                lemma_changed_counts_at(before, old_value, value, s);
                assert(multiplicity(t, key, c, j + 1) == multiplicity(t, key, c, j) + 1);
                assert((total_mult - multiplicity(t, key, c, j)) * d - d == (total_mult - (multiplicity(t, key, c, j) + 1)) * d)
                    by (nonlinear_arith);
            } else {
                assert(multiplicity(t, key, c, j + 1) == multiplicity(t, key, c, j));
                assert(cells_k[c] == cells_j[c]);
            }
        }
        if cells_k[c].0 != 0 && c != key {
            assert(cells_j.contains_key(c));
        }
    }
}

impl SimulationState {
    /// Gives the cell at `key` the state `value` and tells its neighbours, keeping
    /// every count in agreement with the states.
    #[verifier::rlimit(40)]
    #[verifier::spinoff_prover]
    fn set_and_notify(&mut self, key: TileIndex, value: u32)
        requires
            old(self).wf(),
            tiling_steppable(old(self).tiling),
            rules_steppable(old(self).tiling, old(self).rules(), old(self).num_states),
            old(self).num_states >= 1,
            cells_consistent(old(self).tiling, old(self).rules(), old(self).cells(), old(self).num_states),
            settable(old(self).tiling, old(self).rules(), old(self).num_states, key, value),
        ensures
            final(self).wf(),
            final(self).tiling == old(self).tiling,
            final(self).states == old(self).states,
            final(self).manual_sets == old(self).manual_sets,
            final(self).num_states == old(self).num_states,
            final(self).run_every == old(self).run_every,
            final(self).step == old(self).step,
            final(self).time_since_last_update == old(self).time_since_last_update,
            cells_consistent(final(self).tiling, final(self).rules(), final(self).cells(), final(self).num_states),
            forall|c: TileIndex| #[trigger] state_of(final(self).cells(), c) == if c == key { value } else { state_of(old(self).cells(), c) },
            forall|c: TileIndex| #[trigger] old(self).cells().contains_key(c) ==> final(self).cells().contains_key(c),
            pending_matches(final(self).tiling, final(self).rules(), final(self).cells(), final(self).pending(), key),
            forall|k: int| 0 <= k < degree(old(self).tiling, key) ==> pending_matches(
                final(self).tiling, final(self).rules(), final(self).cells(), final(self).pending(),
                #[trigger] kth_neighbor(old(self).tiling, key, k)),
            forall|c: TileIndex| c != key && (forall|k: int| 0 <= k < degree(old(self).tiling, key) ==> #[trigger] kth_neighbor(old(self).tiling, key, k) != c)
                ==> {
                    &&& #[trigger] final(self).cells().contains_key(c) == old(self).cells().contains_key(c)
                    &&& old(self).cells().contains_key(c) ==> final(self).cells()[c] == old(self).cells()[c]
                    &&& final(self).pending().contains_key(c) == old(self).pending().contains_key(c)
                    &&& old(self).pending().contains_key(c) ==> final(self).pending()[c] == old(self).pending()[c]
                },
    {
        let ghost t = self.tiling;
        let ghost rules = self.rules();
        let ghost cells0 = self.cells();
        let ghost pending0 = self.pending();
        let ghost num_states = self.num_states;
        proof {
            assert(index_in_bounds(t, key));
            assert(neighbors_defined(t, key));
            lemma_degree_bound(t, key);
        }
        let neighbors = self.tiling.get_neighbors(key);
        let deg = neighbors.len();
        let ghost old_list = self.index_to_state@;
        let old_value: u32 = match find_index(&self.index_to_state, key) {
            Some(q) => {
                proof {
                    lemma_key_at(old_list, q as int);
                }
                let previous = self.index_to_state[q].1.state;
                let counts = self.index_to_state[q].1.neighbors_in_state.clone();
                let cell = SimulationCellState { state: value, neighbors_in_state: counts };
                self.index_to_state.set(q, (key, cell));
                proof {
                    lemma_update(old_list, q as int, cell);
                    assert(cells_map(self.index_to_state@) =~= cells0.insert(key, (value, cells0[key].1)));
                }
                previous
            },
            None => {
                let cell = SimulationCellState::new(value, deg as u32, self.num_states);
                self.index_to_state.push((key, cell));
                proof {
                    lemma_push(old_list, key, cell);
                    assert(cells_map(self.index_to_state@) =~= cells0.insert(key, (value, fresh_counts(deg as u32, num_states))));
                }
                0
            },
        };
        let ghost cells1 = self.cells();
        proof {
            assert(old_value == state_of(cells0, key));
            assert forall|c: TileIndex| c != key implies #[trigger] state_of(cells1, c) == state_of(cells0, c) by {}
            if !cells0.contains_key(key) {
                law_fresh_cell_counts_every_neighbor(deg as u32, num_states);
            }
            lemma_start_change(t, rules, cells0, cells1, num_states, key, old_value, value);
        }
        let p = self.rules_position(key);
        let q = match find_index(&self.index_to_state, key) {
            Some(q) => q,
            None => {
                proof {
                    assert(cells1.contains_key(key));
                }
                0
            },
        };
        proof {
            lemma_key_at(self.index_to_state@, q as int);
            lemma_evaluation_defined(t, rules, num_states, key, value, cells1[key].1);
        }
        let next = self.index_to_state[q].1.evaluate(&self.states[p].1);
        match next {
            Some(n) => insert_value(&mut self.pending_sets, key, n),
            None => remove_value(&mut self.pending_sets, key),
        }
        let mut j: usize = 0;
        while j < deg
            invariant
                self.wf(),
                self.tiling == t,
                self.states == old(self).states,
                self.manual_sets == old(self).manual_sets,
                self.num_states == num_states,
                self.run_every == old(self).run_every,
                self.step == old(self).step,
                self.time_since_last_update == old(self).time_since_last_update,
                self.rules() == rules,
                t == old(self).tiling,
                rules == old(self).rules(),
                cells0 == old(self).cells(),
                pending0 == old(self).pending(),
                num_states == old(self).num_states,
                neighbors@ == neighbors_of(t, key),
                deg == degree(t, key),
                deg <= 14,
                j <= deg,
                tiling_steppable(t),
                rules_steppable(t, rules, num_states),
                num_states >= 1,
                cells_consistent(t, rules, cells0, num_states),
                settable(t, rules, num_states, key, value),
                old_value == state_of(cells0, key),
                counts_pending_change(t, rules, self.cells(), num_states, key, old_value, value, j as int),
                self.cells().contains_key(key),
                forall|c: TileIndex| #[trigger] state_of(self.cells(), c) == if c == key { value } else { state_of(cells0, c) },
                forall|c: TileIndex| #[trigger] cells0.contains_key(c) ==> self.cells().contains_key(c),
                forall|k: int| 0 <= k < j ==> self.cells().contains_key(#[trigger] kth_neighbor(t, key, k)),
                pending_matches(t, rules, self.cells(), self.pending(), key),
                forall|k: int| 0 <= k < j ==> pending_matches(t, rules, self.cells(), self.pending(), #[trigger] kth_neighbor(t, key, k)),
                forall|c: TileIndex| c != key && (forall|k: int| 0 <= k < j ==> #[trigger] kth_neighbor(t, key, k) != c) ==> {
                    &&& #[trigger] self.cells().contains_key(c) == cells0.contains_key(c)
                    &&& cells0.contains_key(c) ==> self.cells()[c] == cells0[c]
                    &&& self.pending().contains_key(c) == pending0.contains_key(c)
                    &&& pending0.contains_key(c) ==> self.pending()[c] == pending0[c]
                },
            decreases deg - j,
        {
            let ghost cells_j = self.cells();
            let offset = neighbors[j];
            proof {
                assert(neighbors_defined(t, key));
                assert(neighbors_of(t, key)[j as int] == offset);
            }
            let neighbor_index = self.tiling.adjust_index(key.offset(offset.0, offset.1));
            let ghost n = neighbor_index;
            proof {
                assert(n == kth_neighbor(t, key, j as int));
                lemma_notify_ready(t, rules, cells0, cells_j, num_states, key, old_value, value, j as int);
            }
            self.notify_neighbor(neighbor_index, old_value, value);
            j = j + 1;
            proof {
                lemma_notified(t, rules, cells_j, self.cells(), num_states, key, old_value, value, (j - 1) as int);
                assert forall|k: int| 0 <= k < j implies pending_matches(t, rules, self.cells(), self.pending(), #[trigger] kth_neighbor(t, key, k)) by {
                    let m = kth_neighbor(t, key, k);
                    if m != n {
                        assert(k < j - 1);
                    }
                }
            }
        }
        proof {
            let cells_f = self.cells();
            assert forall|c: TileIndex| #[trigger] cells_f.contains_key(c) implies {
                &&& index_in_bounds(t, c)
                &&& cells_f[c].0 < num_states
                &&& cells_f[c].0 < rules[shape_at(t, c)].len()
                &&& cells_f[c].1.len() == num_states
                &&& total(cells_f[c].1) == degree(t, c)
                &&& forall|s: u32| s < num_states ==> #[trigger] cells_f[c].1[s as int] == count_matching(t, cells_f, c, s, degree(t, c))
                &&& cells_f[c].0 != 0 ==> forall|k: int| 0 <= k < degree(t, c) ==> cells_f.contains_key(#[trigger] kth_neighbor(t, c, k))
            } by {
                assert forall|s: u32| s < num_states implies #[trigger] cells_f[c].1[s as int] == count_matching(t, cells_f, c, s, degree(t, c)) by {
                    assert((multiplicity(t, key, c, degree(t, key)) - multiplicity(t, key, c, deg as int)) == 0);
                }
            }
        }
    }
}

impl SimulationState {
    /// Moves every pending change into the manual sets, where no manual set is given
    /// for the same cell.
    fn take_pending(&mut self)
        requires
            old(self).wf(),
        ensures
            final(self).wf(),
            final(self).manual() == merged_sets(old(self).manual(), old(self).pending()),
            final(self).pending() == Map::<TileIndex, u32>::empty(),
            final(self).tiling == old(self).tiling,
            final(self).states == old(self).states,
            final(self).index_to_state == old(self).index_to_state,
            final(self).num_states == old(self).num_states,
            final(self).run_every == old(self).run_every,
            final(self).step == old(self).step,
            final(self).time_since_last_update == old(self).time_since_last_update,
    {
        let mut sets: Vec<(TileIndex, u32)> = Vec::new();
        std::mem::swap(&mut sets, &mut self.pending_sets);
        let ghost manual0 = self.manual();
        let mut i: usize = 0;
        proof {
            assert(assoc_map(sets@.subrange(0, 0)) =~= Map::<TileIndex, u32>::empty());
            assert(self.manual() =~= merged_sets(manual0, assoc_map(sets@.subrange(0, 0))));
            crate::assoc::lemma_empty(self.pending_sets@);
        }
        while i < sets.len()
            invariant
                keys_distinct(sets@),
                keys_distinct(self.states@),
                keys_distinct(self.index_to_state@),
                keys_distinct(self.manual_sets@),
                self.pending_sets@.len() == 0,
                self.tiling == old(self).tiling,
                self.states == old(self).states,
                self.index_to_state == old(self).index_to_state,
                self.num_states == old(self).num_states,
                self.run_every == old(self).run_every,
                self.step == old(self).step,
                self.time_since_last_update == old(self).time_since_last_update,
                manual0 == old(self).manual(),
                assoc_map(sets@) == old(self).pending(),
                i <= sets@.len(),
                self.manual() == merged_sets(manual0, assoc_map(sets@.subrange(0, i as int))),
            decreases sets@.len() - i,
        {
            let (key, value) = sets[i];
            let ghost prefix = sets@.subrange(0, i as int);
            proof {
                assert(sets@.subrange(0, i + 1) == prefix.push((key, value)));
                assert(!has_key(prefix, key)) by {
                    if has_key(prefix, key) {
                        let j = key_index(prefix, key);
                        assert(prefix[j] == sets@[j]);
                    }
                }
                assert(keys_distinct(prefix)) by {
                    assert forall|x: int, y: int| 0 <= x < prefix.len() && 0 <= y < prefix.len() && x != y implies prefix[x].0 != prefix[y].0 by {
                        assert(prefix[x] == sets@[x] && prefix[y] == sets@[y]);
                    }
                }
                lemma_push(prefix, key, value);
            }
            match find_index(&self.manual_sets, key) {
                Some(_) => {
                    proof {
                        assert(self.manual().contains_key(key));
                        assert(self.manual() =~= merged_sets(manual0, assoc_map(sets@.subrange(0, i + 1))));
                    }
                },
                None => {
                    let ghost before = self.manual_sets@;
                    proof {
                        assert(!assoc_map(before).contains_key(key));
                        assert(!merged_sets(manual0, assoc_map(prefix)).contains_key(key));
                        assert(!manual0.contains_key(key));
                    }
                    self.manual_sets.push((key, value));
                    proof {
                        lemma_push(before, key, value);
                        assert(self.manual() =~= merged_sets(manual0, assoc_map(sets@.subrange(0, i + 1))));
                    }
                },
            }
            i = i + 1;
        }
        proof {
            assert(sets@.subrange(0, i as int) == sets@);
            assert(self.pending() =~= Map::<TileIndex, u32>::empty());
        }
    }

    /// Advances the automaton: takes in the pending changes when this step is due,
    /// then applies every manual set, telling the neighbours of each changed cell and
    /// recording the next change of every cell it touched.
    pub fn process(&mut self)
        requires
            old(self).wf(),
            tiling_steppable(old(self).tiling),
            rules_steppable(old(self).tiling, old(self).rules(), old(self).num_states),
            old(self).num_states >= 1,
            cells_consistent(old(self).tiling, old(self).rules(), old(self).cells(), old(self).num_states),
            forall|k: TileIndex| #[trigger] old(self).manual().contains_key(k)
                ==> settable(old(self).tiling, old(self).rules(), old(self).num_states, k, old(self).manual()[k]),
            takes_pending(old(self).step, old(self).run_every, old(self).time_since_last_update) ==> forall|k: TileIndex|
                #[trigger] old(self).pending().contains_key(k)
                ==> settable(old(self).tiling, old(self).rules(), old(self).num_states, k, old(self).pending()[k]),
        ensures
            final(self).wf(),
            final(self).tiling == old(self).tiling,
            final(self).rules() == old(self).rules(),
            final(self).num_states == old(self).num_states,
            final(self).run_every == old(self).run_every,
            final(self).step == if old(self).step > 0 { (old(self).step - 1) as u32 } else { old(self).step },
            final(self).time_since_last_update == if old(self).step == 0 && old(self).run_every != 0 {
                (if old(self).time_since_last_update == 0 { old(self).run_every } else { old(self).time_since_last_update } - 1) as u32
            } else {
                old(self).time_since_last_update
            },
            final(self).manual() == Map::<TileIndex, u32>::empty(),
            cells_consistent(final(self).tiling, final(self).rules(), final(self).cells(), final(self).num_states),
            ({
                let sets = applied_sets(*old(self));
                let base = if takes_pending(old(self).step, old(self).run_every, old(self).time_since_last_update) {
                    Map::<TileIndex, u32>::empty()
                } else {
                    old(self).pending()
                };
                &&& forall|c: TileIndex| #[trigger] state_of(final(self).cells(), c) == if sets.contains_key(c) {
                    sets[c]
                } else {
                    state_of(old(self).cells(), c)
                }
                &&& forall|c: TileIndex| #[trigger] old(self).cells().contains_key(c) ==> final(self).cells().contains_key(c)
                &&& forall|c: TileIndex| #[trigger] touched(old(self).tiling, sets, c)
                    ==> pending_matches(final(self).tiling, final(self).rules(), final(self).cells(), final(self).pending(), c)
                &&& forall|c: TileIndex| !#[trigger] touched(old(self).tiling, sets, c) ==> {
                    &&& final(self).pending().contains_key(c) == base.contains_key(c)
                    &&& base.contains_key(c) ==> final(self).pending()[c] == base[c]
                }
            }),
    {
        let ghost takes = takes_pending(self.step, self.run_every, self.time_since_last_update);
        if self.step > 0 {
            self.step = self.step - 1;
            self.take_pending();
        } else if self.run_every != 0 {
            if self.time_since_last_update == 0 {
                self.take_pending();
                self.time_since_last_update = self.run_every;
            }
            self.time_since_last_update = self.time_since_last_update - 1;
        }
        let ghost all_sets = self.manual();
        let ghost base = self.pending();
        proof {
            assert forall|k: TileIndex| #[trigger] all_sets.contains_key(k) implies settable(self.tiling, self.rules(), self.num_states, k, all_sets[k]) by {
                if takes {
                    if old(self).manual().contains_key(k) {
                        assert(all_sets[k] == old(self).manual()[k]);
                    } else {
                        assert(old(self).pending().contains_key(k));
                        assert(all_sets[k] == old(self).pending()[k]);
                    }
                } else {
                    assert(old(self).manual().contains_key(k));
                }
            }
        }
        let ghost cells0 = self.cells();
        let ghost t = self.tiling;
        let ghost rules = self.rules();
        let mut sets: Vec<(TileIndex, u32)> = Vec::new();
        std::mem::swap(&mut sets, &mut self.manual_sets);
        proof {
            crate::assoc::lemma_empty(self.manual_sets@);
            assert(assoc_map(sets@.subrange(0, 0)) =~= Map::<TileIndex, u32>::empty());
        }
        let mut i: usize = 0;
        while i < sets.len()
            invariant
                self.wf(),
                keys_distinct(sets@),
                assoc_map(sets@) == all_sets,
                self.manual_sets@.len() == 0,
                self.tiling == t,
                self.rules() == rules,
                t == old(self).tiling,
                rules == old(self).rules(),
                self.states == old(self).states,
                self.num_states == old(self).num_states,
                self.run_every == old(self).run_every,
                self.step == if old(self).step > 0 { (old(self).step - 1) as u32 } else { old(self).step },
                self.time_since_last_update == if old(self).step == 0 && old(self).run_every != 0 {
                    (if old(self).time_since_last_update == 0 { old(self).run_every } else { old(self).time_since_last_update } - 1) as u32
                } else {
                    old(self).time_since_last_update
                },
                tiling_steppable(t),
                rules_steppable(t, rules, self.num_states),
                self.num_states >= 1,
                forall|k: TileIndex| #[trigger] all_sets.contains_key(k) ==> settable(t, rules, self.num_states, k, all_sets[k]),
                cells_consistent(t, rules, self.cells(), self.num_states),
                i <= sets@.len(),
                forall|c: TileIndex| #[trigger] state_of(self.cells(), c) == if assoc_map(sets@.subrange(0, i as int)).contains_key(c) {
                    assoc_map(sets@.subrange(0, i as int))[c]
                } else {
                    state_of(cells0, c)
                },
                forall|c: TileIndex| #[trigger] cells0.contains_key(c) ==> self.cells().contains_key(c),
                forall|c: TileIndex| #[trigger] touched(t, assoc_map(sets@.subrange(0, i as int)), c)
                    ==> pending_matches(t, rules, self.cells(), self.pending(), c),
                forall|c: TileIndex| !#[trigger] touched(t, assoc_map(sets@.subrange(0, i as int)), c) ==> {
                    &&& self.pending().contains_key(c) == base.contains_key(c)
                    &&& base.contains_key(c) ==> self.pending()[c] == base[c]
                },
            decreases sets@.len() - i,
        {
            let (key, value) = sets[i];
            let ghost prefix = sets@.subrange(0, i as int);
            let ghost cells_i = self.cells();
            let ghost pending_i = self.pending();
            proof {
                assert(sets@.subrange(0, i + 1) == prefix.push((key, value)));
                assert(!has_key(prefix, key)) by {
                    if has_key(prefix, key) {
                        let j = key_index(prefix, key);
                        assert(prefix[j] == sets@[j]);
                    }
                }
                assert(keys_distinct(prefix)) by {
                    assert forall|x: int, y: int| 0 <= x < prefix.len() && 0 <= y < prefix.len() && x != y implies prefix[x].0 != prefix[y].0 by {
                        assert(prefix[x] == sets@[x] && prefix[y] == sets@[y]);
                    }
                }
                lemma_push(prefix, key, value);
                lemma_key_at(sets@, i as int);
                assert(all_sets.contains_key(key));
            }
            self.set_and_notify(key, value);
            i = i + 1;
            proof {
                let done = assoc_map(sets@.subrange(0, i as int));
                assert(done == assoc_map(prefix).insert(key, value));
                assert forall|c: TileIndex| #[trigger] touched(t, done, c) <==> touched(t, assoc_map(prefix), c) || c == key
                    || exists|k: int| 0 <= k < degree(t, key) && #[trigger] kth_neighbor(t, key, k) == c by {
                    if touched(t, done, c) && !done.contains_key(c) {
                        let (m, k) = choose|m: TileIndex, k: int| done.contains_key(m) && 0 <= k < degree(t, m) && #[trigger] kth_neighbor(t, m, k) == c;
                        if m != key {
                            assert(assoc_map(prefix).contains_key(m));
                            assert(touched(t, assoc_map(prefix), c));
                        }
                    }
                    if touched(t, assoc_map(prefix), c) && !assoc_map(prefix).contains_key(c) {
                        let (m, k) = choose|m: TileIndex, k: int| assoc_map(prefix).contains_key(m) && 0 <= k < degree(t, m) && #[trigger] kth_neighbor(t, m, k) == c;
                        assert(done.contains_key(m));
                    }
                    if exists|k: int| 0 <= k < degree(t, key) && #[trigger] kth_neighbor(t, key, k) == c {
                        let k = choose|k: int| 0 <= k < degree(t, key) && #[trigger] kth_neighbor(t, key, k) == c;
                        assert(done.contains_key(key));
                    }
                }
                assert forall|c: TileIndex| #[trigger] touched(t, done, c) implies pending_matches(t, rules, self.cells(), self.pending(), c) by {
                    if c != key && !(exists|k: int| 0 <= k < degree(t, key) && #[trigger] kth_neighbor(t, key, k) == c) {
                        assert(touched(t, assoc_map(prefix), c));
                        assert(pending_matches(t, rules, cells_i, pending_i, c));
                    } else if c != key {
                        let k = choose|k: int| 0 <= k < degree(t, key) && #[trigger] kth_neighbor(t, key, k) == c;
                        assert(pending_matches(t, rules, self.cells(), self.pending(), kth_neighbor(t, key, k)));
                    }
                }
                assert forall|c: TileIndex| !#[trigger] touched(t, done, c) implies {
                    &&& self.pending().contains_key(c) == base.contains_key(c)
                    &&& base.contains_key(c) ==> self.pending()[c] == base[c]
                } by {
                    assert(!touched(t, assoc_map(prefix), c));
                    assert(pending_i.contains_key(c) == base.contains_key(c));
                    assert(base.contains_key(c) ==> pending_i[c] == base[c]);
                    assert(c != key);
                    assert forall|k: int| 0 <= k < degree(t, key) implies #[trigger] kth_neighbor(t, key, k) != c by {
                        if kth_neighbor(t, key, k) == c {
                            assert(done.contains_key(key));
                        }
                    }
                    assert(self.cells().contains_key(c) == cells_i.contains_key(c));
                }
            }
        }
        proof {
            assert(sets@.subrange(0, i as int) == sets@);
            assert(self.manual() =~= Map::<TileIndex, u32>::empty());
        }
    }
}

proof fn lemma_wrap_symmetric(a: int, b: int, d: int, w: int)
    requires
        0 <= a < w,
        0 <= b < w,
        -1 <= d <= 1,
    ensures
        ((a + d) % w == b) == ((b - d) % w == a),
{
    vstd::arithmetic::div_mod::lemma_mod_add_multiples_vanish(-1, w);
    vstd::arithmetic::div_mod::lemma_mod_self_0(w);
    if w > 1 {
        vstd::arithmetic::div_mod::lemma_small_mod((w - 1) as nat, w as nat);
    }
    if 0 <= a + d < w {
        vstd::arithmetic::div_mod::lemma_small_mod((a + d) as nat, w as nat);
    }
    if 0 <= b - d < w {
        vstd::arithmetic::div_mod::lemma_small_mod((b - d) as nat, w as nat);
    }
}

proof fn lemma_square_step_symmetric(t: Tiling, c: TileIndex, m: TileIndex, k: int, back: int)
    requires
        t.kind is Square,
        index_in_bounds(t, c),
        index_in_bounds(t, m),
        0 <= k < 8,
        0 <= back < 8,
        neighbors_of(t, c)[back].0 == -neighbors_of(t, c)[k].0,
        neighbors_of(t, c)[back].1 == -neighbors_of(t, c)[k].1,
        -1 <= neighbors_of(t, c)[k].0 <= 1,
        -1 <= neighbors_of(t, c)[k].1 <= 1,
        t.max_index.x < i32::MAX,
        t.max_index.y < i32::MAX,
    ensures
        indicator(kth_neighbor(t, c, k) == m) == indicator(kth_neighbor(t, m, back) == c),
{
    let o = neighbors_of(t, c)[k];
    assert(neighbors_of(t, m) == neighbors_of(t, c));
    lemma_wrap_symmetric(c.x as int, m.x as int, o.0 as int, t.max_index.x as int);
    lemma_wrap_symmetric(c.y as int, m.y as int, o.1 as int, t.max_index.y as int);
}

/// On a square tiling the automaton can step: every tile's neighbours can be
/// computed, and a tile is as often a neighbour of another as that one is of it.
pub proof fn law_square_tiling_is_steppable(t: Tiling)
    requires
        t.kind is Square,
        t.max_index.x > 0,
        t.max_index.y > 0,
        t.max_index.x < i32::MAX,
        t.max_index.y < i32::MAX,
    ensures
        tiling_steppable(t),
{
    assert forall|c: TileIndex| #[trigger] index_in_bounds(t, c) implies neighbors_defined(t, c) by {
        assert(neighbors_of(t, c) == crate::tiling::square_neighbors());
    }
    assert forall|c: TileIndex, m: TileIndex| index_in_bounds(t, c) && index_in_bounds(t, m)
        implies #[trigger] multiplicity(t, c, m, degree(t, c)) == #[trigger] multiplicity(t, m, c, degree(t, m)) by {
        assert(neighbors_of(t, c) == crate::tiling::square_neighbors());
        assert(neighbors_of(t, m) == crate::tiling::square_neighbors());
        reveal_with_fuel(multiplicity, 9);
        assert(multiplicity(t, c, m, 8) == indicator(kth_neighbor(t, c, 0) == m) + indicator(kth_neighbor(t, c, 1) == m) + indicator(kth_neighbor(t, c, 2) == m) + indicator(kth_neighbor(t, c, 3) == m) + indicator(kth_neighbor(t, c, 4) == m) + indicator(kth_neighbor(t, c, 5) == m) + indicator(kth_neighbor(t, c, 6) == m) + indicator(kth_neighbor(t, c, 7) == m));
        assert(multiplicity(t, m, c, 8) == indicator(kth_neighbor(t, m, 0) == c) + indicator(kth_neighbor(t, m, 1) == c) + indicator(kth_neighbor(t, m, 2) == c) + indicator(kth_neighbor(t, m, 3) == c) + indicator(kth_neighbor(t, m, 4) == c) + indicator(kth_neighbor(t, m, 5) == c) + indicator(kth_neighbor(t, m, 6) == c) + indicator(kth_neighbor(t, m, 7) == c));
    lemma_square_step_symmetric(t, c, m, 0, 4);
    lemma_square_step_symmetric(t, c, m, 1, 5);
    lemma_square_step_symmetric(t, c, m, 2, 6);
    lemma_square_step_symmetric(t, c, m, 3, 7);
    lemma_square_step_symmetric(t, c, m, 4, 0);
    lemma_square_step_symmetric(t, c, m, 5, 1);
    lemma_square_step_symmetric(t, c, m, 6, 2);
    lemma_square_step_symmetric(t, c, m, 7, 3);
    }
}

/// The state recorded for `k` in a list of states; a tile not in it is in state 0.
pub open spec fn recorded_state(list: Seq<(TileIndex, u32)>, k: TileIndex) -> u32 {
    if assoc_map(list).contains_key(k) { assoc_map(list)[k] } else { 0 }
}

/// Each cell's tile and state, in the order the cells are kept.
pub open spec fn state_pairs(cells: Seq<(TileIndex, SimulationCellState)>) -> Seq<(TileIndex, u32)> {
    cells.map_values(|c: (TileIndex, SimulationCellState)| (c.0, c.1.state))
}

/// The pairs of `now` whose state differs from the one recorded in `before`.
pub open spec fn changed_pairs(now: Seq<(TileIndex, u32)>, before: Seq<(TileIndex, u32)>) -> Seq<(TileIndex, u32)> {
    now.filter(|p: (TileIndex, u32)| recorded_state(before, p.0) != p.1)
}

impl SimulationState {
    /// Each cell's tile and state, in the order the cells are kept.
    pub fn cell_states(&self) -> (r: Vec<(TileIndex, u32)>)
        ensures
            r@ == state_pairs(self.index_to_state@),
            self.wf() ==> keys_distinct(r@),
    {
        let mut out: Vec<(TileIndex, u32)> = Vec::new();
        let mut i: usize = 0;
        while i < self.index_to_state.len()
            invariant
                i <= self.index_to_state@.len(),
                out@ == state_pairs(self.index_to_state@.subrange(0, i as int)),
            decreases self.index_to_state@.len() - i,
        {
            out.push((self.index_to_state[i].0, self.index_to_state[i].1.state));
            proof {
                assert(state_pairs(self.index_to_state@.subrange(0, i + 1)) =~= state_pairs(self.index_to_state@.subrange(0, i as int))
                    .push((self.index_to_state@[i as int].0, self.index_to_state@[i as int].1.state)));
            }
            i = i + 1;
        }
        proof {
            assert(self.index_to_state@.subrange(0, i as int) =~= self.index_to_state@);
            assert forall|a: int, b: int| 0 <= a < out@.len() && 0 <= b < out@.len() && a != b && self.wf()
                implies out@[a].0 != out@[b].0 by {
                assert(out@[a].0 == self.index_to_state@[a].0);
                assert(out@[b].0 == self.index_to_state@[b].0);
            }
        }
        out
    }

    /// The cells whose state differs from the one recorded in `before` (a cell not
    /// recorded there was in state 0), with their state, in the order the cells are
    /// kept.
    pub fn changed_since(&self, before: &Vec<(TileIndex, u32)>) -> (r: Vec<(TileIndex, u32)>)
        requires
            keys_distinct(before@),
        ensures
            r@ == changed_pairs(state_pairs(self.index_to_state@), before@),
    {
        let now = self.cell_states();
        let mut out: Vec<(TileIndex, u32)> = Vec::new();
        let mut i: usize = 0;
        while i < now.len()
            invariant
                i <= now@.len(),
                keys_distinct(before@),
                out@ == changed_pairs(now@.subrange(0, i as int), before@),
            decreases now@.len() - i,
        {
            let (k, state) = now[i];
            let old_state = match find_index(before, k) {
                Some(p) => {
                    proof {
                        lemma_key_at(before@, p as int);
                    }
                    before[p].1
                },
                None => 0,
            };
            proof {
                assert(old_state == recorded_state(before@, k));
                let next = now@.subrange(0, i + 1);
                assert(next.drop_last() =~= now@.subrange(0, i as int));
                reveal(Seq::filter);
            }
            if old_state != state {
                out.push((k, state));
            }
            i = i + 1;
        }
        proof {
            assert(now@.subrange(0, i as int) =~= now@);
        }
        out
    }
}

/// The sets that the next step applies: the manual sets, together with the pending
/// changes when this step takes them in.
pub open spec fn applied_sets(s: SimulationState) -> Map<TileIndex, u32> {
    if takes_pending(s.step, s.run_every, s.time_since_last_update) {
        merged_sets(s.manual(), s.pending())
    } else {
        s.manual()
    }
}

/// In a step that takes in the pending changes, every cell with a manual set moves
/// to the state set, every other cell with a pending change moves to its pending
/// state, and no other cell is set.
pub proof fn law_step_applies_pending(s: SimulationState, c: TileIndex)
    requires
        takes_pending(s.step, s.run_every, s.time_since_last_update),
    ensures
        applied_sets(s).contains_key(c) == (s.manual().contains_key(c) || s.pending().contains_key(c)),
        s.manual().contains_key(c) ==> applied_sets(s)[c] == s.manual()[c],
        !s.manual().contains_key(c) && s.pending().contains_key(c) ==> applied_sets(s)[c] == s.pending()[c],
{
}
/// Whether `v` fits in an `i32`.
fn fits_i32(v: i64) -> (r: bool)
    ensures
        r == (i32::MIN <= v <= i32::MAX),
{
    v >= i32::MIN as i64 && v <= i32::MAX as i64
}

/// Whether the shape of a tile inside the tiling can be computed without overflow.
fn check_shape_defined(t: &Tiling, c: TileIndex) -> (r: bool)
    requires
        index_in_bounds(*t, c),
    ensures
        r == shape_defined(*t, c),
{
    match t.kind {
        TilingKind::OctagonAndSquare | TilingKind::EquilateralTriangular => fits_i32(c.x as i64 + c.y as i64),
        TilingKind::RightTriangular => fits_i32((c.x / 2) as i64 + c.y as i64),
        _ => true,
    }
}

/// Whether `adjust_index` can wrap `index`, on a tiling that has tiles.
fn check_adjust_defined(t: &Tiling, index: TileIndex) -> (r: bool)
    requires
        t.max_index.x > 0,
        t.max_index.y > 0,
    ensures
        r == adjust_index_defined(*t, index),
{
    match t.kind {
        TilingKind::Hexagonal => {
            let target_y = match index.y.checked_rem_euclid(t.max_index.y) {
                Some(v) => v,
                None => 0,
            };
            let difference = target_y as i64 - index.y as i64;
            if !fits_i32(difference) {
                return false;
            }
            let half = match difference.checked_div(2) {
                Some(v) => v,
                None => 0,
            };
            proof {
                assert(half == half_toward_zero(difference as int));
            }
            fits_i32(index.x as i64 + half)
        },
        _ => true,
    }
}

/// Whether the neighbours of a tile inside the tiling can be computed without
/// overflow.
fn check_neighbors_defined(t: &Tiling, c: TileIndex) -> (r: bool)
    requires
        index_in_bounds(*t, c),
    ensures
        r == neighbors_defined(*t, c),
{
    if !check_shape_defined(t, c) {
        return false;
    }
    let offsets = t.get_neighbors(c);
    let mut k: usize = 0;
    while k < offsets.len()
        invariant
            index_in_bounds(*t, c),
            shape_defined(*t, c),
            offsets@ == neighbors_of(*t, c),
            k <= offsets@.len(),
            forall|j: int| 0 <= j < k ==> {
                let o = #[trigger] neighbors_of(*t, c)[j];
                &&& i32::MIN <= c.x + o.0 <= i32::MAX
                &&& i32::MIN <= c.y + o.1 <= i32::MAX
                &&& adjust_index_defined(*t, TileIndex { x: (c.x + o.0) as i32, y: (c.y + o.1) as i32 })
            },
        decreases offsets@.len() - k,
    {
        let o = offsets[k];
        if !fits_i32(c.x as i64 + o.0 as i64) || !fits_i32(c.y as i64 + o.1 as i64) {
            proof {
                assert(neighbors_of(*t, c)[k as int] == o);
            }
            return false;
        }
        let target = TileIndex { x: c.x + o.0, y: c.y + o.1 };
        if !check_adjust_defined(t, target) {
            proof {
                assert(neighbors_of(*t, c)[k as int] == o);
            }
            return false;
        }
        proof {
            assert(neighbors_of(*t, c)[k as int] == o);
        }
        k = k + 1;
    }
    true
}

/// How many of the neighbours of `c` are `m`.
fn count_toward(t: &Tiling, c: TileIndex, m: TileIndex) -> (r: usize)
    requires
        index_in_bounds(*t, c),
        neighbors_defined(*t, c),
    ensures
        r == multiplicity(*t, c, m, degree(*t, c)),
{
    let offsets = t.get_neighbors(c);
    let mut count: usize = 0;
    let mut k: usize = 0;
    while k < offsets.len()
        invariant
            neighbors_defined(*t, c),
            offsets@ == neighbors_of(*t, c),
            k <= offsets@.len(),
            count == multiplicity(*t, c, m, k as int),
            count <= k,
        decreases offsets@.len() - k,
    {
        let o = offsets[k];
        proof {
            assert(neighbors_of(*t, c)[k as int] == o);
        }
        let n = t.adjust_index(TileIndex { x: c.x + o.0, y: c.y + o.1 });
        if n == m {
            count = count + 1;
        }
        k = k + 1;
    }
    count
}

/// Whether `c` comes before position (`x`, `y`) of a walk over the tiling, row by row.
pub open spec fn walked_before(t: Tiling, c: TileIndex, x: int, y: int) -> bool {
    index_in_bounds(t, c) && (c.y < y || (c.y == y && c.x < x))
}

/// Whether the automaton can step on a tiling (see `tiling_steppable`), checked tile
/// by tile.
pub fn tiling_is_steppable(t: &Tiling) -> (r: bool)
    ensures
        r == tiling_steppable(*t),
{
    let mx = t.max_index.x;
    let my = t.max_index.y;
    if mx <= 0 || my <= 0 {
        return true;
    }
    let mut y: i32 = 0;
    while y < my
        invariant
            mx == t.max_index.x,
            my == t.max_index.y,
            mx > 0,
            0 <= y <= my,
            forall|c: TileIndex| #[trigger] index_in_bounds(*t, c) && c.y < y ==> neighbors_defined(*t, c),
        decreases my - y,
    {
        let mut x: i32 = 0;
        while x < mx
            invariant
                mx == t.max_index.x,
                my == t.max_index.y,
                mx > 0,
                0 <= y < my,
                0 <= x <= mx,
                forall|c: TileIndex| #[trigger] index_in_bounds(*t, c) && (c.y < y || (c.y == y && c.x < x))
                    ==> neighbors_defined(*t, c),
            decreases mx - x,
        {
            let c = TileIndex { x, y };
            if !check_neighbors_defined(t, c) {
                proof {
                    assert(index_in_bounds(*t, c));
                }
                return false;
            }
            x = x + 1;
        }
        y = y + 1;
    }
    let mut y: i32 = 0;
    while y < my
        invariant
            mx == t.max_index.x,
            my == t.max_index.y,
            mx > 0,
            0 <= y <= my,
            forall|c: TileIndex| #[trigger] index_in_bounds(*t, c) ==> neighbors_defined(*t, c),
            forall|c: TileIndex, k: int| #[trigger] walked_before(*t, c, 0, y as int) && 0 <= k < degree(*t, c)
                ==> multiplicity(*t, c, #[trigger] kth_neighbor(*t, c, k), degree(*t, c))
                == multiplicity(*t, kth_neighbor(*t, c, k), c, degree(*t, kth_neighbor(*t, c, k))),
        decreases my - y,
    {
        let mut x: i32 = 0;
        while x < mx
            invariant
                mx == t.max_index.x,
                my == t.max_index.y,
                mx > 0,
                0 <= y < my,
                0 <= x <= mx,
                forall|c: TileIndex| #[trigger] index_in_bounds(*t, c) ==> neighbors_defined(*t, c),
                forall|c: TileIndex, k: int| #[trigger] walked_before(*t, c, x as int, y as int) && 0 <= k < degree(*t, c)
                    ==> multiplicity(*t, c, #[trigger] kth_neighbor(*t, c, k), degree(*t, c))
                    == multiplicity(*t, kth_neighbor(*t, c, k), c, degree(*t, kth_neighbor(*t, c, k))),
            decreases mx - x,
        {
            let c = TileIndex { x, y };
            assert(index_in_bounds(*t, c));
            let offsets = t.get_neighbors(c);
            let mut k: usize = 0;
            while k < offsets.len()
                invariant
                    mx == t.max_index.x,
                    my == t.max_index.y,
                    0 <= y < my,
                    0 <= x < mx,
                    c == (TileIndex { x, y }),
                    index_in_bounds(*t, c),
                    offsets@ == neighbors_of(*t, c),
                    k <= offsets@.len(),
                    forall|c: TileIndex| #[trigger] index_in_bounds(*t, c) ==> neighbors_defined(*t, c),
                    forall|j: int| 0 <= j < k ==> multiplicity(*t, c, #[trigger] kth_neighbor(*t, c, j), degree(*t, c))
                        == multiplicity(*t, kth_neighbor(*t, c, j), c, degree(*t, kth_neighbor(*t, c, j))),
                decreases offsets@.len() - k,
            {
                let o = offsets[k];
                proof {
                    assert(neighbors_of(*t, c)[k as int] == o);
                    assert(neighbors_defined(*t, c));
                }
                let m = t.adjust_index(TileIndex { x: c.x + o.0, y: c.y + o.1 });
                proof {
                    assert(m == kth_neighbor(*t, c, k as int));
                }
                let forward = count_toward(t, c, m);
                let back = count_toward(t, m, c);
                if forward != back {
                    proof {
                        assert(index_in_bounds(*t, m));
                        assert(multiplicity(*t, c, m, degree(*t, c)) != multiplicity(*t, m, c, degree(*t, m)));
                    }
                    return false;
                }
                k = k + 1;
            }
            proof {
                assert forall|d: TileIndex, j: int| #[trigger] walked_before(*t, d, x + 1, y as int) && 0 <= j < degree(*t, d)
                    implies multiplicity(*t, d, #[trigger] kth_neighbor(*t, d, j), degree(*t, d))
                    == multiplicity(*t, kth_neighbor(*t, d, j), d, degree(*t, kth_neighbor(*t, d, j))) by {
                    if d == c {
                    } else {
                        assert(walked_before(*t, d, x as int, y as int));
                    }
                }
            }
            x = x + 1;
        }
        proof {
            assert forall|d: TileIndex, j: int| #[trigger] walked_before(*t, d, 0, y + 1) && 0 <= j < degree(*t, d)
                implies multiplicity(*t, d, #[trigger] kth_neighbor(*t, d, j), degree(*t, d))
                == multiplicity(*t, kth_neighbor(*t, d, j), d, degree(*t, kth_neighbor(*t, d, j))) by {
                assert(walked_before(*t, d, mx as int, y as int));
            }
        }
        y = y + 1;
    }
    proof {
        assert forall|c: TileIndex, m: TileIndex| index_in_bounds(*t, c) && index_in_bounds(*t, m)
            implies #[trigger] multiplicity(*t, c, m, degree(*t, c)) == #[trigger] multiplicity(*t, m, c, degree(*t, m)) by {
            assert(walked_before(*t, c, 0, my as int));
            assert(walked_before(*t, m, 0, my as int));
            lemma_multiplicity_witness(*t, c, m, degree(*t, c));
            lemma_multiplicity_witness(*t, m, c, degree(*t, m));
            if multiplicity(*t, c, m, degree(*t, c)) > 0 {
                let k = choose|k: int| 0 <= k < degree(*t, c) && #[trigger] kth_neighbor(*t, c, k) == m;
                assert(kth_neighbor(*t, c, k) == m);
            } else if multiplicity(*t, m, c, degree(*t, m)) > 0 {
                let k = choose|k: int| 0 <= k < degree(*t, m) && #[trigger] kth_neighbor(*t, m, k) == c;
                assert(kth_neighbor(*t, m, k) == c);
            }
        }
    }
    true
}

/// Editing a rule reads back: the field the edit targets takes the value given, the
/// rule's other fields stay, and every other rule, state and shape is unchanged. A
/// default-state edit sets the state's default and leaves its rules alone.
pub proof fn law_rule_edit_reads_back(
    m: Map<TileShape, Seq<StateRulesView>>,
    shape: TileShape,
    state: u32,
    n: usize,
    value: u32,
    target: RuleUpdateTarget,
)
    requires
        m.contains_key(shape),
        state < m[shape].len(),
        target != RuleUpdateTarget::DefaultValue ==> n < m[shape][state as int].1.len(),
    ensures
        ({
            let after = rules_after_update(m, shape, state, n, value, target);
            let old_rule = m[shape][state as int].1[n as int];
            let new_rule = after[shape][state as int].1[n as int];
            &&& after.dom() == m.dom()
            &&& after[shape].len() == m[shape].len()
            &&& forall|s2: TileShape| #[trigger] m.contains_key(s2) && s2 != shape ==> after[s2] == m[s2]
            &&& forall|st: int| 0 <= st < m[shape].len() && st != state ==> #[trigger] after[shape][st] == m[shape][st]
            &&& target == RuleUpdateTarget::DefaultValue ==> after[shape][state as int].0 == value
                && after[shape][state as int].1 == m[shape][state as int].1
            &&& target != RuleUpdateTarget::DefaultValue ==> {
                &&& after[shape][state as int].0 == m[shape][state as int].0
                &&& after[shape][state as int].1.len() == m[shape][state as int].1.len()
                &&& forall|k: int| 0 <= k < m[shape][state as int].1.len() && k != n
                    ==> #[trigger] after[shape][state as int].1[k] == m[shape][state as int].1[k]
            }
            &&& target == RuleUpdateTarget::MinValue ==> new_rule == (value, old_rule.1, old_rule.2, old_rule.3)
            &&& target == RuleUpdateTarget::MaxValue ==> new_rule == (old_rule.0, value, old_rule.2, old_rule.3)
            &&& target == RuleUpdateTarget::ResultValue ==> new_rule == (old_rule.0, old_rule.1, old_rule.2, value)
            &&& target == RuleUpdateTarget::ToggleCount ==> {
                &&& new_rule.0 == old_rule.0 && new_rule.1 == old_rule.1 && new_rule.3 == old_rule.3
                &&& !old_rule.2.contains(value) ==> new_rule.2 == old_rule.2.push(value)
                &&& old_rule.2.contains(value) ==> new_rule.2.len() == old_rule.2.len() - 1
            }
        }),
{
    let after = rules_after_update(m, shape, state, n, value, target);
    assert(after.dom() =~= m.dom());
    let old_rule = m[shape][state as int].1[n as int];
    if target == RuleUpdateTarget::ToggleCount && old_rule.2.contains(value) {
        lemma_first_position_bound(old_rule.2, value);
    }
}

proof fn lemma_first_position_bound(s: Seq<u32>, v: u32)
    requires
        s.contains(v),
    ensures
        0 <= first_position(s, v) < s.len(),
    decreases s.len(),
{
    if s[0] != v {
        let i = choose|i: int| 0 <= i < s.len() && s[i] == v;
        assert(s.drop_first()[i - 1] == v);
        lemma_first_position_bound(s.drop_first(), v);
    }
}

/// Editing a rule of a shape the automaton has no rules for, of a state the shape does
/// not have, or of a rule the state does not have, changes nothing.
pub proof fn law_rule_edit_of_nothing_changes_nothing(
    m: Map<TileShape, Seq<StateRulesView>>,
    shape: TileShape,
    state: u32,
    n: usize,
    value: u32,
    target: RuleUpdateTarget,
)
    requires
        !m.contains_key(shape) || state >= m[shape].len()
            || (target != RuleUpdateTarget::DefaultValue && n >= m[shape][state as int].1.len()),
    ensures
        rules_after_update(m, shape, state, n, value, target) == m,
{
}

} // verus!
