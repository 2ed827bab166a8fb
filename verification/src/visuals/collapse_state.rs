use vstd::prelude::*;

use crate::hashmap_ext::{extended, lists_of, HashMultiMapExt};
use crate::assoc::keys_distinct;
use crate::simulation::{state_of, SimulationState};
use crate::tiling::{
    adjusted_index, dual_defined, dual_of, lemma_inner_index_adjustable, square_vertices, TileIndex, Tiling,
    TilingKind,
};
use super::collapse::{
    corner_heights, corners_processed, entry_wf, index_steppable, narrowed_set, neighbors_processed, recomputed, storage_countable,
    storage_walls_closed, CollapseEntry, CollapseEntryIndex, CollapseNeighborUpdate,
};
use super::geom::handles::GeometryHandleSet;
use crate::tiling::square_vertices_defined;
use super::geom::geom::GeometryStorage;
use crate::tile_inspect::position_of;

verus! {

/// The collapse of a whole tiling: one cell per tile of the dual tiling and height,
/// the corner values still to hand to the cells, and the restrictions still to hand
/// to them.
pub struct CollapseState {
    pub entries: Vec<CollapseEntry>,
    pub max_height: u32,
    pub dual_tiling: Tiling,
    pub base_tiling: Tiling,
    pub height_updates: Vec<(TileIndex, Vec<(TileIndex, u32)>)>,
    pub neighbor_restriction_updates: Vec<(CollapseEntryIndex, Vec<CollapseNeighborUpdate>)>,
}

/// What one step of the collapse did.
#[derive(Clone, Copy, PartialEq, Eq, Debug, Structural)]
pub enum CollapseStep {
    /// Handed the corner values queued for a corner to the cells there.
    HeightUpdate(TileIndex),
    /// Handed the restrictions queued for a cell to it.
    NeighborUpdate(CollapseEntryIndex),
    /// Made a cell with the fewest options choose its geometry.
    Selected(CollapseEntryIndex),
    /// Nothing was left to do.
    Done,
}

/// A cell can take part in the collapse.
pub open spec fn cell_ready(e: CollapseEntry) -> bool {
    &&& entry_wf(e)
    &&& index_steppable(e.index_in_tiling)
    &&& e.height < u32::MAX
}

impl CollapseState {
    /// The cells are ready, the dual tiling is made of squares, and no key is queued
    /// twice.
    pub open spec fn wf(&self) -> bool {
        &&& self.dual_tiling.kind is Square
        &&& forall|i: int| 0 <= i < self.entries@.len() ==> #[trigger] cell_ready(self.entries@[i])
        &&& keys_distinct(self.height_updates@)
        &&& keys_distinct(self.neighbor_restriction_updates@)
    }
}

impl Default for CollapseState {
    fn default() -> (r: Self)
        ensures
            r.wf(),
            r.entries@.len() == 0,
            r.max_height == 0,
            r.height_updates@.len() == 0,
            r.neighbor_restriction_updates@.len() == 0,
    {
        let square = Tiling { kind: TilingKind::Square, max_index: TileIndex { x: 0, y: 0 } };
        CollapseState {
            entries: Vec::new(),
            max_height: 0,
            dual_tiling: square,
            base_tiling: square,
            height_updates: Vec::new(),
            neighbor_restriction_updates: Vec::new(),
        }
    }
}

/// The number of columns of a tiling walked row by row.
pub open spec fn grid_cols(t: Tiling) -> int {
    if t.max_index.y > 0 {
        t.max_index.y as int
    } else {
        0
    }
}

/// The number of rows of a tiling walked row by row.
pub open spec fn grid_rows(t: Tiling) -> int {
    if t.max_index.x > 0 {
        t.max_index.x as int
    } else {
        0
    }
}

/// The `k`-th tile of a walk over a tiling, `x` first.
pub open spec fn grid_tile(t: Tiling, k: int) -> TileIndex {
    TileIndex { x: (k / grid_cols(t)) as i32, y: (k % grid_cols(t)) as i32 }
}

/// The corner values of a tile for each of its four corners.
pub open spec fn tile_corner_items(index: TileIndex, state: u32) -> Seq<(TileIndex, (TileIndex, u32))> {
    square_vertices(index, false).map_values(|v: TileIndex| (v, (index, state)))
}

/// The corner values of the first `k` tiles of the automaton, walked `x` first.
pub open spec fn corner_items(sim: SimulationState, k: int) -> Seq<(TileIndex, (TileIndex, u32))>
    decreases k,
{
    if k <= 0 {
        Seq::empty()
    } else {
        let index = grid_tile(sim.tiling, k - 1);
        corner_items(sim, k - 1) + tile_corner_items(index, state_of(sim.cells(), adjusted_index(sim.tiling, index)))
    }
}

/// The corner values of the first `k` changed states.
pub open spec fn change_items(changes: Seq<(TileIndex, u32)>, k: int) -> Seq<(TileIndex, (TileIndex, u32))>
    decreases k,
{
    if k <= 0 {
        Seq::empty()
    } else {
        change_items(changes, k - 1) + tile_corner_items(changes[k - 1].0, changes[k - 1].1)
    }
}

pub proof fn lemma_extended_append<K, T>(m: Map<K, Seq<T>>, a: Seq<(K, T)>, b: Seq<(K, T)>)
    ensures
        extended(m, a + b) == extended(extended(m, a), b),
    decreases b.len(),
{
    if b.len() == 0 {
        assert(a + b =~= a);
    } else {
        lemma_extended_append(m, a, b.drop_last());
        assert((a + b).drop_last() =~= a + b.drop_last());
        assert((a + b).last() == b.last());
    }
}

proof fn lemma_grid_position(x: int, y: int, cols: int)
    requires
        0 <= y < cols,
        0 <= x,
    ensures
        (x * cols + y) / cols == x,
        (x * cols + y) % cols == y,
        x * cols + cols == (x + 1) * cols,
{
    vstd::arithmetic::div_mod::lemma_fundamental_div_mod_converse(x * cols + y, cols, x, y);
    assert(x * cols + cols == (x + 1) * cols) by (nonlinear_arith);
}

/// The queued corner values of a tile: one for each of its corners.
fn tile_items(vertices: &Vec<TileIndex>, index: TileIndex, state: u32) -> (r: Vec<(TileIndex, (TileIndex, u32))>)
    ensures
        r@ == vertices@.map_values(|v: TileIndex| (v, (index, state))),
{
    let mut items: Vec<(TileIndex, (TileIndex, u32))> = Vec::new();
    let mut i: usize = 0;
    while i < vertices.len()
        invariant
            i <= vertices@.len(),
            items@ == vertices@.subrange(0, i as int).map_values(|v: TileIndex| (v, (index, state))),
        decreases vertices@.len() - i,
    {
        items.push((vertices[i], (index, state)));
        i = i + 1;
        proof {
            assert(items@ =~= vertices@.subrange(0, i as int).map_values(|v: TileIndex| (v, (index, state))));
        }
    }
    proof {
        assert(vertices@.subrange(0, i as int) =~= vertices@);
    }
    items
}

impl CollapseState {
    /// Starts the collapse over for the tiling of the automaton. Only a square tiling
    /// has cells: one at height 0 for each tile of its dual, `x` first, with the
    /// states at its corners; and the state of every tile of the automaton is queued
    /// for each of the tile's corners, tile by tile, `x` first.
    pub fn rebuild_for_new_tiling<M>(&mut self, sim_state: &SimulationState, geom_data: &GeometryStorage<M>)
        requires
            sim_state.wf(),
            dual_defined(sim_state.tiling),
            geom_data.wf(),
        ensures
            final(self).max_height == 1,
            final(self).base_tiling == sim_state.tiling,
            final(self).dual_tiling == dual_of(sim_state.tiling),
            final(self).neighbor_restriction_updates@.len() == 0,
            !(final(self).dual_tiling.kind is Square) ==> final(self).entries@.len() == 0 && final(self).height_updates@.len() == 0,
            final(self).dual_tiling.kind is Square ==> {
                &&& final(self).wf()
                &&& final(self).entries@.len() == grid_rows(final(self).dual_tiling) * grid_cols(final(self).dual_tiling)
                &&& forall|k: int| 0 <= k < final(self).entries@.len() ==> {
                    let e = #[trigger] final(self).entries@[k];
                    &&& e.index_in_tiling == grid_tile(final(self).dual_tiling, k)
                    &&& e.height == 0
                    &&& e.current_mesh is None
                    &&& e.corner_data@ == corner_heights(*sim_state, e.index_in_tiling)
                    &&& e.edge_restrictions@.len() == 0
                    &&& !e.history_enabled
                }
                &&& lists_of(final(self).height_updates@) == extended(
                    Map::empty(),
                    corner_items(*sim_state, grid_rows(sim_state.tiling) * grid_cols(sim_state.tiling)),
                )
            },
    {
        self.entries = Vec::new();
        self.max_height = 1;
        self.base_tiling = sim_state.tiling;
        self.dual_tiling = sim_state.tiling.get_dual();
        self.height_updates = Vec::new();
        self.neighbor_restriction_updates = Vec::new();
        if self.dual_tiling.kind != TilingKind::Square {
            return;
        }
        let dual = self.dual_tiling;
        let entries = Self::dual_cells(sim_state, geom_data, dual);
        let updates = Self::corner_updates(sim_state);
        self.entries = entries;
        self.height_updates = updates;
    }

    /// The cells at height 0 of the tiles of the dual tiling, `x` first.
    fn dual_cells<M>(sim_state: &SimulationState, geom_data: &GeometryStorage<M>, dual: Tiling) -> (entries: Vec<CollapseEntry>)
        requires
            sim_state.wf(),
            geom_data.wf(),
            dual == dual_of(sim_state.tiling),
            dual.kind is Square,
            dual_defined(sim_state.tiling),
        ensures
            entries@.len() == grid_rows(dual) * grid_cols(dual),
            forall|k: int| 0 <= k < entries@.len() ==> #[trigger] cell_ready(entries@[k]),
            forall|k: int| 0 <= k < entries@.len() ==> {
                let e = #[trigger] entries@[k];
                &&& e.index_in_tiling == grid_tile(dual, k)
                &&& e.height == 0
                &&& e.current_mesh is None
                &&& e.corner_data@ == corner_heights(*sim_state, e.index_in_tiling)
                &&& e.edge_restrictions@.len() == 0
                &&& !e.history_enabled
            },
    {
        let ghost cols = grid_cols(dual);
        let mut entries: Vec<CollapseEntry> = Vec::new();
        let mut x: i32 = 0;
        while x < dual.max_index.x
            invariant
                sim_state.wf(),
                geom_data.wf(),
                dual == dual_of(sim_state.tiling),
                dual.kind is Square,
                dual_defined(sim_state.tiling),
                cols == grid_cols(dual),
                0 <= x,
                x <= dual.max_index.x || (dual.max_index.x <= 0 && x == 0),
                entries@.len() == x * cols,
                forall|k: int| 0 <= k < entries@.len() ==> #[trigger] cell_ready(entries@[k]),
                forall|k: int| 0 <= k < entries@.len() ==> {
                    let e = #[trigger] entries@[k];
                    &&& e.index_in_tiling == grid_tile(dual, k)
                    &&& e.height == 0
                    &&& e.current_mesh is None
                    &&& e.corner_data@ == corner_heights(*sim_state, e.index_in_tiling)
                    &&& e.edge_restrictions@.len() == 0
                    &&& !e.history_enabled
                },
            decreases dual.max_index.x - x,
        {
            let mut y: i32 = 0;
            while y < dual.max_index.y
                invariant
                    sim_state.wf(),
                    geom_data.wf(),
                    dual == dual_of(sim_state.tiling),
                    dual.kind is Square,
                    dual_defined(sim_state.tiling),
                    cols == grid_cols(dual),
                    0 <= x < dual.max_index.x,
                    0 <= y,
                    y <= dual.max_index.y || (dual.max_index.y <= 0 && y == 0),
                    entries@.len() == x * cols + y,
                    forall|k: int| 0 <= k < entries@.len() ==> #[trigger] cell_ready(entries@[k]),
                    forall|k: int| 0 <= k < entries@.len() ==> {
                        let e = #[trigger] entries@[k];
                        &&& e.index_in_tiling == grid_tile(dual, k)
                        &&& e.height == 0
                        &&& e.current_mesh is None
                        &&& e.corner_data@ == corner_heights(*sim_state, e.index_in_tiling)
                        &&& e.edge_restrictions@.len() == 0
                        &&& !e.history_enabled
                    },
                decreases dual.max_index.y - y,
            {
                let index = TileIndex { x, y };
                let entry = CollapseEntry::new(&dual, sim_state, geom_data, index, 0, false);
                let ghost before = entries@;
                entries.push(entry);
                proof {
                    lemma_grid_position(x as int, y as int, cols);
                    assert(entries@[before.len() as int] == entry);
                    assert forall|k: int| 0 <= k < entries@.len() implies #[trigger] cell_ready(entries@[k]) by {
                        if k < before.len() {
                            assert(entries@[k] == before[k]);
                        }
                    }
                }
                y = y + 1;
            }
            proof {
                if dual.max_index.y > 0 {
                    assert(y == cols);
                    lemma_grid_position(x as int, (cols - 1) as int, cols);
                    assert(entries@.len() == x * cols + cols);
                    assert(entries@.len() == (x + 1) * cols);
                } else {
                    assert(x * cols + 0 == (x + 1) * cols) by (nonlinear_arith)
                        requires cols == 0;
                }
            }
            x = x + 1;
        }
        proof {
            if dual.max_index.x <= 0 {
                assert(grid_rows(dual) * cols == 0);
            }
        }
        entries
    }

    /// The state of every tile of the automaton queued for each of its corners, tile
    /// by tile, `x` first.
    fn corner_updates(sim_state: &SimulationState) -> (updates: Vec<(TileIndex, Vec<(TileIndex, u32)>)>)
        requires
            sim_state.wf(),
            sim_state.tiling.kind is Square,
            dual_defined(sim_state.tiling),
        ensures
            keys_distinct(updates@),
            lists_of(updates@) == extended(
                Map::empty(),
                corner_items(*sim_state, grid_rows(sim_state.tiling) * grid_cols(sim_state.tiling)),
            ),
    {
        let tiling = sim_state.tiling;
        let ghost scols = grid_cols(tiling);
        let mut updates: Vec<(TileIndex, Vec<(TileIndex, u32)>)> = Vec::new();
        proof {
            crate::assoc::lemma_empty(updates@);
            assert(lists_of(updates@) =~= Map::<TileIndex, Seq<(TileIndex, u32)>>::empty());
        }
        let mut x: i32 = 0;
        while x < tiling.max_index.x
            invariant
                sim_state.wf(),
                tiling == sim_state.tiling,
                tiling.kind is Square,
                dual_defined(tiling),
                scols == grid_cols(tiling),
                0 <= x,
                x <= tiling.max_index.x || (tiling.max_index.x <= 0 && x == 0),
                keys_distinct(updates@),
                lists_of(updates@) == extended(Map::empty(), corner_items(*sim_state, x * scols)),
            decreases tiling.max_index.x - x,
        {
            let mut y: i32 = 0;
            while y < tiling.max_index.y
                invariant
                    sim_state.wf(),
                    tiling == sim_state.tiling,
                    tiling.kind is Square,
                    dual_defined(tiling),
                    scols == grid_cols(tiling),
                    0 <= x < tiling.max_index.x,
                    0 <= y,
                    y <= tiling.max_index.y || (tiling.max_index.y <= 0 && y == 0),
                    keys_distinct(updates@),
                    lists_of(updates@) == extended(Map::empty(), corner_items(*sim_state, x * scols + y)),
                decreases tiling.max_index.y - y,
            {
                let index = TileIndex { x, y };
                proof {
                    lemma_inner_index_adjustable(tiling, index);
                }
                let state = sim_state.get_at(index);
                let vertices = tiling.get_verticies(index, false);
                let items = tile_items(&vertices, index, state);
                updates.extend_elements(items);
                proof {
                    let k = x * scols + y;
                    lemma_grid_position(x as int, y as int, scols);
                    assert(grid_tile(tiling, k) == index);
                    assert(corner_items(*sim_state, k + 1) == corner_items(*sim_state, k) + items@);
                    lemma_extended_append(Map::empty(), corner_items(*sim_state, k), items@);
                }
                y = y + 1;
            }
            proof {
                if tiling.max_index.y > 0 {
                    lemma_grid_position(x as int, (scols - 1) as int, scols);
                } else {
                    assert(x * scols + 0 == (x + 1) * scols) by (nonlinear_arith)
                        requires scols == 0;
                }
            }
            x = x + 1;
        }
        proof {
            if tiling.max_index.x <= 0 {
                assert(grid_rows(tiling) * scols == 0);
            }
        }
        updates
    }
}

/// The position of the first cell at `index` and `height`.
fn find_cell(entries: &Vec<CollapseEntry>, index: TileIndex, height: u32) -> (r: Option<usize>)
    ensures
        match r {
            Some(p) => p < entries@.len() && entries@[p as int].index_in_tiling == index && entries@[p as int].height == height
                && first_at(entries@, p as int),
            None => forall|k: int| 0 <= k < entries@.len() ==> !(#[trigger] entries@[k].index_in_tiling == index
                && entries@[k].height == height),
        },
{
    let mut k: usize = 0;
    while k < entries.len()
        invariant
            k <= entries@.len(),
            forall|j: int| 0 <= j < k ==> !(#[trigger] entries@[j].index_in_tiling == index && entries@[j].height == height),
        decreases entries@.len() - k,
    {
        if entries[k].index_in_tiling == index && entries[k].height == height {
            return Some(k);
        }
        k = k + 1;
    }
    None
}

/// The cell to select: the first one without geometry with the fewest options, if
/// one has fewer than `usize::MAX`.
pub open spec fn selectable(entries: Seq<CollapseEntry>, p: int) -> bool {
    &&& 0 <= p < entries.len()
    &&& entries[p].current_mesh is None
    &&& entries[p].options < usize::MAX
    &&& forall|q: int| 0 <= q < entries.len() && (#[trigger] entries[q]).current_mesh is None ==> entries[q].options >= entries[p].options
    &&& forall|q: int| 0 <= q < p && (#[trigger] entries[q]).current_mesh is None ==> entries[q].options > entries[p].options
}

/// Every cell has chosen its geometry or has no option left to count.
pub open spec fn all_settled(entries: Seq<CollapseEntry>) -> bool {
    forall|q: int| 0 <= q < entries.len() && (#[trigger] entries[q]).current_mesh is None ==> entries[q].options == usize::MAX
}

/// Cell `k` is the first one at its tile and height.
pub open spec fn first_at(entries: Seq<CollapseEntry>, k: int) -> bool {
    forall|j: int| 0 <= j < k ==> !(#[trigger] entries[j].index_in_tiling == entries[k].index_in_tiling
        && entries[j].height == entries[k].height)
}

/// The cells that take corner values queued for `index`: the first cell at that tile
/// for each height below `max_height`.
pub open spec fn corner_target(entries: Seq<CollapseEntry>, k: int, index: TileIndex, max_height: u32) -> bool {
    entries[k].index_in_tiling == index && entries[k].height < max_height && first_at(entries, k)
}

/// The cell that takes restrictions queued for `index`: the first cell there.
pub open spec fn neighbor_target(entries: Seq<CollapseEntry>, k: int, index: CollapseEntryIndex) -> bool {
    entries[k].index_in_tiling == index.index && entries[k].height == index.height && first_at(entries, k)
}

fn find_selectable(entries: &Vec<CollapseEntry>) -> (r: Option<usize>)
    ensures
        match r {
            Some(p) => selectable(entries@, p as int),
            None => all_settled(entries@),
        },
{
    let mut smallest: usize = usize::MAX;
    let mut best: Option<usize> = None;
    let mut k: usize = 0;
    while k < entries.len()
        invariant
            k <= entries@.len(),
            forall|q: int| 0 <= q < k && (#[trigger] entries@[q]).current_mesh is None ==> entries@[q].options >= smallest,
            match best {
                Some(p) => p < k && entries@[p as int].current_mesh is None && entries@[p as int].options == smallest
                    && smallest < usize::MAX
                    && forall|q: int| 0 <= q < p && (#[trigger] entries@[q]).current_mesh is None ==> entries@[q].options > smallest,
                None => smallest == usize::MAX,
            },
        decreases entries@.len() - k,
    {
        if entries[k].current_mesh.is_none() && entries[k].options < smallest {
            smallest = entries[k].options;
            best = Some(k);
        }
        k = k + 1;
    }
    best
}

impl CollapseState {
    /// Queues each changed state of the automaton for the four corners of its tile,
    /// change by change. Without a square dual tiling nothing is queued.
    pub fn states_changed(&mut self, sim_state: &SimulationState, changes: &Vec<(TileIndex, u32)>)
        requires
            keys_distinct(old(self).height_updates@),
            old(self).dual_tiling.kind is Square ==> sim_state.tiling.kind is Square,
            old(self).dual_tiling.kind is Square ==> forall|i: int| 0 <= i < changes@.len()
                ==> square_vertices_defined(#[trigger] changes@[i].0, false),
        ensures
            keys_distinct(final(self).height_updates@),
            lists_of(final(self).height_updates@) == if old(self).dual_tiling.kind is Square {
                extended(lists_of(old(self).height_updates@), change_items(changes@, changes@.len() as int))
            } else {
                lists_of(old(self).height_updates@)
            },
            final(self).entries@ == old(self).entries@,
            final(self).neighbor_restriction_updates@ == old(self).neighbor_restriction_updates@,
            final(self).dual_tiling == old(self).dual_tiling,
            final(self).base_tiling == old(self).base_tiling,
            final(self).max_height == old(self).max_height,
    {
        if self.dual_tiling.kind != TilingKind::Square {
            return;
        }
        let ghost start = lists_of(self.height_updates@);
        let mut i: usize = 0;
        while i < changes.len()
            invariant
                i <= changes@.len(),
                sim_state.tiling.kind is Square,
                forall|j: int| 0 <= j < changes@.len() ==> square_vertices_defined(#[trigger] changes@[j].0, false),
                keys_distinct(self.height_updates@),
                lists_of(self.height_updates@) == extended(start, change_items(changes@, i as int)),
                self.entries@ == old(self).entries@,
                self.neighbor_restriction_updates@ == old(self).neighbor_restriction_updates@,
                self.dual_tiling == old(self).dual_tiling,
                self.base_tiling == old(self).base_tiling,
                self.max_height == old(self).max_height,
            decreases changes@.len() - i,
        {
            let (corner, value) = changes[i];
            let vertices = sim_state.tiling.get_verticies(corner, false);
            let items = tile_items(&vertices, corner, value);
            self.height_updates.extend_elements(items);
            proof {
                lemma_extended_append(start, change_items(changes@, i as int), items@);
            }
            i = i + 1;
        }
    }
}

/// Some cell sits at tile `index` and height `h`.
pub open spec fn has_cell(entries: Seq<CollapseEntry>, index: TileIndex, h: int) -> bool {
    exists|k: int| 0 <= k < entries.len() && #[trigger] entries[k].index_in_tiling == index && entries[k].height == h
}

/// The cells at corner `index` below `max_height` took the corner values, the cell at
/// height `h` sending `sent[h]` (nothing where no cell is at that height), and the
/// queue of restrictions got what they sent, in the order of the heights.
pub open spec fn corners_handed<M>(before: CollapseState, after: CollapseState, index: TileIndex, geom_data: GeometryStorage<M>,
    sent: Seq<Seq<(CollapseEntryIndex, CollapseNeighborUpdate)>>) -> bool {
    &&& sent.len() == before.max_height
    &&& forall|k: int| #![trigger after.entries@[k]] 0 <= k < before.entries@.len() && corner_target(before.entries@, k, index, before.max_height)
        ==> corners_processed(before.entries@[k], after.entries@[k], before.height_updates@[0].1@, geom_data, before.dual_tiling,
            sent[before.entries@[k].height as int])
    &&& forall|h: int| 0 <= h < sent.len() && !has_cell(before.entries@, index, h) ==> #[trigger] sent[h] == Seq::<(CollapseEntryIndex, CollapseNeighborUpdate)>::empty()
    &&& lists_of(after.neighbor_restriction_updates@) == extended(lists_of(before.neighbor_restriction_updates@), sent.flatten_alt())
}

/// Cell `before` took the restrictions `updates` and became `after`, and the queue
/// `queue_after` is `queue_before` with what it sent.
pub open spec fn took_restrictions<M>(before: CollapseEntry, after: CollapseEntry, updates: Seq<CollapseNeighborUpdate>,
    geom_data: GeometryStorage<M>, dual: Tiling, queue_before: Map<CollapseEntryIndex, Seq<CollapseNeighborUpdate>>,
    queue_after: Map<CollapseEntryIndex, Seq<CollapseNeighborUpdate>>) -> bool {
    exists|sent: Seq<(CollapseEntryIndex, CollapseNeighborUpdate)>| #[trigger] neighbors_processed(before, after, updates, geom_data, dual, sent)
        && queue_after == extended(queue_before, sent)
}

/// Some cell is the one that takes restrictions queued for `index`.
pub open spec fn has_neighbor_target(entries: Seq<CollapseEntry>, index: CollapseEntryIndex) -> bool {
    exists|k: int| 0 <= k < entries.len() && #[trigger] neighbor_target(entries, k, index)
}

/// What a step that handed the first queued corner values to their cells did: the
/// first cell at that corner for each height below `max_height` took the values, the
/// other cells kept theirs, and what the cells sent was queued.
pub open spec fn height_step<M>(before: CollapseState, after: CollapseState, index: TileIndex, geom_data: GeometryStorage<M>) -> bool {
    &&& before.height_updates@.len() > 0
    &&& before.height_updates@[0].0 == index
    &&& after.height_updates@ == before.height_updates@.drop_first()
    &&& after.entries@.len() == before.entries@.len()
    &&& exists|sent: Seq<Seq<(CollapseEntryIndex, CollapseNeighborUpdate)>>| #[trigger] corners_handed(before, after, index, geom_data, sent)
    &&& forall|k: int| #![trigger after.entries@[k]] 0 <= k < before.entries@.len() && !corner_target(before.entries@, k, index, before.max_height)
        ==> after.entries@[k] == before.entries@[k]
}

/// What a step that handed the restrictions queued first to their cell did: the first
/// cell with that key took them, the other cells kept theirs, the entry left the queue
/// and what the cell sent was queued; with no such cell the entry just left the queue.
pub open spec fn neighbor_step<M>(before: CollapseState, after: CollapseState, index: CollapseEntryIndex, geom_data: GeometryStorage<M>) -> bool {
    &&& before.neighbor_restriction_updates@.len() > 0
    &&& before.neighbor_restriction_updates@[0].0 == index
    &&& after.height_updates@ == before.height_updates@
    &&& after.entries@.len() == before.entries@.len()
    &&& forall|k: int| #![trigger after.entries@[k]] 0 <= k < before.entries@.len() && neighbor_target(before.entries@, k, index)
        ==> took_restrictions(before.entries@[k], after.entries@[k], before.neighbor_restriction_updates@[0].1@, geom_data,
            before.dual_tiling, lists_of(before.neighbor_restriction_updates@.drop_first()), lists_of(after.neighbor_restriction_updates@))
    &&& forall|k: int| #![trigger after.entries@[k]] 0 <= k < before.entries@.len() && !neighbor_target(before.entries@, k, index)
        ==> after.entries@[k] == before.entries@[k]
    &&& !has_neighbor_target(before.entries@, index)
        ==> lists_of(after.neighbor_restriction_updates@) == lists_of(before.neighbor_restriction_updates@.drop_first())
}

/// What a step that made a cell choose its geometry did: the selectable cell with key
/// `index` recomputed its restrictions and chose, the other cells kept theirs, and the
/// restriction queue, empty before, holds what it sent.
pub open spec fn selection_step<M>(before: CollapseState, after: CollapseState, index: CollapseEntryIndex, geom_data: GeometryStorage<M>) -> bool {
    &&& before.neighbor_restriction_updates@.len() == 0
    &&& after.height_updates@ == before.height_updates@
    &&& exists|p: int| #[trigger] selectable(before.entries@, p)
        && before.entries@[p].index_in_tiling == index.index && before.entries@[p].height == index.height
        && after.entries@ == before.entries@.update(p, after.entries@[p])
        && exists|s: GeometryHandleSet, sent: Seq<(CollapseEntryIndex, CollapseNeighborUpdate)>|
            narrowed_set(s, before.entries@[p], geom_data)
            && #[trigger] recomputed(before.entries@[p], after.entries@[p], geom_data, before.dual_tiling, true, s, sent)
            && lists_of(after.neighbor_restriction_updates@) == extended(Map::empty(), sent)
}

/// What a step with nothing left to do did: nothing, every cell being settled.
pub open spec fn done_step(before: CollapseState, after: CollapseState) -> bool {
    &&& all_settled(before.entries@)
    &&& after.entries@ == before.entries@
    &&& after.height_updates@ == before.height_updates@
    &&& after.neighbor_restriction_updates@ == before.neighbor_restriction_updates@
}

impl CollapseState {
    /// Hands the first queued corner values to the first cell at that corner for each
    /// height, and queues what those cells send.
    #[verifier::spinoff_prover]
    #[verifier::rlimit(40)]
    fn take_height_update<M>(&mut self, geom_data: &GeometryStorage<M>) -> (index: TileIndex)
        requires
            old(self).wf(),
            old(self).height_updates@.len() > 0,
            geom_data.wf(),
            storage_walls_closed(*geom_data),
            storage_countable(*geom_data),
        ensures
            final(self).wf(),
            final(self).dual_tiling == old(self).dual_tiling,
            final(self).base_tiling == old(self).base_tiling,
            final(self).max_height == old(self).max_height,
            height_step(*old(self), *final(self), index, *geom_data),
    {
        let ghost start = *self;
        let dual = self.dual_tiling;
        let (index, updates) = self.height_updates.remove(0);
        proof {
            assert(self.height_updates@ =~= start.height_updates@.drop_first());
            assert forall|a: int, b: int| 0 <= a < self.height_updates@.len() && 0 <= b < self.height_updates@.len() && a != b
                implies self.height_updates@[a].0 != self.height_updates@[b].0 by {
                assert(self.height_updates@[a] == start.height_updates@[a + 1]);
                assert(self.height_updates@[b] == start.height_updates@[b + 1]);
            }
        }
        let ghost values = updates@;
        assert(values == start.height_updates@[0].1@);
        let ghost mut sent: Seq<Seq<(CollapseEntryIndex, CollapseNeighborUpdate)>> = Seq::empty();
        let mut h: u32 = 0;
        while h < self.max_height
            invariant
                self.dual_tiling == dual,
                dual.kind is Square,
                dual == start.dual_tiling,
                self.max_height == start.max_height,
                self.base_tiling == start.base_tiling,
                geom_data.wf(),
                storage_walls_closed(*geom_data),
                storage_countable(*geom_data),
                h <= self.max_height,
                updates@ == values,
                self.height_updates@ == start.height_updates@.drop_first(),
                keys_distinct(self.height_updates@),
                keys_distinct(self.neighbor_restriction_updates@),
                self.entries@.len() == start.entries@.len(),
                forall|i: int| 0 <= i < self.entries@.len() ==> #[trigger] cell_ready(self.entries@[i]),
                forall|k: int| 0 <= k < start.entries@.len() ==> (#[trigger] self.entries@[k]).index_in_tiling
                    == start.entries@[k].index_in_tiling && self.entries@[k].height == start.entries@[k].height,
                forall|k: int| #![trigger self.entries@[k]] 0 <= k < start.entries@.len() && corner_target(start.entries@, k, index, h)
                    ==> corners_processed(start.entries@[k], self.entries@[k], values, *geom_data, dual,
                        sent[start.entries@[k].height as int]),
                sent.len() == h,
                forall|g: int| 0 <= g < h && !has_cell(start.entries@, index, g) ==> #[trigger] sent[g]
                    == Seq::<(CollapseEntryIndex, CollapseNeighborUpdate)>::empty(),
                forall|k: int| #![trigger self.entries@[k]] 0 <= k < start.entries@.len() && !corner_target(start.entries@, k, index, h)
                    ==> self.entries@[k] == start.entries@[k],
                lists_of(self.neighbor_restriction_updates@) == extended(lists_of(start.neighbor_restriction_updates@), sent.flatten_alt()),
            decreases self.max_height - h,
        {
            match find_cell(&self.entries, index, h) {
                Some(p) => {
                    let ghost before = self.entries@;
                    proof {
                        assert(first_at(start.entries@, p as int)) by {
                            assert forall|j: int| 0 <= j < p implies !(#[trigger] start.entries@[j].index_in_tiling
                                == start.entries@[p as int].index_in_tiling && start.entries@[j].height == start.entries@[p as int].height) by {
                                assert(before[j].index_in_tiling == start.entries@[j].index_in_tiling);
                            }
                        }
                        assert(!corner_target(start.entries@, p as int, index, h));
                        assert(before[p as int] == start.entries@[p as int]);
                    }
                    let ghost old_sent = sent;
                    let mut e = self.entries.remove(p);
                    proof {
                        assert(e == before[p as int]);
                        assert(cell_ready(e));
                    }
                    let out = e.vertex_set_to(updates.as_slice(), &dual, geom_data);
                    self.entries.insert(p, e);
                    proof {
                        assert(self.entries@ =~= before.update(p as int, e));
                        assert(corners_processed(start.entries@[p as int], self.entries@[p as int], values, *geom_data, dual, out@));
                        assert forall|i: int| 0 <= i < self.entries@.len() implies #[trigger] cell_ready(self.entries@[i]) by {
                            if i != p {
                                assert(self.entries@[i] == before[i]);
                            }
                        }
                        sent = sent.push(out@);
                        assert forall|k: int| #![trigger self.entries@[k]] 0 <= k < start.entries@.len() && corner_target(start.entries@, k, index, (h + 1) as u32)
                            implies corners_processed(start.entries@[k], self.entries@[k], values, *geom_data, dual,
                                sent[start.entries@[k].height as int]) by {
                            if k == p {
                                assert(corners_processed(start.entries@[k], self.entries@[k], values, *geom_data, dual, out@));
                            } else {
                                assert(self.entries@[k] == before[k]);
                                assert(before[k].index_in_tiling == start.entries@[k].index_in_tiling);
                                assert(before[k].height == start.entries@[k].height);
                                if start.entries@[k].height == h {
                                    if k < p {
                                        assert(!(before[k].index_in_tiling == before[p as int].index_in_tiling
                                            && before[k].height == before[p as int].height));
                                    } else {
                                        assert(first_at(start.entries@, k));
                                        assert(!(start.entries@[p as int].index_in_tiling == start.entries@[k].index_in_tiling
                                            && start.entries@[p as int].height == start.entries@[k].height));
                                    }
                                    assert(false);
                                }
                                assert(corner_target(start.entries@, k, index, h));
                                assert(sent[start.entries@[k].height as int] == old_sent[start.entries@[k].height as int]);
                            }
                        }
                        assert forall|g: int| 0 <= g < h + 1 && !has_cell(start.entries@, index, g) implies #[trigger] sent[g]
                            == Seq::<(CollapseEntryIndex, CollapseNeighborUpdate)>::empty() by {
                            if g == h {
                                assert(start.entries@[p as int].index_in_tiling == index && start.entries@[p as int].height == h);
                            } else {
                                assert(sent[g] == old_sent[g]);
                            }
                        }
                        assert forall|k: int| #![trigger self.entries@[k]] 0 <= k < start.entries@.len() && !corner_target(start.entries@, k, index, (h + 1) as u32)
                            implies #[trigger] self.entries@[k] == start.entries@[k] by {
                            if k != p {
                                assert(self.entries@[k] == before[k]);
                            }
                        }
                    }
                    self.neighbor_restriction_updates.extend_elements(out);
                    proof {
                        lemma_extended_append(lists_of(start.neighbor_restriction_updates@), old_sent.flatten_alt(), out@);
                        assert(sent.drop_last() =~= old_sent);
                        assert(sent.flatten_alt() == old_sent.flatten_alt() + out@);
                    }
                },
                None => {
                    proof {
                        let old_sent = sent;
                        sent = sent.push(Seq::empty());
                        assert(sent.drop_last() =~= old_sent);
                        assert(sent.flatten_alt() =~= old_sent.flatten_alt());
                        assert(!has_cell(start.entries@, index, h as int)) by {
                            if has_cell(start.entries@, index, h as int) {
                                let k = choose|k: int| 0 <= k < start.entries@.len() && #[trigger] start.entries@[k].index_in_tiling == index
                                    && start.entries@[k].height == h;
                                assert(self.entries@[k].index_in_tiling == start.entries@[k].index_in_tiling);
                                assert(!(self.entries@[k].index_in_tiling == index && self.entries@[k].height == h));
                            }
                        }
                        assert forall|g: int| 0 <= g < h + 1 && !has_cell(start.entries@, index, g) implies #[trigger] sent[g]
                            == Seq::<(CollapseEntryIndex, CollapseNeighborUpdate)>::empty() by {
                            if g < h {
                                assert(sent[g] == old_sent[g]);
                            }
                        }
                        assert forall|k: int| #![trigger self.entries@[k]] 0 <= k < start.entries@.len() && corner_target(start.entries@, k, index, (h + 1) as u32)
                            implies corners_processed(start.entries@[k], self.entries@[k], values, *geom_data, dual,
                                sent[start.entries@[k].height as int]) by {
                            assert(self.entries@[k].index_in_tiling == start.entries@[k].index_in_tiling);
                            assert(self.entries@[k].height == start.entries@[k].height);
                            assert(!(self.entries@[k].index_in_tiling == index && self.entries@[k].height == h));
                            assert(corner_target(start.entries@, k, index, h));
                            assert(sent[start.entries@[k].height as int] == old_sent[start.entries@[k].height as int]);
                        }
                        assert forall|k: int| #![trigger self.entries@[k]] 0 <= k < start.entries@.len() && !corner_target(start.entries@, k, index, (h + 1) as u32)
                            implies #[trigger] self.entries@[k] == start.entries@[k] by {
                            assert(self.entries@[k].index_in_tiling == start.entries@[k].index_in_tiling);
                        }
                    }
                },
            }
            h = h + 1;
        }
        proof {
            assert(corners_handed(start, *self, index, *geom_data, sent));
            assert(height_step(start, *self, index, *geom_data));
        }
        index
    }

    /// Hands the first queued restrictions to the first cell with their key, and
    /// queues what that cell sends.
    #[verifier::spinoff_prover]
    fn take_neighbor_update<M>(&mut self, geom_data: &GeometryStorage<M>) -> (index: CollapseEntryIndex)
        requires
            old(self).wf(),
            old(self).neighbor_restriction_updates@.len() > 0,
            geom_data.wf(),
            storage_walls_closed(*geom_data),
            storage_countable(*geom_data),
        ensures
            final(self).wf(),
            final(self).dual_tiling == old(self).dual_tiling,
            final(self).base_tiling == old(self).base_tiling,
            final(self).max_height == old(self).max_height,
            neighbor_step(*old(self), *final(self), index, *geom_data),
    {
        let ghost start = *self;
        let dual = self.dual_tiling;
        let (index, updates) = self.neighbor_restriction_updates.remove(0);
        let ghost rest = self.neighbor_restriction_updates@;
        proof {
            assert(rest =~= start.neighbor_restriction_updates@.drop_first());
            assert forall|a: int, b: int| 0 <= a < rest.len() && 0 <= b < rest.len() && a != b
                implies rest[a].0 != rest[b].0 by {
                assert(rest[a] == start.neighbor_restriction_updates@[a + 1]);
                assert(rest[b] == start.neighbor_restriction_updates@[b + 1]);
            }
            assert(extended(lists_of(rest), Seq::<(CollapseEntryIndex, CollapseNeighborUpdate)>::empty()) == lists_of(rest));
        }
        match find_cell(&self.entries, index.index, index.height) {
            Some(p) => {
                let ghost before = self.entries@;
                let mut e = self.entries.remove(p);
                proof {
                    assert(e == before[p as int]);
                    assert(cell_ready(e));
                }
                let ghost handed = updates@;
                let out = e.process_neighbor_updates(updates, &dual, geom_data);
                self.entries.insert(p, e);
                proof {
                    assert(self.entries@ =~= before.update(p as int, e));
                    assert forall|i: int| 0 <= i < self.entries@.len() implies #[trigger] cell_ready(self.entries@[i]) by {
                        if i != p {
                            assert(self.entries@[i] == before[i]);
                        }
                    }
                    assert forall|k: int| #![trigger self.entries@[k]] 0 <= k < before.len() && !neighbor_target(before, k, index)
                        implies self.entries@[k] == before[k] by {
                        if k == p {
                            assert(neighbor_target(before, k, index));
                        }
                    }
                }
                self.neighbor_restriction_updates.extend_elements(out);
                proof {
                    assert(neighbors_processed(before[p as int], self.entries@[p as int], handed, *geom_data, dual, out@));
                    assert(lists_of(self.neighbor_restriction_updates@) == extended(lists_of(rest), out@));
                    assert forall|k: int| #![trigger self.entries@[k]] 0 <= k < before.len() && neighbor_target(before, k, index)
                        implies took_restrictions(before[k], self.entries@[k], handed, *geom_data, dual, lists_of(rest),
                            lists_of(self.neighbor_restriction_updates@)) by {
                        if k == p {
                            assert(neighbors_processed(before[p as int], self.entries@[p as int], handed, *geom_data, dual, out@));
                        } else {
                            if k < p {
                                assert(!(before[k].index_in_tiling == index.index && before[k].height == index.height));
                            } else {
                                assert(!(before[p as int].index_in_tiling == before[k].index_in_tiling
                                    && before[p as int].height == before[k].height));
                            }
                        }
                    }
                    assert(neighbor_target(before, p as int, index));
                    assert(has_neighbor_target(before, index));
                }
            },
            None => {
                proof {
                    assert forall|k: int| #![trigger self.entries@[k]] 0 <= k < self.entries@.len()
                        implies !neighbor_target(self.entries@, k, index) by {
                        assert(!(self.entries@[k].index_in_tiling == index.index && self.entries@[k].height == index.height));
                    }
                }
            },
        }
        proof {
            assert(rest =~= start.neighbor_restriction_updates@.drop_first());
            assert(self.height_updates@ == start.height_updates@);
            assert(neighbor_step(start, *self, index, *geom_data));
        }
        index
    }

    /// Makes the first cell without geometry with the fewest options choose its
    /// geometry and queues what it sends; `None` where every cell is settled.
    #[verifier::spinoff_prover]
    fn select_cell<M>(&mut self, geom_data: &GeometryStorage<M>) -> (r: Option<CollapseEntryIndex>)
        requires
            old(self).wf(),
            old(self).neighbor_restriction_updates@.len() == 0,
            geom_data.wf(),
            storage_walls_closed(*geom_data),
            storage_countable(*geom_data),
        ensures
            final(self).wf(),
            final(self).dual_tiling == old(self).dual_tiling,
            final(self).base_tiling == old(self).base_tiling,
            final(self).max_height == old(self).max_height,
            match r {
                Some(index) => selection_step(*old(self), *final(self), index, *geom_data),
                None => done_step(*old(self), *final(self)),
            },
    {
        let ghost start = *self;
        let dual = self.dual_tiling;
        match find_selectable(&self.entries) {
            Some(p) => {
                let ghost before = self.entries@;
                let mut e = self.entries.remove(p);
                proof {
                    assert(e == before[p as int]);
                    assert(cell_ready(e));
                }
                let index = CollapseEntryIndex::new(e.index_in_tiling, e.height);
                let out = e.recompute_from_restrictions(true, &dual, geom_data);
                self.entries.insert(p, e);
                proof {
                    assert(self.entries@ =~= before.update(p as int, e));
                    assert forall|i: int| 0 <= i < self.entries@.len() implies #[trigger] cell_ready(self.entries@[i]) by {
                        if i != p {
                            assert(self.entries@[i] == before[i]);
                        }
                    }
                    crate::assoc::lemma_empty(self.neighbor_restriction_updates@);
                    assert(lists_of(self.neighbor_restriction_updates@) =~= Map::<CollapseEntryIndex, Seq<CollapseNeighborUpdate>>::empty());
                }
                self.neighbor_restriction_updates.extend_elements(out);
                proof {
                    let s = choose|s: GeometryHandleSet| narrowed_set(s, before[p as int], *geom_data)
                        && #[trigger] recomputed(before[p as int], e, *geom_data, dual, true, s, out@);
                    assert(self.entries@[p as int] == e);
                    assert(narrowed_set(s, before[p as int], *geom_data)
                        && recomputed(before[p as int], self.entries@[p as int], *geom_data, start.dual_tiling, true, s, out@)
                        && lists_of(self.neighbor_restriction_updates@) == extended(Map::empty(), out@));
                    assert(selectable(start.entries@, p as int));
                }
                Some(index)
            },
            None => None,
        }
    }

    /// One step of the collapse. Corner values queued for a corner go first: the
    /// first queued corner hands its values to its cells at each height. Otherwise the
    /// restrictions queued for the first queued cell go to that cell. Otherwise the
    /// first cell without geometry with the fewest options selects its geometry.
    /// What the cells send their neighbours is queued.
    pub fn step<M>(&mut self, geom_data: &GeometryStorage<M>) -> (r: CollapseStep)
        requires
            old(self).wf(),
            geom_data.wf(),
            storage_walls_closed(*geom_data),
            storage_countable(*geom_data),
        ensures
            final(self).wf(),
            final(self).dual_tiling == old(self).dual_tiling,
            final(self).base_tiling == old(self).base_tiling,
            final(self).max_height == old(self).max_height,
            match r {
                CollapseStep::HeightUpdate(index) => height_step(*old(self), *final(self), index, *geom_data),
                CollapseStep::NeighborUpdate(index) => {
                    &&& old(self).height_updates@.len() == 0
                    &&& neighbor_step(*old(self), *final(self), index, *geom_data)
                },
                CollapseStep::Selected(index) => {
                    &&& old(self).height_updates@.len() == 0
                    &&& selection_step(*old(self), *final(self), index, *geom_data)
                },
                CollapseStep::Done => {
                    &&& old(self).height_updates@.len() == 0
                    &&& old(self).neighbor_restriction_updates@.len() == 0
                    &&& done_step(*old(self), *final(self))
                },
            },
    {
        if self.height_updates.len() > 0 {
            let index = self.take_height_update(geom_data);
            return CollapseStep::HeightUpdate(index);
        }
        if self.neighbor_restriction_updates.len() > 0 {
            let index = self.take_neighbor_update(geom_data);
            return CollapseStep::NeighborUpdate(index);
        }
        match self.select_cell(geom_data) {
            Some(index) => CollapseStep::Selected(index),
            None => CollapseStep::Done,
        }
    }
}

impl CollapseState {
    /// The cell that a step would make select its geometry, were both queues empty.
    pub fn next_selection(&self) -> (r: Option<CollapseEntryIndex>)
        ensures
            match r {
                Some(index) => exists|p: int| #[trigger] selectable(self.entries@, p)
                    && self.entries@[p].index_in_tiling == index.index && self.entries@[p].height == index.height,
                None => all_settled(self.entries@),
            },
    {
        match find_selectable(&self.entries) {
            Some(p) => {
                let index = CollapseEntryIndex::new(self.entries[p].index_in_tiling, self.entries[p].height);
                proof {
                    assert(selectable(self.entries@, p as int));
                }
                Some(index)
            },
            None => None,
        }
    }
}

/// The cell key at corner `index` and height `h`.
pub open spec fn key_at(index: TileIndex, h: int) -> CollapseEntryIndex {
    CollapseEntryIndex { index, height: h as u32 }
}

/// Whether the step about to run would touch a watched cell, and which: with corner
/// values queued, the lowest height below `max_height` whose cell at the first queued
/// corner is watched; otherwise, with restrictions queued, the first queued key if it
/// is watched; otherwise the cell about to be selected if it is watched.
pub open spec fn watched_next(s: CollapseState, watched: Seq<CollapseEntryIndex>, r: Option<CollapseEntryIndex>) -> bool {
    if s.height_updates@.len() > 0 {
        let index = s.height_updates@[0].0;
        match r {
            Some(k) => k.index == index && k.height < s.max_height && watched.contains(k)
                && forall|h: int| 0 <= h < k.height ==> !watched.contains(#[trigger] key_at(index, h)),
            None => forall|h: int| 0 <= h < s.max_height ==> !watched.contains(#[trigger] key_at(index, h)),
        }
    } else if s.neighbor_restriction_updates@.len() > 0 {
        let key = s.neighbor_restriction_updates@[0].0;
        r == if watched.contains(key) { Some(key) } else { None::<CollapseEntryIndex> }
    } else {
        match r {
            Some(k) => watched.contains(k) && exists|p: int| #[trigger] selectable(s.entries@, p)
                && s.entries@[p].index_in_tiling == k.index && s.entries@[p].height == k.height,
            None => all_settled(s.entries@) || forall|p: int| #[trigger] selectable(s.entries@, p)
                ==> !watched.contains(key_at(s.entries@[p].index_in_tiling, s.entries@[p].height as int)),
        }
    }
}

impl CollapseState {
    /// The watched cell, from `watched`, that the step about to run would touch, if
    /// any (see `watched_next`).
    pub fn watched_target(&self, watched: &Vec<CollapseEntryIndex>) -> (r: Option<CollapseEntryIndex>)
        ensures
            watched_next(*self, watched@, r),
    {
        if self.height_updates.len() > 0 {
            let index = self.height_updates[0].0;
            let mut h: u32 = 0;
            while h < self.max_height
                invariant
                    self.height_updates@.len() > 0,
                    index == self.height_updates@[0].0,
                    h <= self.max_height,
                    forall|g: int| 0 <= g < h ==> !watched@.contains(#[trigger] key_at(index, g)),
                decreases self.max_height - h,
            {
                let key = CollapseEntryIndex::new(index, h);
                if position_of(watched, key).is_some() {
                    proof {
                        assert(key == key_at(index, h as int));
                    }
                    return Some(key);
                }
                proof {
                    assert(key == key_at(index, h as int));
                }
                h = h + 1;
            }
            return None;
        }
        if self.neighbor_restriction_updates.len() > 0 {
            let key = self.neighbor_restriction_updates[0].0;
            return if position_of(watched, key).is_some() { Some(key) } else { None };
        }
        match self.next_selection() {
            Some(key) => {
                if position_of(watched, key).is_some() {
                    Some(key)
                } else {
                    proof {
                        assert forall|p: int| #[trigger] selectable(self.entries@, p)
                            implies !watched@.contains(key_at(self.entries@[p].index_in_tiling, self.entries@[p].height as int)) by {
                            let q = choose|q: int| #[trigger] selectable(self.entries@, q)
                                && self.entries@[q].index_in_tiling == key.index && self.entries@[q].height == key.height;
                            lemma_selectable_unique(self.entries@, p, q);
                            assert(key_at(self.entries@[p].index_in_tiling, self.entries@[p].height as int) == key);
                        }
                    }
                    None
                }
            },
            None => None,
        }
    }
}

/// At most one cell is selectable.
proof fn lemma_selectable_unique(entries: Seq<CollapseEntry>, p: int, q: int)
    requires
        selectable(entries, p),
        selectable(entries, q),
    ensures
        p == q,
{
    if p < q {
        assert(entries[p].current_mesh is None);
    } else if q < p {
        assert(entries[q].current_mesh is None);
    }
}

} // verus!
