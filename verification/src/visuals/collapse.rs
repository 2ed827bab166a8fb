use vstd::prelude::*;

use crate::simulation::{state_of, SimulationState};
use crate::tiling::{
    adjusted_index, index_in_bounds, square_adjacent, square_vertices, square_vertices_defined, TileIndex, Tiling,
};
use super::geom::build_profiles::{bit_positions, bit_set, wall_indices_in_bits, WallProfileIndex};
use super::geom::geom::{
    handle_side_known, oriented_wall, oriented_wall_defined, wall_union_length, wall_union_views, walls_mask,
    GeometryStorage, GeometryStorageVerticalKey, GeometryStorageWallKey,
};
use super::geom::handles::{
    entries_map, lemma_entries_determined,
    all_wf, and_range, cyclic_max_rotations, entry_handles, handles_of, lemma_entries_map_keys, intersection_map, map_holds, mask_at,
    mask_orientations, set_views, union_map, GeometryHandle, GeometryHandleSet, GeometryHandleSetEntry,
};
use super::geom::orientations::{candidate, law_from_bits_recovers_orientation, orientations_in_bits, GeomOrientation};
use super::geom::vertical::{indicator_of, unturned, VerticalProfile};

verus! {

/// A cell of the collapse: a tile of the dual tiling at some height.
#[derive(Clone, Copy, PartialEq, Eq, Hash, Debug, Structural)]
pub struct CollapseEntryIndex {
    pub index: TileIndex,
    pub height: u32,
}

impl CollapseEntryIndex {
    pub fn new(index: TileIndex, height: u32) -> (r: Self)
        ensures
            r == (CollapseEntryIndex { index, height }),
    {
        Self { index, height }
    }
}

/// What a cell tells a neighbour: the side profiles the neighbour may show on its
/// side `side`.
#[derive(Clone, Copy, PartialEq, Eq, Hash, Debug, Structural)]
pub struct CollapseNeighborUpdate {
    pub side: usize,
    pub walls: u128,
    pub from_neighbor: TileIndex,
}

/// What happened to a cell, kept for inspection.
#[derive(Clone, Copy, PartialEq, Eq, Debug, Structural)]
pub enum CollapseHistory {
    SetCorner(TileIndex, u32),
    SetEdge(TileIndex, usize, u128, Option<u128>),
    Selected(GeometryHandle, usize),
    DownTo(GeometryHandle),
    SendingUpdates(TileIndex, u32, u128),
    Deselected(bool),
}

/// The side profiles allowed on one edge of a cell, by what its neighbour told it.
#[derive(Clone, Copy, PartialEq, Eq, Debug, Structural)]
pub struct EdgeRestriction {
    pub edge: usize,
    pub restruction: Option<u128>,
}

/// A cell of the collapse: the heights at its corners, the geometry they allow, the
/// restrictions its neighbours sent, and the geometry it settled on.
pub struct CollapseEntry {
    pub index_in_tiling: TileIndex,
    pub height: u32,
    pub options: usize,
    pub current_mesh: Option<GeometryHandle>,
    pub corner_data: Vec<(TileIndex, u32)>,
    pub current_bottom_indicator: usize,
    pub current_top_indicator: usize,
    pub edge_restrictions: Vec<EdgeRestriction>,
    pub possible_geometry_entries_from_corner_data: GeometryHandleSet,
    pub history: Vec<CollapseHistory>,
    pub history_enabled: bool,
}

/// The vertical profile a corner of height `h` shows at height `level`.
pub open spec fn corner_profile(h: u32, level: int) -> VerticalProfile {
    if h < level {
        VerticalProfile::Empty
    } else if h == level {
        VerticalProfile::Full
    } else {
        VerticalProfile::Stackable
    }
}

pub open spec fn corner_profiles(corners: Seq<(TileIndex, u32)>, level: int) -> Seq<VerticalProfile> {
    corners.map_values(|c: (TileIndex, u32)| corner_profile(c.1, level))
}

/// The corners of a cell of the dual tiling with the states of the simulation tiles
/// there; tiles outside the simulation count as 0.
pub open spec fn corner_heights(sim: SimulationState, index: TileIndex) -> Seq<(TileIndex, u32)> {
    square_vertices(index, true).map_values(
        |v: TileIndex| (v, if index_in_bounds(sim.tiling, v) { state_of(sim.cells(), adjusted_index(sim.tiling, v)) } else { 0u32 }),
    )
}

/// The bits of the side profiles an edge restriction allows: all when none was sent.
pub open spec fn allowed_wall_bits(e: EdgeRestriction) -> u128 {
    match e.restruction {
        Some(walls) => u128::MAX & walls,
        None => u128::MAX,
    }
}

/// The handle sets allowed by the walls each edge restriction allows.
pub open spec fn edge_views<M>(geom: GeometryStorage<M>, corner_count: usize, edges: Seq<EdgeRestriction>) -> Seq<Map<usize, usize>> {
    edges.map_values(|e: EdgeRestriction| union_map(
        wall_union_views(geom.side_wall_profile_to_geom_handle@, corner_count, e.edge, wall_indices_in_bits(allowed_wall_bits(e))),
    ))
}

/// Every edge restriction can be turned into a handle set without overflow.
pub open spec fn edges_countable<M>(geom: GeometryStorage<M>, corner_count: usize, edges: Seq<EdgeRestriction>) -> bool {
    forall|i: int| 0 <= i < edges.len() ==> wall_union_length(
        geom.side_wall_profile_to_geom_handle@, corner_count, (#[trigger] edges[i]).edge, wall_indices_in_bits(allowed_wall_bits(edges[i])),
    ) <= usize::MAX
}

/// The restrictions of a cell are sorted by edge, one for each edge at most.
pub open spec fn edges_sorted(edges: Seq<EdgeRestriction>) -> bool {
    forall|i: int, j: int| 0 <= i < j < edges.len() ==> edges[i].edge < edges[j].edge
}

/// The collapse state of a cell fits its four corners.
pub open spec fn entry_wf(e: CollapseEntry) -> bool {
    &&& e.corner_data@.len() == 4
    &&& edges_sorted(e.edge_restrictions@)
    &&& e.possible_geometry_entries_from_corner_data.wf()
    &&& e.possible_geometry_entries_from_corner_data.spec_max_rotations() == 4
    &&& e.current_mesh matches Some(h) ==> h.orientation.spec_rotations() < 4
}

proof fn lemma_cyclic_max_constant(sets: Seq<&GeometryHandleSet>, t: int, c: usize)
    requires
        sets.len() > 0,
        t >= 1,
        forall|i: int| 0 <= i < sets.len() ==> (#[trigger] sets[i]).spec_max_rotations() == c,
    ensures
        cyclic_max_rotations(sets, t) == c,
    decreases t,
{
    if t > 1 {
        lemma_cyclic_max_constant(sets, t - 1, c);
    } else {
        assert(cyclic_max_rotations(sets, 0) == 0);
    }
    let idx = t % (sets.len() as int);
    vstd::arithmetic::div_mod::lemma_mod_bound(t, sets.len() as int);
    assert(0 <= idx < sets.len());
    assert(sets[idx].spec_max_rotations() == c);
}

proof fn lemma_and_range_parts(views: Seq<Map<usize, usize>>, lo: int, hi: int, k: usize, i: int)
    requires
        lo <= i < hi,
        and_range(views, lo, hi, k) != 0,
    ensures
        mask_at(views[i], k) != 0,
    decreases hi - lo,
{
    let rest = and_range(views, lo, hi - 1, k);
    let last = mask_at(views[hi - 1], k);
    assert((rest & last) != 0 ==> rest != 0 && last != 0) by (bit_vector);
    if i < hi - 1 {
        lemma_and_range_parts(views, lo, hi - 1, k, i);
    }
}

/// A non-empty intersection has all its sets non-empty.
proof fn lemma_intersection_parts(views: Seq<Map<usize, usize>>, k: usize, i: int)
    requires
        intersection_map(views).contains_key(k),
        0 <= i < views.len(),
    ensures
        views[i].contains_key(k),
{
    lemma_and_range_parts(views, 0, views.len() as int, k, i);
}

/// Every piece of geometry of the storage, in any of the eight orientations of a
/// square tile, shows a known profile on each of its four sides, and the reverse of
/// every known profile is known.
pub open spec fn storage_walls_closed<M>(geom: GeometryStorage<M>) -> bool {
    &&& geom.wall_reverse_profiles@.len() <= 128
    &&& forall|i: int| 0 <= i < geom.wall_reverse_profiles@.len()
        ==> (#[trigger] geom.wall_reverse_profiles@[i]).0 < geom.wall_reverse_profiles@.len()
    &&& forall|h: GeometryHandle, side: int| h.index < geom.profiles@.len() && h.orientation.spec_rotations() < 4 && 0 <= side < 4
        ==> #[trigger] wall_closed_at(geom, h, side)
}

pub open spec fn wall_closed_at<M>(geom: GeometryStorage<M>, h: GeometryHandle, side: int) -> bool {
    let p = geom.profiles@[h.index as int];
    &&& oriented_wall_defined(geom.wall_reverse_profiles@, p.walls@, p.sides as int, side, h.orientation)
    &&& oriented_wall(geom.wall_reverse_profiles@, p.walls@, p.sides as int, side, h.orientation).0 < geom.wall_reverse_profiles@.len()
}

/// The profiles facing back across a side: the reverse of each profile in `ws`.
pub open spec fn reverse_mask(reverse: Seq<WallProfileIndex>, ws: Seq<WallProfileIndex>) -> u128
    decreases ws.len(),
{
    if ws.len() == 0 {
        0
    } else {
        reverse_mask(reverse, ws.drop_last()) | (1u128 << reverse[ws.last().0 as int].0)
    }
}

/// The updates sent to the neighbours among the first `n` edge neighbours that lie
/// in the tiling, with the profiles that face them.
pub open spec fn updates_for(
    t: Tiling,
    index: TileIndex,
    height: u32,
    walls: Seq<u128>,
    reverse: Seq<WallProfileIndex>,
    n: int,
) -> Seq<(CollapseEntryIndex, CollapseNeighborUpdate)>
    decreases n,
{
    if n <= 0 {
        Seq::empty()
    } else {
        let prev = updates_for(t, index, height, walls, reverse, n - 1);
        let a = square_adjacent()[n - 1];
        let adjacent = TileIndex { x: (index.x + a.0) as i32, y: (index.y + a.1) as i32 };
        if index_in_bounds(t, adjacent) {
            prev.push((
                CollapseEntryIndex { index: adjacent, height },
                CollapseNeighborUpdate {
                    side: a.2,
                    walls: reverse_mask(reverse, wall_indices_in_bits(walls[n - 1])),
                    from_neighbor: index,
                },
            ))
        } else {
            prev
        }
    }
}

/// The wall masks of the handles of a set, side by side.
pub open spec fn set_walls<M>(geom: GeometryStorage<M>, set: GeometryHandleSet) -> Seq<u128> {
    Seq::new(
        set.spec_max_rotations() as nat,
        |side: int| walls_mask(
            geom.wall_reverse_profiles@,
            geom.profiles@,
            handles_of(set.spec_entries(), set.spec_max_rotations()),
            side,
            handles_of(set.spec_entries(), set.spec_max_rotations()).len() as int,
        ),
    )
}

/// The map of a set holding the one handle `h`.
pub open spec fn single(h: GeometryHandle) -> Map<usize, usize> {
    Map::<usize, usize>::empty().insert(h.index, h.orientation.spec_to_bits())
}

/// The first handle of a set, if it lists any.
pub open spec fn first_handle(set: GeometryHandleSet) -> Option<GeometryHandle> {
    let hs = handles_of(set.spec_entries(), set.spec_max_rotations());
    if hs.len() > 0 {
        Some(hs[0])
    } else {
        None
    }
}

proof fn lemma_orientations_rotations(bits: usize, max: int, n: int)
    requires
        0 <= n <= 2 * max,
        max <= usize::MAX,
    ensures
        forall|i: int| 0 <= i < orientations_in_bits(bits, max, n).len()
            ==> (#[trigger] orientations_in_bits(bits, max, n)[i]).spec_rotations() < max,
    decreases n,
{
    if n > 0 {
        lemma_orientations_rotations(bits, max, n - 1);
        let c = candidate(n - 1, max);
        assert(c.spec_rotations() < max);
        let prev = orientations_in_bits(bits, max, n - 1);
        assert forall|i: int| 0 <= i < orientations_in_bits(bits, max, n).len()
            implies (#[trigger] orientations_in_bits(bits, max, n)[i]).spec_rotations() < max by {
            if i < prev.len() {
                assert(orientations_in_bits(bits, max, n)[i] == prev[i]);
            }
        }
    }
}

proof fn lemma_handles_rotations(entries: Seq<GeometryHandleSetEntry>, max: usize)
    ensures
        forall|i: int| 0 <= i < handles_of(entries, max).len()
            ==> (#[trigger] handles_of(entries, max)[i]).orientation.spec_rotations() < max,
    decreases entries.len(),
{
    if entries.len() > 0 {
        lemma_handles_rotations(entries.drop_last(), max);
        let prev = handles_of(entries.drop_last(), max);
        let e = entries.last();
        lemma_orientations_rotations(e.orientations, max as int, 2 * max as int);
        assert(entry_handles(e, max).len() == mask_orientations(e.orientations, max).len());
        assert forall|i: int| 0 <= i < handles_of(entries, max).len()
            implies (#[trigger] handles_of(entries, max)[i]).orientation.spec_rotations() < max by {
            if i >= prev.len() {
                assert(handles_of(entries, max)[i] == entry_handles(e, max)[i - prev.len()]);
                assert(mask_orientations(e.orientations, max) == orientations_in_bits(e.orientations, max as int, 2 * max as int));
            }
        }
    }
}

proof fn lemma_mask_bits_below(reverse: Seq<WallProfileIndex>, profiles: Seq<super::geom::build_profiles::MeshProfile>, handles: Seq<GeometryHandle>, side: int, n: int, limit: int)
    requires
        limit <= 128,
        n <= handles.len(),
        forall|k: int| 0 <= k < n && (#[trigger] handles[k]).index < profiles.len() ==> oriented_wall(
            reverse,
            profiles[handles[k].index as int].walls@,
            profiles[handles[k].index as int].sides as int,
            side,
            handles[k].orientation,
        ).0 < limit,
    ensures
        forall|p: int| limit <= p < 128 ==> !#[trigger] bit_set(walls_mask(reverse, profiles, handles, side, n), p),
    decreases n,
{
    if n <= 0 {
        assert forall|p: int| limit <= p < 128 implies !#[trigger] bit_set(walls_mask(reverse, profiles, handles, side, n), p) by {
            let pp = p as u128;
            assert((0u128 >> pp) & 1u128 == 0u128) by (bit_vector);
        }
    } else {
        lemma_mask_bits_below(reverse, profiles, handles, side, n - 1, limit);
        let prev = walls_mask(reverse, profiles, handles, side, n - 1);
        let h = handles[n - 1];
        if h.index < profiles.len() {
            let w = oriented_wall(reverse, profiles[h.index as int].walls@, profiles[h.index as int].sides as int, side, h.orientation).0;
            assert forall|p: int| limit <= p < 128 implies !#[trigger] bit_set(walls_mask(reverse, profiles, handles, side, n), p) by {
                let pp = p as u128;
                assert(!bit_set(prev, p));
                assert(w < 128 && pp < 128 && (w as u128) != pp ==> (((prev | (1u128 << w)) >> pp) & 1u128) == ((prev >> pp) & 1u128))
                    by (bit_vector);
            }
        }
    }
}

proof fn lemma_bit_positions_set(bits: u128, n: int)
    requires
        0 <= n <= 128,
    ensures
        forall|q: int| 0 <= q < bit_positions(bits, n).len() ==> bit_set(bits, #[trigger] bit_positions(bits, n)[q] as int),
        forall|q: int| 0 <= q < bit_positions(bits, n).len() ==> (#[trigger] bit_positions(bits, n)[q]) < n,
    decreases n,
{
    if n > 0 {
        lemma_bit_positions_set(bits, n - 1);
        let prev = bit_positions(bits, n - 1);
        assert forall|q: int| 0 <= q < bit_positions(bits, n).len() implies bit_set(bits, #[trigger] bit_positions(bits, n)[q] as int)
            && bit_positions(bits, n)[q] < n by {
            if q < prev.len() {
                assert(bit_positions(bits, n)[q] == prev[q]);
            } else {
                assert(bit_positions(bits, n)[q] == (n - 1) as u8);
            }
        }
    }
}

/// The history after recording `events` one by one: an event is kept while the
/// history is on and holds fewer than 100 events.
pub open spec fn logged(h: Seq<CollapseHistory>, enabled: bool, events: Seq<CollapseHistory>) -> Seq<CollapseHistory>
    decreases events.len(),
{
    if events.len() == 0 {
        h
    } else {
        let prev = logged(h, enabled, events.drop_last());
        if enabled && prev.len() < 100 {
            prev.push(events.last())
        } else {
            prev
        }
    }
}

proof fn lemma_logged_append(h: Seq<CollapseHistory>, enabled: bool, a: Seq<CollapseHistory>, b: Seq<CollapseHistory>)
    ensures
        logged(h, enabled, a + b) == logged(logged(h, enabled, a), enabled, b),
    decreases b.len(),
{
    if b.len() == 0 {
        assert(a + b =~= a);
    } else {
        lemma_logged_append(h, enabled, a, b.drop_last());
        assert((a + b).drop_last() =~= a + b.drop_last());
        assert((a + b).last() == b.last());
    }
}

/// The events a cell records for the updates it sends.
pub open spec fn sending(height: u32, updates: Seq<(CollapseEntryIndex, CollapseNeighborUpdate)>) -> Seq<CollapseHistory> {
    updates.map_values(|u: (CollapseEntryIndex, CollapseNeighborUpdate)| CollapseHistory::SendingUpdates(u.0.index, height, u.1.walls))
}

/// Two cells agree on everything but their history.
pub open spec fn same_but_history(a: CollapseEntry, b: CollapseEntry) -> bool {
    &&& a.index_in_tiling == b.index_in_tiling
    &&& a.height == b.height
    &&& a.options == b.options
    &&& a.current_mesh == b.current_mesh
    &&& a.corner_data@ == b.corner_data@
    &&& a.current_bottom_indicator == b.current_bottom_indicator
    &&& a.current_top_indicator == b.current_top_indicator
    &&& a.edge_restrictions@ == b.edge_restrictions@
    &&& a.possible_geometry_entries_from_corner_data == b.possible_geometry_entries_from_corner_data
    &&& a.history_enabled == b.history_enabled
}

/// A cell's index can be moved one step along each axis.
pub open spec fn index_steppable(index: TileIndex) -> bool {
    i32::MIN < index.x < i32::MAX && i32::MIN < index.y < i32::MAX
}

/// The geometry that the corners and the edge restrictions of a cell allow together.
pub open spec fn total_view<M>(e: CollapseEntry, geom: GeometryStorage<M>) -> Map<usize, usize> {
    intersection_map(
        seq![e.possible_geometry_entries_from_corner_data@] + edge_views(geom, e.corner_data@.len() as usize, e.edge_restrictions@),
    )
}

/// The edge restrictions of a cell leave no geometry its corners allow.
pub open spec fn restrictions_conflict<M>(e: CollapseEntry, geom: GeometryStorage<M>) -> bool {
    total_view(e, geom) == Map::<usize, usize>::empty()
}

/// The geometry a cell may still take: what all restrictions allow, or, when they
/// conflict, what its corners allow.
pub open spec fn narrowed_view<M>(e: CollapseEntry, geom: GeometryStorage<M>) -> Map<usize, usize> {
    if restrictions_conflict(e, geom) {
        e.possible_geometry_entries_from_corner_data@
    } else {
        total_view(e, geom)
    }
}

/// A set of the four-sided geometry a cell may still take.
pub open spec fn narrowed_set<M>(s: GeometryHandleSet, e: CollapseEntry, geom: GeometryStorage<M>) -> bool {
    &&& s.wf()
    &&& s@ == narrowed_view(e, geom)
    &&& s.spec_max_rotations() == 4
}

/// The geometry a cell keeps: its current one, while the restrictions do not
/// conflict and still allow it.
pub open spec fn kept_mesh<M>(e: CollapseEntry, geom: GeometryStorage<M>) -> Option<GeometryHandle> {
    match e.current_mesh {
        Some(h) => if !restrictions_conflict(e, geom) && map_holds(narrowed_view(e, geom), h) {
            Some(h)
        } else {
            None
        },
        None => None,
    }
}

/// The geometry a cell settles on: the one it keeps or, when asked to select, the
/// first one it may still take.
pub open spec fn chosen_mesh<M>(e: CollapseEntry, geom: GeometryStorage<M>, select: bool, s: GeometryHandleSet) -> Option<GeometryHandle> {
    match kept_mesh(e, geom) {
        Some(h) => Some(h),
        None => if select {
            first_handle(s)
        } else {
            None
        },
    }
}

/// The profile masks, side by side, of one handle.
pub open spec fn single_walls<M>(geom: GeometryStorage<M>, h: GeometryHandle) -> Seq<u128> {
    Seq::new(4, |side: int| walls_mask(geom.wall_reverse_profiles@, geom.profiles@, seq![h], side, 1))
}

/// The profile masks of the geometry a cell settled on, or of all it may still take.
pub open spec fn settled_walls<M>(geom: GeometryStorage<M>, chosen: Option<GeometryHandle>, s: GeometryHandleSet) -> Seq<u128> {
    match chosen {
        Some(h) => single_walls(geom, h),
        None => set_walls(geom, s),
    }
}

/// The events a cell records while it narrows its geometry down, before the updates
/// it sends.
pub open spec fn narrowing_events<M>(e: CollapseEntry, geom: GeometryStorage<M>, select: bool, s: GeometryHandleSet) -> Seq<CollapseHistory> {
    let conflict = restrictions_conflict(e, geom);
    let cleared = if conflict { seq![CollapseHistory::Deselected(true)] } else { Seq::<CollapseHistory>::empty() };
    let down = match first_handle(s) {
        Some(h) => if s.spec_length() == 1 { seq![CollapseHistory::DownTo(h)] } else { Seq::<CollapseHistory>::empty() },
        None => Seq::<CollapseHistory>::empty(),
    };
    let dropped = if !conflict && e.current_mesh is Some && kept_mesh(e, geom) is None {
        seq![CollapseHistory::Deselected(false)]
    } else {
        Seq::<CollapseHistory>::empty()
    };
    let selected = match first_handle(s) {
        Some(h) => if kept_mesh(e, geom) is None && select {
            seq![CollapseHistory::Selected(h, s.spec_length())]
        } else {
            Seq::<CollapseHistory>::empty()
        },
        None => Seq::<CollapseHistory>::empty(),
    };
    cleared + down + dropped + selected
}

/// How a cell changes when it recomputes its geometry from its restrictions, given
/// the set `s` of what it may still take, and the updates it sends.
pub open spec fn recomputed<M>(
    old: CollapseEntry,
    new: CollapseEntry,
    geom: GeometryStorage<M>,
    tiling: Tiling,
    select: bool,
    s: GeometryHandleSet,
    updates: Seq<(CollapseEntryIndex, CollapseNeighborUpdate)>,
) -> bool {
    let chosen = chosen_mesh(old, geom, select, s);
    &&& new.current_mesh == chosen
    &&& new.options == (if chosen is Some { 1 } else { s.spec_length() })
    &&& new.edge_restrictions@ == (if restrictions_conflict(old, geom) {
        Seq::<EdgeRestriction>::empty()
    } else {
        old.edge_restrictions@
    })
    &&& updates == updates_for(tiling, old.index_in_tiling, old.height, settled_walls(geom, chosen, s), geom.wall_reverse_profiles@, 4)
    &&& new.history@ == logged(
        old.history@,
        old.history_enabled,
        narrowing_events(old, geom, select, s) + sending(old.height, updates),
    )
    &&& new.index_in_tiling == old.index_in_tiling
    &&& new.height == old.height
    &&& new.corner_data@ == old.corner_data@
    &&& new.current_bottom_indicator == old.current_bottom_indicator
    &&& new.current_top_indicator == old.current_top_indicator
    &&& new.possible_geometry_entries_from_corner_data == old.possible_geometry_entries_from_corner_data
    &&& new.history_enabled == old.history_enabled
}

proof fn lemma_single_set_walls<M>(geom: GeometryStorage<M>, set: GeometryHandleSet, h: GeometryHandle)
    requires
        set.wf(),
        set@ == Map::<usize, usize>::empty().insert(h.index, mask_at(Map::<usize, usize>::empty(), h.index) | h.orientation.spec_to_bits()),
        set.spec_max_rotations() == 4,
        h.orientation.spec_rotations() < 4,
    ensures
        set_walls(geom, set) == single_walls(geom, h),
{
    let bits = h.orientation.spec_to_bits();
    let e1 = GeometryHandleSetEntry { index: h.index, orientations: bits };
    assert(0usize | bits == bits) by (bit_vector);
    set.lemma_wf_view();
    assert(seq![e1].drop_last() =~= Seq::<GeometryHandleSetEntry>::empty());
    assert(entries_map(Seq::<GeometryHandleSetEntry>::empty()) == Map::<usize, usize>::empty());
    assert(mask_at(Map::<usize, usize>::empty(), h.index) == 0);
    assert(entries_map(seq![e1]) =~= set@);
    lemma_entries_determined(set.spec_entries(), seq![e1]);
    law_from_bits_recovers_orientation(h.orientation, 4);
    let hs = handles_of(set.spec_entries(), 4);
    assert(handles_of(Seq::<GeometryHandleSetEntry>::empty(), 4) == Seq::<GeometryHandle>::empty());
    assert(entry_handles(e1, 4) =~= seq![h]);
    assert(hs =~= seq![h]);
    assert(set_walls(geom, set) =~= single_walls(geom, h));
}

/// The first handle of a set, in the order its handles are listed.
fn first_of(set: &GeometryHandleSet) -> (r: Option<GeometryHandle>)
    requires
        set.spec_max_rotations() <= usize::BITS,
    ensures
        r == first_handle(*set),
{
    let handles = set.handles();
    if handles.len() > 0 {
        Some(handles[0])
    } else {
        None
    }
}

/// The corner data after setting `corner` to `value`: the first entry from position
/// `i` on that is at `corner` with another value takes the value.
pub open spec fn set_corner_from(data: Seq<(TileIndex, u32)>, corner: TileIndex, value: u32, i: int) -> Seq<(TileIndex, u32)>
    decreases data.len() - i,
{
    if i < 0 || i >= data.len() {
        data
    } else if data[i].0 == corner && data[i].1 != value {
        data.update(i, (corner, value))
    } else {
        set_corner_from(data, corner, value, i + 1)
    }
}

/// The corner data after each pair in turn, and whether any pair changed it.
pub open spec fn corners_after(data: Seq<(TileIndex, u32)>, pairs: Seq<(TileIndex, u32)>) -> (Seq<(TileIndex, u32)>, bool)
    decreases pairs.len(),
{
    if pairs.len() == 0 {
        (data, false)
    } else {
        let prev = corners_after(data, pairs.drop_last());
        let next = set_corner_from(prev.0, pairs.last().0, pairs.last().1, 0);
        (next, prev.1 || next != prev.0)
    }
}

/// The events a cell records for the corner values it is handed.
pub open spec fn corner_events(pairs: Seq<(TileIndex, u32)>) -> Seq<CollapseHistory> {
    pairs.map_values(|p: (TileIndex, u32)| CollapseHistory::SetCorner(p.0, p.1))
}

/// `mid` is `old` after taking the corner values `pairs`, with the indicators and
/// the geometry its new corners allow.
pub open spec fn corners_set<M>(old: CollapseEntry, mid: CollapseEntry, pairs: Seq<(TileIndex, u32)>, geom: GeometryStorage<M>) -> bool {
    let d = corners_after(old.corner_data@, pairs).0;
    let bottom = indicator_of(corner_profiles(d, old.height as int), unturned(), 4);
    let top = indicator_of(corner_profiles(d, old.height + 1), unturned(), 4);
    &&& mid.corner_data@ == d
    &&& mid.current_bottom_indicator == bottom
    &&& mid.current_top_indicator == top
    &&& mid.possible_geometry_entries_from_corner_data.wf()
    &&& mid.possible_geometry_entries_from_corner_data@ == geom.vertical_view(
        GeometryStorageVerticalKey { side_count: 4, bottom_profile: bottom, top_profile: top },
    )
    &&& mid.possible_geometry_entries_from_corner_data.spec_max_rotations() == 4
    &&& mid.history@ == logged(old.history@, old.history_enabled, corner_events(pairs))
    &&& mid.index_in_tiling == old.index_in_tiling
    &&& mid.height == old.height
    &&& mid.options == old.options
    &&& mid.current_mesh == old.current_mesh
    &&& mid.edge_restrictions@ == old.edge_restrictions@
    &&& mid.history_enabled == old.history_enabled
}

/// Every set of the four-sided geometry showing some of the profiles of a mask on
/// one side can be counted in a `usize`.
pub open spec fn storage_countable<M>(geom: GeometryStorage<M>) -> bool {
    forall|side: usize, bits: u128| #[trigger] wall_union_length(geom.side_wall_profile_to_geom_handle@, 4, side, wall_indices_in_bits(bits))
        <= usize::MAX
}

proof fn lemma_countable_edges<M>(geom: GeometryStorage<M>, edges: Seq<EdgeRestriction>)
    requires
        storage_countable(geom),
    ensures
        edges_countable(geom, 4, edges),
{
    assert forall|i: int| 0 <= i < edges.len() implies wall_union_length(
        geom.side_wall_profile_to_geom_handle@, 4, (#[trigger] edges[i]).edge, wall_indices_in_bits(allowed_wall_bits(edges[i])),
    ) <= usize::MAX by {
        let side = edges[i].edge;
        let bits = allowed_wall_bits(edges[i]);
        assert(wall_union_length(geom.side_wall_profile_to_geom_handle@, 4, side, wall_indices_in_bits(bits)) <= usize::MAX);
    }
}

/// The position of the first entry at `corner` whose value differs from `value`, or
/// the length when there is none.
fn stale_corner(data: &Vec<(TileIndex, u32)>, corner: TileIndex, value: u32) -> (r: usize)
    ensures
        r <= data@.len(),
        r < data@.len() ==> set_corner_from(data@, corner, value, 0) == data@.update(r as int, (corner, value))
            && data@[r as int].1 != value,
        r == data@.len() ==> set_corner_from(data@, corner, value, 0) == data@,
{
    let mut j: usize = 0;
    while j < data.len()
        invariant
            j <= data@.len(),
            set_corner_from(data@, corner, value, 0) == set_corner_from(data@, corner, value, j as int),
        decreases data@.len() - j,
    {
        let entry = data[j];
        if entry.0 == corner && entry.1 != value {
            return j;
        }
        j = j + 1;
    }
    j
}

/// Sets the first entry at `corner` whose value differs to `value`.
fn set_corner(data: &mut Vec<(TileIndex, u32)>, corner: TileIndex, value: u32) -> (changed: bool)
    ensures
        final(data)@ == set_corner_from(old(data)@, corner, value, 0),
        final(data)@.len() == old(data)@.len(),
        changed == (final(data)@ != old(data)@),
{
    let p = stale_corner(data, corner, value);
    if p < data.len() {
        data.set(p, (corner, value));
        proof {
            assert(data@[p as int] != old(data)@[p as int]);
        }
        true
    } else {
        false
    }
}

/// The position, from `i` on, of the first restriction at or after edge `side`; the
/// length when there is none.
pub open spec fn slot_from(edges: Seq<EdgeRestriction>, side: usize, i: int) -> int
    decreases edges.len() - i,
{
    if i < 0 || i >= edges.len() {
        edges.len() as int
    } else if edges[i].edge >= side {
        i
    } else {
        slot_from(edges, side, i + 1)
    }
}

/// The position of the first restriction at or after edge `side`.
pub open spec fn edge_slot(edges: Seq<EdgeRestriction>, side: usize) -> int {
    slot_from(edges, side, 0)
}

/// Whether edge `side` already carries a restriction.
pub open spec fn edge_known(edges: Seq<EdgeRestriction>, side: usize) -> bool {
    edge_slot(edges, side) < edges.len() && edges[edge_slot(edges, side)].edge == side
}

/// Whether an update tells a cell something new: a restriction on a new edge, or
/// another one on a known edge.
pub open spec fn update_changes(edges: Seq<EdgeRestriction>, u: CollapseNeighborUpdate) -> bool {
    !edge_known(edges, u.side) || edges[edge_slot(edges, u.side)].restruction != Some(u.walls)
}

/// The restrictions after an update that tells something new: the edge's
/// restriction is replaced, or a new one is put in its place in the order of edges.
pub open spec fn edges_after_update(edges: Seq<EdgeRestriction>, u: CollapseNeighborUpdate) -> Seq<EdgeRestriction> {
    let p = edge_slot(edges, u.side);
    let e = EdgeRestriction { edge: u.side, restruction: Some(u.walls) };
    if edge_known(edges, u.side) {
        edges.update(p, e)
    } else {
        edges.insert(p, e)
    }
}

/// The event a cell records for an update that tells something new.
pub open spec fn update_event(edges: Seq<EdgeRestriction>, u: CollapseNeighborUpdate) -> CollapseHistory {
    let before = if edge_known(edges, u.side) { edges[edge_slot(edges, u.side)].restruction } else { None };
    CollapseHistory::SetEdge(u.from_neighbor, u.side, u.walls, before)
}

/// The restrictions after each update in turn, the events recorded, and whether any
/// update told something new.
pub open spec fn edges_after(edges: Seq<EdgeRestriction>, updates: Seq<CollapseNeighborUpdate>) -> (Seq<EdgeRestriction>, Seq<CollapseHistory>, bool)
    decreases updates.len(),
{
    if updates.len() == 0 {
        (edges, Seq::empty(), false)
    } else {
        let prev = edges_after(edges, updates.drop_last());
        let u = updates.last();
        if update_changes(prev.0, u) {
            (edges_after_update(prev.0, u), prev.1.push(update_event(prev.0, u)), true)
        } else {
            prev
        }
    }
}

/// `mid` is `old` after taking the restrictions of `updates`, with no geometry
/// chosen.
pub open spec fn edges_set(old: CollapseEntry, mid: CollapseEntry, updates: Seq<CollapseNeighborUpdate>) -> bool {
    let after = edges_after(old.edge_restrictions@, updates);
    &&& mid.edge_restrictions@ == after.0
    &&& mid.history@ == logged(old.history@, old.history_enabled, after.1)
    &&& mid.current_mesh is None
    &&& mid.index_in_tiling == old.index_in_tiling
    &&& mid.height == old.height
    &&& mid.options == old.options
    &&& mid.corner_data@ == old.corner_data@
    &&& mid.current_bottom_indicator == old.current_bottom_indicator
    &&& mid.current_top_indicator == old.current_top_indicator
    &&& mid.possible_geometry_entries_from_corner_data == old.possible_geometry_entries_from_corner_data
    &&& mid.history_enabled == old.history_enabled
}

proof fn lemma_slot_at(edges: Seq<EdgeRestriction>, side: usize, p: int, i: int)
    requires
        0 <= i <= p <= edges.len(),
        forall|k: int| 0 <= k < p ==> (#[trigger] edges[k]).edge < side,
        p < edges.len() ==> edges[p].edge >= side,
    ensures
        slot_from(edges, side, i) == p,
    decreases p - i,
{
    if i < p {
        lemma_slot_at(edges, side, p, i + 1);
    }
}

/// The position of the first restriction at or after edge `side`, found by halving.
fn find_edge(edges: &Vec<EdgeRestriction>, side: usize) -> (r: usize)
    requires
        edges_sorted(edges@),
    ensures
        r == edge_slot(edges@, side),
        r <= edges@.len(),
        forall|k: int| 0 <= k < r ==> (#[trigger] edges@[k]).edge < side,
        r < edges@.len() ==> edges@[r as int].edge >= side,
{
    let mut lo: usize = 0;
    let mut hi: usize = edges.len();
    while lo < hi
        invariant
            edges_sorted(edges@),
            lo <= hi <= edges@.len(),
            forall|k: int| 0 <= k < lo ==> (#[trigger] edges@[k]).edge < side,
            forall|k: int| hi <= k < edges@.len() ==> (#[trigger] edges@[k]).edge >= side,
        decreases hi - lo,
    {
        let mid = lo + (hi - lo) / 2;
        if edges[mid].edge < side {
            lo = mid + 1;
        } else {
            hi = mid;
        }
    }
    proof {
        lemma_slot_at(edges@, side, lo as int, 0);
    }
    lo
}

/// How a cell changes when handed the corner values `pairs`, sending `sent`.
pub open spec fn corners_processed<M>(
    old: CollapseEntry,
    new: CollapseEntry,
    pairs: Seq<(TileIndex, u32)>,
    geom: GeometryStorage<M>,
    tiling: Tiling,
    sent: Seq<(CollapseEntryIndex, CollapseNeighborUpdate)>,
) -> bool {
    &&& entry_wf(new)
    &&& new.index_in_tiling == old.index_in_tiling
    &&& new.height == old.height
    &&& new.history_enabled == old.history_enabled
    &&& !corners_after(old.corner_data@, pairs).1 ==> sent.len() == 0 && same_but_history(new, old)
        && new.history@ == logged(old.history@, old.history_enabled, corner_events(pairs))
    &&& corners_after(old.corner_data@, pairs).1 ==> exists|mid: CollapseEntry, s: GeometryHandleSet|
        corners_set(old, mid, pairs, geom) && narrowed_set(s, mid, geom)
        && #[trigger] recomputed(mid, new, geom, tiling, false, s, sent)
}

/// How a cell changes when handed the restrictions `updates`, sending `sent`.
pub open spec fn neighbors_processed<M>(
    old: CollapseEntry,
    new: CollapseEntry,
    updates: Seq<CollapseNeighborUpdate>,
    geom: GeometryStorage<M>,
    tiling: Tiling,
    sent: Seq<(CollapseEntryIndex, CollapseNeighborUpdate)>,
) -> bool {
    &&& entry_wf(new)
    &&& new.index_in_tiling == old.index_in_tiling
    &&& new.height == old.height
    &&& new.history_enabled == old.history_enabled
    &&& !edges_after(old.edge_restrictions@, updates).2 ==> sent.len() == 0 && same_but_history(new, old)
        && new.history@ == old.history@
    &&& edges_after(old.edge_restrictions@, updates).2 ==> exists|mid: CollapseEntry, s: GeometryHandleSet|
        edges_set(old, mid, updates) && narrowed_set(s, mid, geom)
        && #[trigger] recomputed(mid, new, geom, tiling, false, s, sent)
}

impl CollapseEntry {
    /// A cell of the dual tiling at `index` and `height`, with the geometry its
    /// corner heights allow and no choice made.
    pub fn new<M>(tiling: &Tiling, sim_state: &SimulationState, geom_data: &GeometryStorage<M>, index: TileIndex, height: u32, history_enabled: bool) -> (r: Self)
        requires
            tiling.kind is Square,
            square_vertices_defined(index, true),
            sim_state.wf(),
            geom_data.wf(),
            height < u32::MAX,
        ensures
            entry_wf(r),
            r.index_in_tiling == index,
            r.height == height,
            r.options == 0,
            r.current_mesh is None,
            r.corner_data@ == corner_heights(*sim_state, index),
            r.current_bottom_indicator == indicator_of(corner_profiles(r.corner_data@, height as int), unturned(), 4),
            r.current_top_indicator == indicator_of(corner_profiles(r.corner_data@, height + 1), unturned(), 4),
            r.possible_geometry_entries_from_corner_data@ == geom_data.vertical_view(GeometryStorageVerticalKey {
                side_count: 4,
                bottom_profile: r.current_bottom_indicator,
                top_profile: r.current_top_indicator,
            }),
            r.edge_restrictions@.len() == 0,
            r.history@.len() == 0,
            r.history_enabled == history_enabled,
    {
        let vertices = tiling.get_verticies(index, true);
        let mut corner_data: Vec<(TileIndex, u32)> = Vec::new();
        let mut i: usize = 0;
        while i < vertices.len()
            invariant
                vertices@ == square_vertices(index, true),
                sim_state.wf(),
                i <= vertices@.len(),
                corner_data@ == corner_heights(*sim_state, index).subrange(0, i as int),
            decreases vertices@.len() - i,
        {
            let v = vertices[i];
            let h = if sim_state.tiling.in_bounds(v) {
                proof {
                    crate::tiling::lemma_inner_index_adjustable(sim_state.tiling, v);
                }
                sim_state.get_at(v)
            } else {
                0
            };
            corner_data.push((v, h));
            i = i + 1;
            proof {
                assert(corner_data@ =~= corner_heights(*sim_state, index).subrange(0, i as int));
            }
        }
        proof {
            assert(corner_data@ =~= corner_heights(*sim_state, index));
        }
        let bottom = Self::indicator_at(&corner_data, height);
        let top = Self::indicator_at(&corner_data, height + 1);
        let possible = geom_data.get_vertical_matching(corner_data.len(), bottom, top);
        CollapseEntry {
            index_in_tiling: index,
            height,
            options: 0,
            current_mesh: None,
            corner_data,
            current_bottom_indicator: bottom,
            current_top_indicator: top,
            edge_restrictions: Vec::new(),
            possible_geometry_entries_from_corner_data: possible.clone(),
            history: Vec::new(),
            history_enabled,
        }
    }

    /// The indicator of the profiles the corners show at height `level`.
    fn indicator_at(corners: &Vec<(TileIndex, u32)>, level: u32) -> (r: usize)
        requires
            corners@.len() == 4,
        ensures
            r == indicator_of(corner_profiles(corners@, level as int), unturned(), 4),
    {
        let mut profiles: Vec<VerticalProfile> = Vec::new();
        let mut i: usize = 0;
        while i < corners.len()
            invariant
                corners@.len() == 4,
                i <= 4,
                profiles@ == corner_profiles(corners@, level as int).subrange(0, i as int),
            decreases 4 - i,
        {
            let h = corners[i].1;
            let p = if h < level {
                VerticalProfile::Empty
            } else if h == level {
                VerticalProfile::Full
            } else {
                VerticalProfile::Stackable
            };
            profiles.push(p);
            i = i + 1;
            proof {
                assert(profiles@ =~= corner_profiles(corners@, level as int).subrange(0, i as int));
            }
        }
        proof {
            assert(profiles@ =~= corner_profiles(corners@, level as int));
            assert forall|k: int| 0 <= k < 4 implies #[trigger] crate::visuals::geom::orientations::index_in_sequence_defined(
                unturned(), k, 4, true) by {}
        }
        VerticalProfile::compute_indicator(&profiles, GeomOrientation::Standard { rotations: 0 })
    }

    /// Records an event when the history is on and holds fewer than 100 events.
    fn write_to_history(&mut self, history: CollapseHistory)
        ensures
            final(self).history@ == logged(old(self).history@, old(self).history_enabled, seq![history]),
            same_but_history(*final(self), *old(self)),
    {
        proof {
            assert(seq![history].drop_last() =~= Seq::<CollapseHistory>::empty());
            assert(logged(self.history@, self.history_enabled, Seq::<CollapseHistory>::empty()) == self.history@);
            assert(seq![history].last() == history);
        }
        if self.history_enabled && self.history.len() < 100 {
            self.history.push(history);
        }
    }

    /// Sends each neighbour inside the tiling the reverse of the profiles that the
    /// handles of `set` show on the side they share.
    fn send_updates<M>(&mut self, tiling: &Tiling, geom_data: &GeometryStorage<M>, set: &GeometryHandleSet) -> (r: Vec<(CollapseEntryIndex, CollapseNeighborUpdate)>)
        requires
            tiling.kind is Square,
            storage_walls_closed(*geom_data),
            set.wf(),
            set.spec_max_rotations() == 4,
            index_steppable(old(self).index_in_tiling),
        ensures
            r@ == updates_for(*tiling, old(self).index_in_tiling, old(self).height, set_walls(*geom_data, *set),
                geom_data.wall_reverse_profiles@, 4),
            final(self).history@ == logged(old(self).history@, old(self).history_enabled, sending(old(self).height, r@)),
            same_but_history(*final(self), *old(self)),
    {
        let ghost start = *self;
        let ghost reverse = geom_data.wall_reverse_profiles@;
        let ghost hs = handles_of(set.spec_entries(), set.spec_max_rotations());
        let ghost sw = set_walls(*geom_data, *set);
        proof {
            lemma_handles_rotations(set.spec_entries(), 4);
            assert forall|i: int, side: int| 0 <= i < hs.len() && 0 <= side < 4 && hs[i].index < geom_data.profiles@.len()
                implies #[trigger] handle_side_known(reverse, geom_data.profiles@, hs[i], side) by {
                assert(wall_closed_at(*geom_data, hs[i], side));
            }
            assert forall|side: int| #![trigger sw[side]] 0 <= side < 4 implies forall|p: int| reverse.len() <= p < 128
                ==> !#[trigger] bit_set(sw[side], p) by {
                assert forall|k: int| 0 <= k < hs.len() && (#[trigger] hs[k]).index < geom_data.profiles@.len() implies oriented_wall(
                    reverse, geom_data.profiles@[hs[k].index as int].walls@, geom_data.profiles@[hs[k].index as int].sides as int,
                    side, hs[k].orientation).0 < reverse.len() by {
                    assert(wall_closed_at(*geom_data, hs[k], side));
                }
                lemma_mask_bits_below(reverse, geom_data.profiles@, hs, side, hs.len() as int, reverse.len() as int);
            }
        }
        let walls = geom_data.get_walls_in_set(set);
        let adjacent = tiling.get_adjacent(self.index_in_tiling);
        let mut updates: Vec<(CollapseEntryIndex, CollapseNeighborUpdate)> = Vec::new();
        let mut side: usize = 0;
        while side < adjacent.len()
            invariant
                adjacent@ == square_adjacent(),
                side <= 4,
                walls@.len() == 4,
                forall|q: int| 0 <= q < 4 ==> #[trigger] walls@[q] == sw[q],
                forall|q: int| #![trigger sw[q]] 0 <= q < 4 ==> forall|p: int| reverse.len() <= p < 128 ==> !#[trigger] bit_set(sw[q], p),
                reverse == geom_data.wall_reverse_profiles@,
                storage_walls_closed(*geom_data),
                index_steppable(start.index_in_tiling),
                updates@ == updates_for(*tiling, start.index_in_tiling, start.height, sw, reverse, side as int),
                self.history@ == logged(start.history@, start.history_enabled, sending(start.height, updates@)),
                same_but_history(*self, start),
            decreases 4 - side,
        {
            let (dx, dy, neighbor_side) = adjacent[side];
            let adj = self.index_in_tiling.offset(dx, dy);
            if tiling.in_bounds(adj) {
                let profiles = WallProfileIndex::from_bits(walls[side]);
                proof {
                    lemma_bit_positions_set(walls@[side as int], 128);
                }
                let mut opposite: u128 = 0;
                let mut k: usize = 0;
                while k < profiles.len()
                    invariant
                        k <= profiles@.len(),
                        profiles@ == wall_indices_in_bits(walls@[side as int]),
                        forall|q: int| 0 <= q < profiles@.len() ==> (#[trigger] profiles@[q]).0 < reverse.len(),
                        reverse == geom_data.wall_reverse_profiles@,
                        storage_walls_closed(*geom_data),
                        opposite == reverse_mask(reverse, profiles@.subrange(0, k as int)),
                    decreases profiles@.len() - k,
                {
                    let w = profiles[k];
                    let back = geom_data.wall_reverse_profiles[w.index()];
                    opposite = opposite | back.to_bits();
                    k = k + 1;
                    proof {
                        assert(profiles@.subrange(0, k as int).drop_last() =~= profiles@.subrange(0, k - 1));
                    }
                }
                proof {
                    assert(profiles@.subrange(0, k as int) =~= profiles@);
                }
                let update = (
                    CollapseEntryIndex::new(adj, self.height),
                    CollapseNeighborUpdate { side: neighbor_side, walls: opposite, from_neighbor: self.index_in_tiling },
                );
                let ghost before = updates@;
                updates.push(update);
                let ghost h_mid = self.history@;
                self.write_to_history(CollapseHistory::SendingUpdates(adj, self.height, opposite));
                proof {
                    assert(sending(start.height, updates@) =~= sending(start.height, before) + seq![
                        CollapseHistory::SendingUpdates(adj, start.height, opposite)]);
                    lemma_logged_append(start.history@, start.history_enabled, sending(start.height, before), seq![
                        CollapseHistory::SendingUpdates(adj, start.height, opposite)]);
                }
            }
            side = side + 1;
        }
        updates
    }

    /// For each edge restriction, the geometry showing an allowed profile on that
    /// edge.
    pub fn compute_edge_restrictions<M>(&self, geom_data: &GeometryStorage<M>) -> (r: Vec<GeometryHandleSet>)
        requires
            geom_data.wf(),
            edges_countable(*geom_data, self.corner_data@.len() as usize, self.edge_restrictions@),
        ensures
            r@.len() == self.edge_restrictions@.len(),
            forall|i: int| 0 <= i < r@.len() ==> (#[trigger] r@[i]).wf(),
            forall|i: int| 0 <= i < r@.len() ==> (#[trigger] r@[i])@ == edge_views(*geom_data, self.corner_data@.len() as usize, self.edge_restrictions@)[i],
            forall|i: int| 0 <= i < r@.len() ==> (#[trigger] r@[i]).spec_max_rotations() == 0
                || r@[i].spec_max_rotations() == self.corner_data@.len(),
            forall|i: int| 0 <= i < r@.len() ==> (#[trigger] r@[i]).spec_max_rotations() == 0 && self.corner_data@.len() > 0
                ==> r@[i]@ == Map::<usize, usize>::empty(),
    {
        let mut restrictions: Vec<GeometryHandleSet> = Vec::new();
        let mut i: usize = 0;
        while i < self.edge_restrictions.len()
            invariant
                geom_data.wf(),
                edges_countable(*geom_data, self.corner_data@.len() as usize, self.edge_restrictions@),
                i <= self.edge_restrictions@.len(),
                restrictions@.len() == i,
                forall|j: int| 0 <= j < i ==> (#[trigger] restrictions@[j]).wf(),
                forall|j: int| 0 <= j < i ==> (#[trigger] restrictions@[j])@ == edge_views(*geom_data, self.corner_data@.len() as usize, self.edge_restrictions@)[j],
                forall|j: int| 0 <= j < i ==> (#[trigger] restrictions@[j]).spec_max_rotations() == 0
                    || restrictions@[j].spec_max_rotations() == self.corner_data@.len(),
                forall|j: int| 0 <= j < i ==> (#[trigger] restrictions@[j]).spec_max_rotations() == 0 && self.corner_data@.len() > 0
                    ==> restrictions@[j]@ == Map::<usize, usize>::empty(),
            decreases self.edge_restrictions@.len() - i,
        {
            let edge_restriction = self.edge_restrictions[i];
            let mut restriction_bits = u128::MAX;
            match edge_restriction.restruction {
                Some(walls) => {
                    restriction_bits = restriction_bits & walls;
                },
                None => {},
            }
            proof {
                assert(restriction_bits == allowed_wall_bits(edge_restriction));
                assert(wall_union_length(geom_data.side_wall_profile_to_geom_handle@, self.corner_data@.len() as usize,
                    edge_restriction.edge, wall_indices_in_bits(restriction_bits)) <= usize::MAX);
            }
            let set = geom_data.get_wall_union(self.corner_data.len(), edge_restriction.edge, restriction_bits);
            proof {
                let views = wall_union_views(geom_data.side_wall_profile_to_geom_handle@, self.corner_data@.len() as usize,
                    edge_restriction.edge, wall_indices_in_bits(restriction_bits));
                if views.len() == 0 {
                    assert(union_map(views) =~= Map::<usize, usize>::empty());
                }
            }
            restrictions.push(set);
            i = i + 1;
        }
        restrictions
    }

    /// The geometry that the corners and all edge restrictions allow together.
    pub fn compute_current_total_restriction<M>(&self, geom_data: &GeometryStorage<M>) -> (r: GeometryHandleSet)
        requires
            geom_data.wf(),
            self.possible_geometry_entries_from_corner_data.wf(),
            edges_countable(*geom_data, self.corner_data@.len() as usize, self.edge_restrictions@),
        ensures
            r.wf(),
            r@ == intersection_map(
                seq![self.possible_geometry_entries_from_corner_data@]
                    + edge_views(*geom_data, self.corner_data@.len() as usize, self.edge_restrictions@),
            ),
            self.possible_geometry_entries_from_corner_data.spec_max_rotations() == self.corner_data@.len()
                && self.corner_data@.len() > 0 && r@ != Map::<usize, usize>::empty()
                ==> r.spec_max_rotations() == self.corner_data@.len(),
    {
        let edge_restrictions = self.compute_edge_restrictions(geom_data);
        let mut sets: Vec<&GeometryHandleSet> = Vec::new();
        sets.push(&self.possible_geometry_entries_from_corner_data);
        let mut i: usize = 0;
        while i < edge_restrictions.len()
            invariant
                i <= edge_restrictions@.len(),
                sets@.len() == i + 1,
                sets@[0] == &self.possible_geometry_entries_from_corner_data,
                self.possible_geometry_entries_from_corner_data.wf(),
                forall|j: int| 0 <= j < edge_restrictions@.len() ==> (#[trigger] edge_restrictions@[j]).wf(),
                forall|j: int| 0 <= j < i ==> sets@[j + 1] == &edge_restrictions@[j],
            decreases edge_restrictions@.len() - i,
        {
            sets.push(&edge_restrictions[i]);
            i = i + 1;
        }
        proof {
            assert(all_wf(sets@)) by {
                assert forall|j: int| 0 <= j < sets@.len() implies #[trigger] sets@[j].wf() by {
                    if j > 0 {
                        assert(sets@[j] == &edge_restrictions@[j - 1]);
                    }
                }
            }
            assert(set_views(sets@) =~= seq![self.possible_geometry_entries_from_corner_data@]
                + edge_views(*geom_data, self.corner_data@.len() as usize, self.edge_restrictions@)) by {
                assert forall|j: int| 0 <= j < sets@.len() implies #[trigger] set_views(sets@)[j] == (seq![
                    self.possible_geometry_entries_from_corner_data@] + edge_views(*geom_data, self.corner_data@.len() as usize,
                    self.edge_restrictions@))[j] by {
                    if j > 0 {
                        assert(sets@[j] == &edge_restrictions@[j - 1]);
                    }
                }
            }
        }
        let r = GeometryHandleSet::intersection(sets.as_slice());
        proof {
            let c = self.corner_data@.len();
            let views = set_views(sets@);
            if self.possible_geometry_entries_from_corner_data.spec_max_rotations() == c && c > 0 && r@ != Map::<usize, usize>::empty() {
                assert(exists|k: usize| r@.contains_key(k)) by {
                    if !exists|k: usize| r@.contains_key(k) {
                        assert(r@ =~= Map::<usize, usize>::empty());
                    }
                }
                let k = choose|k: usize| r@.contains_key(k);
                assert(intersection_map(views).contains_key(k));
                assert(views.len() == sets@.len());
                assert forall|j: int| 0 <= j < sets@.len() implies (#[trigger] sets@[j]).spec_max_rotations() == c by {
                    lemma_intersection_parts(views, k, j);
                    assert(views[j] == sets@[j]@);
                    if j > 0 {
                        assert(sets@[j] == &edge_restrictions@[j - 1]);
                    }
                }
                if sets@.len() > 1 {
                    lemma_intersection_parts(views, k, 0);
                    assert(views[0] == sets@[0]@);
                    self.possible_geometry_entries_from_corner_data.lemma_wf_view();
                    lemma_entries_map_keys(self.possible_geometry_entries_from_corner_data.spec_entries());
                    let t = choose|t: int| 1 <= t && r.spec_max_rotations() == #[trigger] cyclic_max_rotations(sets@, t);
                    lemma_cyclic_max_constant(sets@, t, c as usize);
                }
            }
        }
        r
    }

    /// Recomputes the geometry the cell may take from its corners and the
    /// restrictions of its neighbours. When the restrictions leave nothing, they are
    /// dropped and the corners alone decide. The cell keeps its current geometry while
    /// that is still allowed, and otherwise selects the first allowed one when `select`
    /// is set. It returns, for each neighbour inside the tiling, the profiles that may
    /// face it.
    pub fn recompute_from_restrictions<M>(&mut self, select: bool, tiling: &Tiling, geom_data: &GeometryStorage<M>) -> (r: Vec<(CollapseEntryIndex, CollapseNeighborUpdate)>)
        requires
            tiling.kind is Square,
            geom_data.wf(),
            storage_walls_closed(*geom_data),
            entry_wf(*old(self)),
            edges_countable(*geom_data, 4, old(self).edge_restrictions@),
            index_steppable(old(self).index_in_tiling),
        ensures
            entry_wf(*final(self)),
            final(self).index_in_tiling == old(self).index_in_tiling,
            final(self).height == old(self).height,
            final(self).history_enabled == old(self).history_enabled,
            exists|s: GeometryHandleSet| narrowed_set(s, *old(self), *geom_data)
                && #[trigger] recomputed(*old(self), *final(self), *geom_data, *tiling, select, s, r@),
    {
        let ghost start = *self;
        let ghost en = start.history_enabled;
        let ghost mut evs: Seq<CollapseHistory> = Seq::empty();
        let mut current = self.compute_current_total_restriction(geom_data);
        let ghost conflict = restrictions_conflict(start, *geom_data);
        if current.empty() {
            self.edge_restrictions.clear();
            current = self.possible_geometry_entries_from_corner_data.clone();
            self.write_to_history(CollapseHistory::Deselected(true));
            self.current_mesh = None;
            proof {
                lemma_logged_append(start.history@, en, evs, seq![CollapseHistory::Deselected(true)]);
                evs = evs + seq![CollapseHistory::Deselected(true)];
            }
        }
        let ghost s = current;
        let ghost ev_cleared = evs;
        proof {
            assert(narrowed_set(s, start, *geom_data));
            lemma_handles_rotations(s.spec_entries(), 4);
        }
        let first = first_of(&current);
        if current.length() == 1 {
            match first {
                Some(h) => {
                    self.write_to_history(CollapseHistory::DownTo(h));
                    proof {
                        lemma_logged_append(start.history@, en, evs, seq![CollapseHistory::DownTo(h)]);
                        evs = evs + seq![CollapseHistory::DownTo(h)];
                    }
                },
                None => {},
            }
        }
        let ghost ev_down = evs;
        let mut select_now = select;
        match self.current_mesh {
            Some(h) => {
                if current.contains(h) {
                    current = GeometryHandleSet::new(self.corner_data.len());
                    proof {
                        let b = h.orientation.spec_to_bits();
                        assert(0usize & b == 0usize) by (bit_vector);
                        assert(mask_at(Map::<usize, usize>::empty(), h.index) == 0);
                    }
                    current.insert(h);
                    select_now = false;
                    proof {
                        lemma_single_set_walls(*geom_data, current, h);
                    }
                } else {
                    self.write_to_history(CollapseHistory::Deselected(false));
                    self.current_mesh = None;
                    proof {
                        lemma_logged_append(start.history@, en, evs, seq![CollapseHistory::Deselected(false)]);
                        evs = evs + seq![CollapseHistory::Deselected(false)];
                    }
                }
            },
            None => {},
        }
        let ghost ev_dropped = evs;
        if select_now {
            self.current_mesh = first;
            match first {
                Some(h) => {
                    self.write_to_history(CollapseHistory::Selected(h, current.length()));
                    proof {
                        lemma_logged_append(start.history@, en, evs, seq![CollapseHistory::Selected(h, s.spec_length())]);
                        evs = evs + seq![CollapseHistory::Selected(h, s.spec_length())];
                    }
                    current = GeometryHandleSet::new(self.corner_data.len());
                    proof {
                        let b = h.orientation.spec_to_bits();
                        assert(0usize & b == 0usize) by (bit_vector);
                        assert(mask_at(Map::<usize, usize>::empty(), h.index) == 0);
                    }
                    current.insert(h);
                    proof {
                        lemma_single_set_walls(*geom_data, current, h);
                    }
                },
                None => {},
            }
        }
        self.options = current.length();
        let ghost before_send = *self;
        let updates = self.send_updates(tiling, geom_data, &current);
        proof {
            let chosen = chosen_mesh(start, *geom_data, select, s);
            assert(self.current_mesh == chosen);
            assert(settled_walls(*geom_data, chosen, s) == set_walls(*geom_data, current));
            let cleared = if conflict { seq![CollapseHistory::Deselected(true)] } else { Seq::<CollapseHistory>::empty() };
            let down = match first_handle(s) {
                Some(h) => if s.spec_length() == 1 { seq![CollapseHistory::DownTo(h)] } else { Seq::<CollapseHistory>::empty() },
                None => Seq::<CollapseHistory>::empty(),
            };
            let dropped = if !conflict && start.current_mesh is Some && kept_mesh(start, *geom_data) is None {
                seq![CollapseHistory::Deselected(false)]
            } else {
                Seq::<CollapseHistory>::empty()
            };
            let selected = match first_handle(s) {
                Some(h) => if kept_mesh(start, *geom_data) is None && select {
                    seq![CollapseHistory::Selected(h, s.spec_length())]
                } else {
                    Seq::<CollapseHistory>::empty()
                },
                None => Seq::<CollapseHistory>::empty(),
            };
            assert(ev_cleared =~= cleared);
            assert(ev_down =~= cleared + down);
            assert(ev_dropped =~= cleared + down + dropped);
            assert(evs =~= cleared + down + dropped + selected);
            assert(evs =~= narrowing_events(start, *geom_data, select, s));
            lemma_logged_append(start.history@, en, evs, sending(start.height, updates@));
            assert(self.options == (if chosen is Some { 1 } else { s.spec_length() }));
            assert(self.edge_restrictions@ == (if restrictions_conflict(start, *geom_data) {
                Seq::<EdgeRestriction>::empty()
            } else {
                start.edge_restrictions@
            }));
            assert(updates@ == updates_for(*tiling, start.index_in_tiling, start.height, settled_walls(*geom_data, chosen, s),
                geom_data.wall_reverse_profiles@, 4));
            assert(self.history@ == logged(start.history@, en, narrowing_events(start, *geom_data, select, s) + sending(start.height, updates@)));
            assert(recomputed(start, *self, *geom_data, *tiling, select, s, updates@));
        }
        updates
    }

    /// Takes new values for some of the cell's corners. When none of them changes a
    /// corner, nothing else happens and no update is sent. Otherwise the cell
    /// recomputes its indicators and the geometry its corners allow, and then
    /// recomputes its geometry from its restrictions without selecting, returning the
    /// updates for its neighbours.
    pub fn vertex_set_to<M>(&mut self, corner_value_pairs: &[(TileIndex, u32)], tiling: &Tiling, geom_data: &GeometryStorage<M>) -> (r: Vec<(CollapseEntryIndex, CollapseNeighborUpdate)>)
        requires
            tiling.kind is Square,
            geom_data.wf(),
            storage_walls_closed(*geom_data),
            storage_countable(*geom_data),
            entry_wf(*old(self)),
            index_steppable(old(self).index_in_tiling),
            old(self).height < u32::MAX,
        ensures
            corners_processed(*old(self), *final(self), corner_value_pairs@, *geom_data, *tiling, r@),
    {
        let ghost start = *self;
        let ghost en = start.history_enabled;
        let ghost pairs = corner_value_pairs@;
        let mut did_an_update_happen = false;
        let mut i: usize = 0;
        while i < corner_value_pairs.len()
            invariant
                pairs == corner_value_pairs@,
                i <= pairs.len(),
                corners_after(start.corner_data@, pairs.subrange(0, i as int)) == (self.corner_data@, did_an_update_happen),
                !did_an_update_happen ==> self.corner_data@ == start.corner_data@,
                self.corner_data@.len() == 4,
                self.history@ == logged(start.history@, en, corner_events(pairs.subrange(0, i as int))),
                self.index_in_tiling == start.index_in_tiling,
                self.height == start.height,
                self.options == start.options,
                self.current_mesh == start.current_mesh,
                self.current_bottom_indicator == start.current_bottom_indicator,
                self.current_top_indicator == start.current_top_indicator,
                self.edge_restrictions@ == start.edge_restrictions@,
                self.possible_geometry_entries_from_corner_data == start.possible_geometry_entries_from_corner_data,
                self.history_enabled == en,
            decreases pairs.len() - i,
        {
            let (corner, new_value) = corner_value_pairs[i];
            let ghost before = corner_events(pairs.subrange(0, i as int));
            self.write_to_history(CollapseHistory::SetCorner(corner, new_value));
            let changed = set_corner(&mut self.corner_data, corner, new_value);
            did_an_update_happen = did_an_update_happen || changed;
            i = i + 1;
            proof {
                let sub = pairs.subrange(0, i as int);
                assert(sub.drop_last() =~= pairs.subrange(0, i - 1));
                assert(sub.last() == (corner, new_value));
                assert(corner_events(sub) =~= before + seq![CollapseHistory::SetCorner(corner, new_value)]);
                lemma_logged_append(start.history@, en, before, seq![CollapseHistory::SetCorner(corner, new_value)]);
            }
        }
        proof {
            assert(pairs.subrange(0, i as int) =~= pairs);
        }
        if !did_an_update_happen {
            return Vec::new();
        }
        let bottom = Self::indicator_at(&self.corner_data, self.height);
        let top = Self::indicator_at(&self.corner_data, self.height + 1);
        self.current_bottom_indicator = bottom;
        self.current_top_indicator = top;
        self.possible_geometry_entries_from_corner_data = geom_data.get_vertical_matching(self.corner_data.len(), bottom, top);
        let ghost mid = *self;
        proof {
            assert(corners_set(start, mid, pairs, *geom_data));
            lemma_countable_edges(*geom_data, mid.edge_restrictions@);
        }
        let r = self.recompute_from_restrictions(false, tiling, geom_data);
        proof {
            let s = choose|s: GeometryHandleSet| narrowed_set(s, mid, *geom_data)
                && #[trigger] recomputed(mid, *self, *geom_data, *tiling, false, s, r@);
            assert(corners_set(start, mid, pairs, *geom_data) && narrowed_set(s, mid, *geom_data)
                && recomputed(mid, *self, *geom_data, *tiling, false, s, r@));
        }
        r
    }

    /// Takes the restrictions that neighbours sent. When none of them tells anything
    /// new, nothing else happens and no update is sent. Otherwise the cell drops its
    /// geometry and recomputes it from its restrictions without selecting, returning
    /// the updates for its neighbours.
    pub fn process_neighbor_updates<M>(&mut self, updates: Vec<CollapseNeighborUpdate>, tiling: &Tiling, geom_data: &GeometryStorage<M>) -> (r: Vec<(CollapseEntryIndex, CollapseNeighborUpdate)>)
        requires
            tiling.kind is Square,
            geom_data.wf(),
            storage_walls_closed(*geom_data),
            storage_countable(*geom_data),
            entry_wf(*old(self)),
            index_steppable(old(self).index_in_tiling),
        ensures
            neighbors_processed(*old(self), *final(self), updates@, *geom_data, *tiling, r@),
    {
        let ghost start = *self;
        let ghost en = start.history_enabled;
        let ghost mut events: Seq<CollapseHistory> = Seq::empty();
        let mut has_some_updates = false;
        let mut i: usize = 0;
        while i < updates.len()
            invariant
                i <= updates@.len(),
                edges_after(start.edge_restrictions@, updates@.subrange(0, i as int))
                    == (self.edge_restrictions@, events, has_some_updates),
                !has_some_updates ==> self.edge_restrictions@ == start.edge_restrictions@ && events.len() == 0,
                edges_sorted(self.edge_restrictions@),
                self.history@ == logged(start.history@, en, events),
                self.index_in_tiling == start.index_in_tiling,
                self.height == start.height,
                self.options == start.options,
                self.current_mesh == start.current_mesh,
                self.corner_data@ == start.corner_data@,
                self.current_bottom_indicator == start.current_bottom_indicator,
                self.current_top_indicator == start.current_top_indicator,
                self.possible_geometry_entries_from_corner_data == start.possible_geometry_entries_from_corner_data,
                self.history_enabled == en,
            decreases updates@.len() - i,
        {
            let update = updates[i];
            let ghost edges0 = self.edge_restrictions@;
            let slot = find_edge(&self.edge_restrictions, update.side);
            if slot < self.edge_restrictions.len() && self.edge_restrictions[slot].edge == update.side {
                let previous = self.edge_restrictions[slot].restruction;
                let differs = match previous {
                    Some(w) => w != update.walls,
                    None => true,
                };
                if differs {
                    has_some_updates = true;
                    let event = CollapseHistory::SetEdge(update.from_neighbor, update.side, update.walls, previous);
                    self.write_to_history(event);
                    self.edge_restrictions.set(slot, EdgeRestriction { edge: update.side, restruction: Some(update.walls) });
                    proof {
                        lemma_logged_append(start.history@, en, events, seq![event]);
                        assert(events + seq![event] =~= events.push(event));
                        events = events.push(event);
                        assert forall|a: int, b: int| 0 <= a < b < self.edge_restrictions@.len()
                            implies self.edge_restrictions@[a].edge < self.edge_restrictions@[b].edge by {
                            assert(self.edge_restrictions@[a].edge == edges0[a].edge);
                            assert(self.edge_restrictions@[b].edge == edges0[b].edge);
                        }
                        assert(edges_sorted(self.edge_restrictions@));
                    }
                }
            } else {
                has_some_updates = true;
                let event = CollapseHistory::SetEdge(update.from_neighbor, update.side, update.walls, None);
                self.write_to_history(event);
                self.edge_restrictions.insert(slot, EdgeRestriction { edge: update.side, restruction: Some(update.walls) });
                proof {
                    lemma_logged_append(start.history@, en, events, seq![event]);
                    assert(events + seq![event] =~= events.push(event));
                    events = events.push(event);
                    assert forall|a: int, b: int| 0 <= a < b < self.edge_restrictions@.len()
                        implies self.edge_restrictions@[a].edge < self.edge_restrictions@[b].edge by {
                        if b < slot {
                        } else if b == slot {
                        } else if a < slot {
                            assert(edges0[b - 1].edge >= update.side);
                        } else if a == slot {
                            assert(edges0[b - 1].edge >= update.side);
                            assert(edges0[slot as int].edge != update.side);
                            assert(edges0[slot as int].edge <= edges0[b - 1].edge);
                        }
                    }
                    assert(edges_sorted(self.edge_restrictions@));
                }
            }
            i = i + 1;
            proof {
                let sub = updates@.subrange(0, i as int);
                assert(sub.drop_last() =~= updates@.subrange(0, i - 1));
                assert(sub.last() == update);
            }
        }
        proof {
            assert(updates@.subrange(0, i as int) =~= updates@);
        }
        if has_some_updates {
            self.current_mesh = None;
            let ghost mid = *self;
            proof {
                assert(edges_set(start, mid, updates@));
                lemma_countable_edges(*geom_data, mid.edge_restrictions@);
            }
            let r = self.recompute_from_restrictions(false, tiling, geom_data);
            proof {
                let s = choose|s: GeometryHandleSet| narrowed_set(s, mid, *geom_data)
                    && #[trigger] recomputed(mid, *self, *geom_data, *tiling, false, s, r@);
                assert(edges_set(start, mid, updates@) && narrowed_set(s, mid, *geom_data)
                    && recomputed(mid, *self, *geom_data, *tiling, false, s, r@));
            }
            r
        } else {
            Vec::new()
        }
    }
}

/// The restrictions hold what `u` tells: its walls on its edge.
pub open spec fn holds_update(edges: Seq<EdgeRestriction>, u: CollapseNeighborUpdate) -> bool {
    exists|i: int| 0 <= i < edges.len() && #[trigger] edges[i] == (EdgeRestriction { edge: u.side, restruction: Some(u.walls) })
}

/// No two updates are about the same edge.
pub open spec fn sides_distinct(updates: Seq<CollapseNeighborUpdate>) -> bool {
    forall|i: int, j: int| 0 <= i < j < updates.len() ==> updates[i].side != updates[j].side
}

proof fn lemma_slot_facts(edges: Seq<EdgeRestriction>, side: usize, i: int)
    requires
        0 <= i <= edges.len(),
    ensures
        i <= slot_from(edges, side, i) <= edges.len(),
        forall|k: int| i <= k < slot_from(edges, side, i) ==> (#[trigger] edges[k]).edge < side,
        slot_from(edges, side, i) < edges.len() ==> edges[slot_from(edges, side, i)].edge >= side,
    decreases edges.len() - i,
{
    if i < edges.len() && edges[i].edge < side {
        lemma_slot_facts(edges, side, i + 1);
    }
}

proof fn lemma_known_side(edges: Seq<EdgeRestriction>, i: int)
    requires
        edges_sorted(edges),
        0 <= i < edges.len(),
    ensures
        edge_slot(edges, edges[i].edge) == i,
        edge_known(edges, edges[i].edge),
{
    let side = edges[i].edge;
    assert forall|k: int| 0 <= k < i implies (#[trigger] edges[k]).edge < side by {}
    lemma_slot_at(edges, side, i, 0);
}

proof fn lemma_held_updates_tell_nothing(edges: Seq<EdgeRestriction>, updates: Seq<CollapseNeighborUpdate>)
    requires
        edges_sorted(edges),
        forall|j: int| 0 <= j < updates.len() ==> holds_update(edges, #[trigger] updates[j]),
    ensures
        edges_after(edges, updates) == (edges, Seq::<CollapseHistory>::empty(), false),
    decreases updates.len(),
{
    if updates.len() > 0 {
        let rest = updates.drop_last();
        assert forall|j: int| 0 <= j < rest.len() implies holds_update(edges, #[trigger] rest[j]) by {
            assert(rest[j] == updates[j]);
        }
        lemma_held_updates_tell_nothing(edges, rest);
        let u = updates.last();
        assert(holds_update(edges, updates[updates.len() - 1]));
        let i = choose|i: int| 0 <= i < edges.len() && #[trigger] edges[i] == (EdgeRestriction { edge: u.side, restruction: Some(u.walls) });
        lemma_known_side(edges, i);
    }
}

proof fn lemma_updates_held(edges: Seq<EdgeRestriction>, updates: Seq<CollapseNeighborUpdate>)
    requires
        edges_sorted(edges),
        sides_distinct(updates),
    ensures
        edges_sorted(edges_after(edges, updates).0),
        forall|j: int| 0 <= j < updates.len() ==> holds_update(edges_after(edges, updates).0, #[trigger] updates[j]),
    decreases updates.len(),
{
    if updates.len() > 0 {
        let rest = updates.drop_last();
        assert(sides_distinct(rest)) by {
            assert forall|a: int, b: int| 0 <= a < b < rest.len() implies rest[a].side != rest[b].side by {
                assert(rest[a] == updates[a]);
                assert(rest[b] == updates[b]);
            }
        }
        lemma_updates_held(edges, rest);
        let prev = edges_after(edges, rest).0;
        let u = updates.last();
        let e = EdgeRestriction { edge: u.side, restruction: Some(u.walls) };
        let p = edge_slot(prev, u.side);
        lemma_slot_facts(prev, u.side, 0);
        let next = edges_after(edges, updates).0;
        if update_changes(prev, u) {
            assert(next == edges_after_update(prev, u));
            if edge_known(prev, u.side) {
                assert(next == prev.update(p, e));
                assert forall|a: int, b: int| 0 <= a < b < next.len() implies next[a].edge < next[b].edge by {
                    assert(next[a].edge == prev[a].edge);
                    assert(next[b].edge == prev[b].edge);
                }
                assert forall|j: int| 0 <= j < updates.len() implies holds_update(next, #[trigger] updates[j]) by {
                    if j == updates.len() - 1 {
                        assert(next[p] == e);
                    } else {
                        assert(rest[j] == updates[j]);
                        assert(holds_update(prev, rest[j]));
                        let i = choose|i: int| 0 <= i < prev.len()
                            && #[trigger] prev[i] == (EdgeRestriction { edge: rest[j].side, restruction: Some(rest[j].walls) });
                        assert(updates[j].side != u.side);
                        assert(i != p);
                        assert(next[i] == prev[i]);
                    }
                }
            } else {
                assert(next == prev.insert(p, e));
                assert(p < prev.len() ==> prev[p].edge > u.side);
                assert forall|a: int, b: int| 0 <= a < b < next.len() implies next[a].edge < next[b].edge by {
                    if b < p {
                        assert(next[a] == prev[a]);
                        assert(next[b] == prev[b]);
                    } else if b == p {
                        assert(next[a] == prev[a]);
                    } else if a < p {
                        assert(next[a] == prev[a]);
                        assert(next[b] == prev[b - 1]);
                        assert(prev[a].edge < u.side);
                        assert(prev[p].edge <= prev[b - 1].edge);
                    } else if a == p {
                        assert(next[b] == prev[b - 1]);
                        assert(prev[p].edge <= prev[b - 1].edge);
                    } else {
                        assert(next[a] == prev[a - 1]);
                        assert(next[b] == prev[b - 1]);
                    }
                }
                assert forall|j: int| 0 <= j < updates.len() implies holds_update(next, #[trigger] updates[j]) by {
                    if j == updates.len() - 1 {
                        assert(next[p] == e);
                    } else {
                        assert(rest[j] == updates[j]);
                        assert(holds_update(prev, rest[j]));
                        let i = choose|i: int| 0 <= i < prev.len()
                            && #[trigger] prev[i] == (EdgeRestriction { edge: rest[j].side, restruction: Some(rest[j].walls) });
                        if i < p {
                            assert(next[i] == prev[i]);
                        } else {
                            assert(next[i + 1] == prev[i]);
                        }
                    }
                }
            }
        } else {
            assert(next == prev);
            assert forall|j: int| 0 <= j < updates.len() implies holds_update(next, #[trigger] updates[j]) by {
                if j == updates.len() - 1 {
                    assert(prev[p] == e);
                } else {
                    assert(rest[j] == updates[j]);
                }
            }
        }
    }
}

/// Handing a cell again the restrictions it was just handed, one per edge, tells it
/// nothing new: its restrictions stay as they are, it records nothing, and so it
/// sends no update.
pub proof fn law_repeated_restrictions_tell_nothing(edges: Seq<EdgeRestriction>, updates: Seq<CollapseNeighborUpdate>)
    requires
        edges_sorted(edges),
        sides_distinct(updates),
    ensures
        edges_after(edges_after(edges, updates).0, updates) == (edges_after(edges, updates).0, Seq::<CollapseHistory>::empty(), false),
{
    lemma_updates_held(edges, updates);
    lemma_held_updates_tell_nothing(edges_after(edges, updates).0, updates);
}

/// No two entries are at the same corner.
pub open spec fn corners_distinct(data: Seq<(TileIndex, u32)>) -> bool {
    forall|i: int, j: int| 0 <= i < j < data.len() ==> data[i].0 != data[j].0
}

/// Every entry at `corner` already has the value `value`.
pub open spec fn corner_holds(data: Seq<(TileIndex, u32)>, corner: TileIndex, value: u32) -> bool {
    forall|i: int| 0 <= i < data.len() && (#[trigger] data[i]).0 == corner ==> data[i].1 == value
}

proof fn lemma_set_corner_facts(data: Seq<(TileIndex, u32)>, corner: TileIndex, value: u32, i: int)
    requires
        0 <= i <= data.len(),
        corners_distinct(data),
    ensures
        set_corner_from(data, corner, value, i).len() == data.len(),
        forall|k: int| 0 <= k < data.len() ==> (#[trigger] set_corner_from(data, corner, value, i)[k]).0 == data[k].0,
        forall|k: int| 0 <= k < data.len() && data[k].0 != corner ==> #[trigger] set_corner_from(data, corner, value, i)[k] == data[k],
        (forall|k: int| 0 <= k < i && (#[trigger] data[k]).0 == corner ==> data[k].1 == value)
            ==> corner_holds(set_corner_from(data, corner, value, i), corner, value),
        corner_holds(data, corner, value) ==> set_corner_from(data, corner, value, i) == data,
    decreases data.len() - i,
{
    if i < data.len() {
        if data[i].0 == corner && data[i].1 != value {
            let r = data.update(i, (corner, value));
            assert forall|k: int| 0 <= k < r.len() && (#[trigger] r[k]).0 == corner implies r[k].1 == value by {
                if k != i {
                    assert(data[k].0 == corner);
                }
            }
        } else {
            lemma_set_corner_facts(data, corner, value, i + 1);
        }
    }
}

proof fn lemma_held_corners_change_nothing(data: Seq<(TileIndex, u32)>, pairs: Seq<(TileIndex, u32)>)
    requires
        corners_distinct(data),
        forall|j: int| 0 <= j < pairs.len() ==> corner_holds(data, (#[trigger] pairs[j]).0, pairs[j].1),
    ensures
        corners_after(data, pairs) == (data, false),
    decreases pairs.len(),
{
    if pairs.len() > 0 {
        let rest = pairs.drop_last();
        assert forall|j: int| 0 <= j < rest.len() implies corner_holds(data, (#[trigger] rest[j]).0, rest[j].1) by {
            assert(rest[j] == pairs[j]);
        }
        lemma_held_corners_change_nothing(data, rest);
        assert(corner_holds(data, pairs[pairs.len() - 1].0, pairs[pairs.len() - 1].1));
        lemma_set_corner_facts(data, pairs.last().0, pairs.last().1, 0);
    }
}

proof fn lemma_corners_held(data: Seq<(TileIndex, u32)>, pairs: Seq<(TileIndex, u32)>)
    requires
        corners_distinct(data),
        corners_distinct(pairs),
    ensures
        corners_distinct(corners_after(data, pairs).0),
        forall|j: int| 0 <= j < pairs.len() ==> corner_holds(corners_after(data, pairs).0, (#[trigger] pairs[j]).0, pairs[j].1),
    decreases pairs.len(),
{
    if pairs.len() > 0 {
        let rest = pairs.drop_last();
        assert(corners_distinct(rest)) by {
            assert forall|a: int, b: int| 0 <= a < b < rest.len() implies rest[a].0 != rest[b].0 by {
                assert(rest[a] == pairs[a]);
                assert(rest[b] == pairs[b]);
            }
        }
        lemma_corners_held(data, rest);
        let prev = corners_after(data, rest).0;
        let (c, v) = pairs.last();
        lemma_set_corner_facts(prev, c, v, 0);
        let next = set_corner_from(prev, c, v, 0);
        assert(corners_after(data, pairs).0 == next);
        assert forall|a: int, b: int| 0 <= a < b < next.len() implies next[a].0 != next[b].0 by {
            assert(next[a].0 == prev[a].0);
            assert(next[b].0 == prev[b].0);
        }
        assert forall|j: int| 0 <= j < pairs.len() implies corner_holds(next, (#[trigger] pairs[j]).0, pairs[j].1) by {
            if j < pairs.len() - 1 {
                assert(rest[j] == pairs[j]);
                assert(corner_holds(prev, rest[j].0, rest[j].1));
                assert(pairs[j].0 != c);
                assert forall|k: int| 0 <= k < next.len() && (#[trigger] next[k]).0 == pairs[j].0 implies next[k].1 == pairs[j].1 by {
                    assert(next[k] == prev[k]);
                }
            }
        }
    }
}

/// Handing a cell again the corner values it was just handed, one per corner, changes
/// nothing, so the cell sends no update; this holds of cells whose corners differ.
pub proof fn law_repeated_corners_change_nothing(data: Seq<(TileIndex, u32)>, pairs: Seq<(TileIndex, u32)>)
    requires
        corners_distinct(data),
        corners_distinct(pairs),
    ensures
        corners_after(corners_after(data, pairs).0, pairs) == (corners_after(data, pairs).0, false),
{
    lemma_corners_held(data, pairs);
    lemma_held_corners_change_nothing(corners_after(data, pairs).0, pairs);
}

proof fn lemma_bit_positions_len(bits: u128, n: int)
    requires
        0 <= n,
    ensures
        bit_positions(bits, n).len() <= n,
    decreases n,
{
    if n > 0 {
        lemma_bit_positions_len(bits, n - 1);
    }
}

proof fn lemma_union_length_bound(list: Seq<(GeometryStorageWallKey, GeometryHandleSet)>, side: usize, ws: Seq<WallProfileIndex>, m: int)
    requires
        0 <= m,
        forall|i: int| 0 <= i < list.len() ==> (#[trigger] list[i]).1.spec_length() <= m,
    ensures
        wall_union_length(list, 4, side, ws) <= ws.len() * m,
    decreases ws.len(),
{
    if ws.len() > 0 {
        lemma_union_length_bound(list, side, ws.drop_last(), m);
        let key = GeometryStorageWallKey { side_count: 4, side, profile: ws.last() };
        if super::geom::geom::assoc_has(list, key) {
            let i = super::geom::geom::assoc_index(list, key);
            assert(0 <= i < list.len());
        }
        assert((ws.len() - 1) * m + m == ws.len() * m) by (nonlinear_arith);
    }
}

/// The storage is ready for the collapse: there are at most 128 side profiles and
/// each reverses to a known one; every piece of geometry has between 2 and
/// `usize::MAX / 4` sides, a profile for each side, and only known profiles; and no
/// set of geometry filed under a side profile holds more than `usize::MAX / 128`
/// handles.
pub open spec fn storage_checked<M>(geom: GeometryStorage<M>) -> bool {
    let n = geom.wall_reverse_profiles@.len();
    &&& n <= 128
    &&& forall|k: int| 0 <= k < n ==> (#[trigger] geom.wall_reverse_profiles@[k]).0 < n
    &&& forall|q: int| 0 <= q < geom.profiles@.len() ==> {
        let m = #[trigger] geom.profiles@[q];
        &&& 2 <= m.sides <= usize::MAX / 4
        &&& m.walls@.len() >= m.sides
        &&& forall|w: int| 0 <= w < m.walls@.len() ==> (#[trigger] m.walls@[w]).0 < n
    }
    &&& forall|q: int| 0 <= q < geom.side_wall_profile_to_geom_handle@.len()
        ==> (#[trigger] geom.side_wall_profile_to_geom_handle@[q]).1.spec_length() <= usize::MAX / 128
}

/// Checks what the collapse needs of the storage (see `storage_checked`): then every
/// piece of geometry shows a known profile on each of its sides in every orientation
/// of a square tile, the reverse of every known profile is known, and no set of
/// geometry sharing a side profile is too large to be counted together with others.
pub fn storage_ready_for_collapse<M>(geom_data: &GeometryStorage<M>) -> (r: bool)
    ensures
        r == storage_checked(*geom_data),
        r ==> storage_walls_closed(*geom_data) && storage_countable(*geom_data),
{
    let reverse = &geom_data.wall_reverse_profiles;
    let n = reverse.len();
    if n > 128 {
        return false;
    }
    let mut i: usize = 0;
    while i < n
        invariant
            n == reverse@.len(),
            reverse@ == geom_data.wall_reverse_profiles@,
            i <= n,
            forall|k: int| 0 <= k < i ==> (#[trigger] reverse@[k]).0 < n,
        decreases n - i,
    {
        if reverse[i].index() >= n {
            proof {
                assert(reverse@[i as int].0 >= n);
            }
            return false;
        }
        i = i + 1;
    }
    let profiles = &geom_data.profiles;
    let mut p: usize = 0;
    while p < profiles.len()
        invariant
            n == reverse@.len(),
            reverse@ == geom_data.wall_reverse_profiles@,
            profiles@ == geom_data.profiles@,
            p <= profiles@.len(),
            forall|q: int| 0 <= q < p ==> {
                let m = #[trigger] profiles@[q];
                &&& 2 <= m.sides <= usize::MAX / 4
                &&& m.walls@.len() >= m.sides
                &&& forall|w: int| 0 <= w < m.walls@.len() ==> (#[trigger] m.walls@[w]).0 < n
            },
        decreases profiles@.len() - p,
    {
        let m = &profiles[p];
        if m.sides < 2 || m.sides > usize::MAX / 4 || m.walls.len() < m.sides {
            proof {
                assert(*m == profiles@[p as int]);
            }
            return false;
        }
        let mut w: usize = 0;
        while w < m.walls.len()
            invariant
                n == reverse@.len(),
                reverse@ == geom_data.wall_reverse_profiles@,
                profiles@ == geom_data.profiles@,
                p < profiles@.len(),
                *m == profiles@[p as int],
                w <= m.walls@.len(),
                forall|k: int| 0 <= k < w ==> (#[trigger] m.walls@[k]).0 < n,
            decreases m.walls@.len() - w,
        {
            if m.walls[w].index() >= n {
                proof {
                    assert(*m == profiles@[p as int]);
                    assert(m.walls@[w as int].0 >= n);
                }
                return false;
            }
            w = w + 1;
        }
        p = p + 1;
    }
    let list = &geom_data.side_wall_profile_to_geom_handle;
    let bound = usize::MAX / 128;
    let mut k: usize = 0;
    while k < list.len()
        invariant
            list@ == geom_data.side_wall_profile_to_geom_handle@,
            k <= list@.len(),
            bound == usize::MAX / 128,
            forall|q: int| 0 <= q < k ==> (#[trigger] list@[q]).1.spec_length() <= bound,
        decreases list@.len() - k,
    {
        if list[k].1.length() > bound {
            proof {
                assert(list@[k as int].1.spec_length() > bound);
            }
            return false;
        }
        k = k + 1;
    }
    proof {
        let reverse_s = geom_data.wall_reverse_profiles@;
        assert forall|h: GeometryHandle, side: int| h.index < geom_data.profiles@.len() && h.orientation.spec_rotations() < 4 && 0 <= side < 4
            implies #[trigger] wall_closed_at(*geom_data, h, side) by {
            let m = geom_data.profiles@[h.index as int];
            let idx = super::geom::orientations::index_in_sequence(h.orientation, side, m.sides as int, false);
            assert(0 <= idx < m.sides);
            assert(m.walls@[idx].0 < n);
            if h.orientation.spec_is_reversed() {
                assert(reverse_s[m.walls@[idx].0 as int].0 < n);
            }
        }
        assert forall|side: usize, bits: u128| #[trigger] wall_union_length(geom_data.side_wall_profile_to_geom_handle@, 4, side,
            wall_indices_in_bits(bits)) <= usize::MAX by {
            let ws = wall_indices_in_bits(bits);
            lemma_bit_positions_len(bits, 128);
            lemma_union_length_bound(geom_data.side_wall_profile_to_geom_handle@, side, ws, bound as int);
            assert(ws.len() * (bound as int) <= 128 * (bound as int)) by (nonlinear_arith)
                requires ws.len() <= 128, bound >= 0;
        }
    }
    true
}

/// A corner below a cell's level shows it nothing (Empty), a corner at its level shows
/// a full bottom (Full), and a corner above it shows that the column goes on upward
/// (Stackable): the three cases give three different profiles, each from exactly its
/// case.
pub proof fn law_corner_profile_by_height(h: u32, g: u32, level: int)
    ensures
        (corner_profile(h, level) == VerticalProfile::Empty) == (h < level),
        (corner_profile(h, level) == VerticalProfile::Full) == (h == level),
        (corner_profile(h, level) == VerticalProfile::Stackable) == (h > level),
        g == level && h != g ==> corner_profile(h, level) != corner_profile(g, level),
        h > level && g < level ==> corner_profile(h, level) != corner_profile(g, level),
{
}

} // verus!
