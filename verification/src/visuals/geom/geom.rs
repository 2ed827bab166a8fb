use vstd::prelude::*;

use super::build_profiles::{wall_indices_in_bits, MeshProfile, WallProfileIndex};
use super::handles::{
    all_wf, handles_of, law_union_map_holds, lemma_mask_bits, map_holds, mask_at, max_rotations_of, set_views,
    total_length, union_map, GeometryHandle, GeometryHandleSet,
};
use super::orientations::{
    bit_position, fits_in_mask, index_in_sequence, index_in_sequence_defined, lemma_single_bit_nonzero,
    GeomOrientation,
};
use super::orientations::GeomOrientation::{Flipped, Standard};
use super::vertical::{
    indicator_defined, indicator_of, labels_text, parsed_pattern, valid_pattern, VerticalProfile,
    VerticalProfileParseError,
};

verus! {

/// The key under which geometry is found by the vertical profiles of its corners.
#[derive(PartialEq, Eq, Hash, Clone, Copy, Debug, Structural)]
pub struct GeometryStorageVerticalKey {
    pub side_count: usize,
    pub bottom_profile: usize,
    pub top_profile: usize,
}

impl GeometryStorageVerticalKey {
    pub fn new(side_count: usize, bottom: usize, top: usize) -> (r: Self)
        ensures
            r == (GeometryStorageVerticalKey { side_count, bottom_profile: bottom, top_profile: top }),
    {
        Self { side_count, bottom_profile: bottom, top_profile: top }
    }
}

/// The key under which geometry is found by the profile it shows on one side.
#[derive(PartialEq, Eq, Hash, Clone, Copy, Debug, Structural)]
pub struct GeometryStorageWallKey {
    pub side_count: usize,
    pub side: usize,
    pub profile: WallProfileIndex,
}

impl GeometryStorageWallKey {
    pub fn new(side_count: usize, side: usize, profile: WallProfileIndex) -> (r: Self)
        ensures
            r == (GeometryStorageWallKey { side_count, side, profile }),
    {
        Self { side_count, side, profile }
    }
}

/// A piece of geometry to load: the vertical profiles of its bottom and top, the
/// labels of its sides, and the orientations it may take.
pub struct ObjectProfile {
    pub top: Vec<VerticalProfile>,
    pub bottom: Vec<VerticalProfile>,
    pub edge_labels: Vec<String>,
    pub transforms: Vec<GeomOrientation>,
}

/// The bottom profiles, side labels, top profiles and orientations of an object.
pub type ObjectProfileView = (Seq<VerticalProfile>, Seq<Seq<char>>, Seq<VerticalProfile>, Seq<GeomOrientation>);

pub open spec fn labels_view(s: Seq<String>) -> Seq<Seq<char>> {
    s.map_values(|x: String| x@)
}

pub open spec fn object_view(p: ObjectProfile) -> ObjectProfileView {
    (p.bottom@, labels_view(p.edge_labels@), p.top@, p.transforms@)
}

pub open spec fn objects_view(s: Seq<ObjectProfile>) -> Seq<ObjectProfileView> {
    s.map_values(|p: ObjectProfile| object_view(p))
}

/// Labels, each followed by `_`.
pub open spec fn edge_labels_text(labels: Seq<Seq<char>>) -> Seq<char>
    decreases labels.len(),
{
    if labels.len() == 0 {
        Seq::empty()
    } else {
        edge_labels_text(labels.drop_last()) + labels.last() + "_"@
    }
}

/// `rect/<bottom labels>_<label>_..._<top labels>.obj`
pub open spec fn object_resource_text(v: ObjectProfileView) -> Seq<char> {
    "rect/"@ + labels_text(v.0) + "_"@ + edge_labels_text(v.1) + labels_text(v.2) + ".obj"@
}

pub open spec fn identity_turn() -> Seq<GeomOrientation> {
    seq![GeomOrientation::Standard { rotations: 0 }]
}

pub open spec fn two_turns() -> Seq<GeomOrientation> {
    seq![GeomOrientation::Standard { rotations: 0 }, GeomOrientation::Standard { rotations: 1 }]
}

pub open spec fn four_turns() -> Seq<GeomOrientation> {
    seq![
        GeomOrientation::Standard { rotations: 0 },
        GeomOrientation::Standard { rotations: 1 },
        GeomOrientation::Standard { rotations: 2 },
        GeomOrientation::Standard { rotations: 3 },
    ]
}

pub open spec fn eight_orientations() -> Seq<GeomOrientation> {
    four_turns() + seq![
        GeomOrientation::Flipped { rotations: 0 },
        GeomOrientation::Flipped { rotations: 1 },
        GeomOrientation::Flipped { rotations: 2 },
        GeomOrientation::Flipped { rotations: 3 },
    ]
}

impl ObjectProfile {
    /// An object from its bottom pattern, side labels and top pattern, in the identity
    /// orientation only.
    pub fn new(bottom: String, labels: Vec<&str>, top: String) -> (r: Result<Self, VerticalProfileParseError>)
        ensures
            match r {
                Ok(p) => {
                    &&& valid_pattern(bottom@)
                    &&& valid_pattern(top@)
                    &&& p.bottom@ == parsed_pattern(bottom@)
                    &&& p.top@ == parsed_pattern(top@)
                    &&& labels_view(p.edge_labels@) == labels@.map_values(|s: &str| s@)
                    &&& p.transforms@ == identity_turn()
                },
                Err(e) => {
                    &&& !(valid_pattern(bottom@) && valid_pattern(top@))
                    &&& e == VerticalProfileParseError::InvalidVerticalPattern
                },
            },
    {
        let top = match VerticalProfile::parse_from(top) {
            Ok(v) => v,
            Err(e) => return Err(e),
        };
        let bottom = match VerticalProfile::parse_from(bottom) {
            Ok(v) => v,
            Err(e) => return Err(e),
        };
        let mut edge_labels: Vec<String> = Vec::new();
        let mut i: usize = 0;
        while i < labels.len()
            invariant
                i <= labels@.len(),
                labels_view(edge_labels@) == labels@.subrange(0, i as int).map_values(|s: &str| s@),
            decreases labels@.len() - i,
        {
            let ghost before = edge_labels@;
            let label = String::from_str(labels[i]);
            edge_labels.push(label);
            i = i + 1;
            proof {
                assert(labels_view(edge_labels@) =~= labels_view(before).push(label@));
                assert(labels@.subrange(0, i as int) =~= labels@.subrange(0, i - 1).push(labels@[i - 1]));
                assert(labels_view(edge_labels@) =~= labels@.subrange(0, i as int).map_values(|s: &str| s@));
            }
        }
        proof {
            assert(labels@.subrange(0, i as int) == labels@);
        }
        Ok(ObjectProfile { top, bottom, edge_labels, transforms: vec![GeomOrientation::Standard { rotations: 0 }] })
    }

    pub fn with_transforms(self, transforms: Vec<GeomOrientation>) -> (r: Self)
        ensures
            r.top == self.top,
            r.bottom == self.bottom,
            r.edge_labels == self.edge_labels,
            r.transforms == transforms,
    {
        Self { transforms, ..self }
    }

    pub fn get_resource_location(&self) -> (r: String)
        ensures
            r@ == object_resource_text(object_view(*self)),
    {
        let mut data = String::new();
        data.append("rect/");
        data.append(VerticalProfile::label_string(&self.bottom).as_str());
        data.append("_");
        let ghost prefix = data@;
        let mut i: usize = 0;
        while i < self.edge_labels.len()
            invariant
                i <= self.edge_labels@.len(),
                data@ == prefix + edge_labels_text(labels_view(self.edge_labels@).subrange(0, i as int)),
            decreases self.edge_labels@.len() - i,
        {
            data.append(self.edge_labels[i].as_str());
            data.append("_");
            i = i + 1;
            proof {
                let sub = labels_view(self.edge_labels@).subrange(0, i as int);
                assert(sub.drop_last() == labels_view(self.edge_labels@).subrange(0, i - 1));
            }
        }
        proof {
            assert(labels_view(self.edge_labels@).subrange(0, i as int) == labels_view(self.edge_labels@));
        }
        data.append(VerticalProfile::label_string(&self.top).as_str());
        data.append(".obj");
        data
    }
}

fn push_rect_profile(profiles: &mut Vec<ObjectProfile>, profile: ObjectProfile)
    requires
        old(profiles)@.len() < rect_table().len(),
        objects_view(old(profiles)@) == rect_table().take(old(profiles)@.len() as int),
        object_view(profile) == rect_table()[old(profiles)@.len() as int],
    ensures
        final(profiles)@.len() == old(profiles)@.len() + 1,
        objects_view(final(profiles)@) == rect_table().take(final(profiles)@.len() as int),
{
    let ghost n = profiles@.len() as int;
    profiles.push(profile);
    proof {
        assert(objects_view(profiles@) =~= rect_table().take(n + 1));
    }
}

/// Geometry known to the renderer, with the indexes that find it by the profiles of
/// its corners and of its sides. `M` is the type of a loaded mesh.
pub struct GeometryStorage<M> {
    pub mesh_handles: Vec<Option<M>>,
    pub profiles: Vec<MeshProfile>,
    pub vertical_indicator_to_geom_handle: Vec<(GeometryStorageVerticalKey, GeometryHandleSet)>,
    pub side_wall_profile_to_geom_handle: Vec<(GeometryStorageWallKey, GeometryHandleSet)>,
    /// For each known side profile, the profile it shows when mirrored.
    pub wall_reverse_profiles: Vec<WallProfileIndex>,
}

/// Whether an association list has an entry for `k`.
pub open spec fn assoc_has<K>(s: Seq<(K, GeometryHandleSet)>, k: K) -> bool {
    exists|i: int| 0 <= i < s.len() && s[i].0 == k
}

/// The position of the entry for `k`.
pub open spec fn assoc_index<K>(s: Seq<(K, GeometryHandleSet)>, k: K) -> int {
    choose|i: int| 0 <= i < s.len() && s[i].0 == k
}

/// The handles stored for `k`, none when there is no entry.
pub open spec fn assoc_view<K>(s: Seq<(K, GeometryHandleSet)>, k: K) -> Map<usize, usize> {
    if assoc_has(s, k) {
        s[assoc_index(s, k)].1@
    } else {
        Map::empty()
    }
}

/// The number of handles stored for `k`.
pub open spec fn assoc_length<K>(s: Seq<(K, GeometryHandleSet)>, k: K) -> int {
    if assoc_has(s, k) {
        s[assoc_index(s, k)].1.spec_length() as int
    } else {
        0
    }
}

/// No key occurs twice, and every set is well formed.
pub open spec fn assoc_wf<K>(s: Seq<(K, GeometryHandleSet)>) -> bool {
    &&& forall|i: int, j: int| 0 <= i < s.len() && 0 <= j < s.len() && i != j ==> s[i].0 != s[j].0
    &&& forall|i: int| 0 <= i < s.len() ==> (#[trigger] s[i]).1.wf()
}

/// A mask map after the handles of one piece of geometry were added to it, when any
/// were.
pub open spec fn grown(m: Map<usize, usize>, index: usize, touched: bool, added: usize) -> Map<usize, usize> {
    if touched {
        m.insert(index, mask_at(m, index) | added)
    } else {
        m
    }
}

proof fn lemma_assoc_at<K>(s: Seq<(K, GeometryHandleSet)>, p: int, k: K)
    requires
        assoc_wf(s),
        0 <= p < s.len(),
        s[p].0 == k,
    ensures
        assoc_has(s, k),
        assoc_index(s, k) == p,
        assoc_view(s, k) == s[p].1@,
        assoc_length(s, k) == s[p].1.spec_length(),
{
}

/// Whether position `i` is not the one that `pos` names.
pub open spec fn other_slot(pos: Option<usize>, i: int) -> bool {
    match pos {
        Some(p) => i != p as int,
        None => true,
    }
}

/// Add `handle` to the set stored under `key`, at `pos` when there is one, else in a
/// new set of `max_rotations` appended at the end.
fn add_handle<K>(list: &mut Vec<(K, GeometryHandleSet)>, pos: Option<usize>, key: K, handle: GeometryHandle, max_rotations: usize)
    requires
        assoc_wf(old(list)@),
        fits_in_mask(handle.orientation),
        match pos {
            Some(p) => p < old(list)@.len() && old(list)@[p as int].0 == key
                && old(list)@[p as int].1.spec_length() < usize::MAX,
            None => !assoc_has(old(list)@, key),
        },
    ensures
        assoc_wf(final(list)@),
        final(list)@.len() == old(list)@.len() + (if pos is None { 1int } else { 0int }),
        forall|i: int| 0 <= i < old(list)@.len() ==> (#[trigger] final(list)@[i]).0 == old(list)@[i].0,
        forall|i: int| 0 <= i < old(list)@.len() && other_slot(pos, i) ==> #[trigger] final(list)@[i] == old(list)@[i],
        match pos {
            Some(p) => {
                &&& final(list)@[p as int].1.spec_max_rotations() == old(list)@[p as int].1.spec_max_rotations()
                &&& final(list)@[p as int].1.spec_length() <= old(list)@[p as int].1.spec_length() + 1
            },
            None => {
                &&& final(list)@.last().0 == key
                &&& final(list)@.last().1.spec_max_rotations() == max_rotations
                &&& final(list)@.last().1.spec_length() == 1
            },
        },
        forall|k: K| #[trigger] assoc_view(final(list)@, k) == if k == key {
            grown(assoc_view(old(list)@, k), handle.index, true, handle.orientation.spec_to_bits())
        } else {
            assoc_view(old(list)@, k)
        },
        forall|k: K| #[trigger] assoc_length(final(list)@, k) <= assoc_length(old(list)@, k) + if k == key { 1int } else { 0int },
{
    let ghost old_list = list@;
    match pos {
        Some(p) => {
            let mut set = list[p].1.clone();
            let ghost cloned = set;
            set.insert(handle);
            let ghost inserted = set;
            list.set(p, (key, set));
            proof {
                assert(cloned.spec_length() == old_list[p as int].1.spec_length());
                assert(inserted.spec_length() <= cloned.spec_length() + 1);
                assert(list@[p as int].1 == inserted);
                assert forall|k: K| #[trigger] assoc_view(list@, k) == if k == key {
                    grown(assoc_view(old_list, k), handle.index, true, handle.orientation.spec_to_bits())
                } else {
                    assoc_view(old_list, k)
                } && assoc_length(list@, k) <= assoc_length(old_list, k) + if k == key { 1int } else { 0int } by {
                    if k == key {
                        lemma_assoc_at(old_list, p as int, k);
                        lemma_assoc_at(list@, p as int, k);
                    } else if assoc_has(old_list, k) {
                        let i = assoc_index(old_list, k);
                        lemma_assoc_at(old_list, i, k);
                        lemma_assoc_at(list@, i, k);
                    } else {
                        assert(!assoc_has(list@, k));
                    }
                }
            }
        },
        None => {
            let mut set = GeometryHandleSet::new(max_rotations);
            proof {
                let b = handle.orientation.spec_to_bits();
                assert(0usize & b == 0) by (bit_vector);
                assert(mask_at(set@, handle.index) == 0);
            }
            set.insert(handle);
            list.push((key, set));
            proof {
                let n = old_list.len() as int;
                assert forall|k: K| #[trigger] assoc_view(list@, k) == if k == key {
                    grown(assoc_view(old_list, k), handle.index, true, handle.orientation.spec_to_bits())
                } else {
                    assoc_view(old_list, k)
                } && assoc_length(list@, k) <= assoc_length(old_list, k) + if k == key { 1int } else { 0int } by {
                    if k == key {
                        lemma_assoc_at(list@, n, k);
                        assert(mask_at(Map::<usize, usize>::empty(), handle.index) == 0);
                        let b = handle.orientation.spec_to_bits();
                        assert(0usize | b == b) by (bit_vector);
                    } else if assoc_has(old_list, k) {
                        let i = assoc_index(old_list, k);
                        lemma_assoc_at(old_list, i, k);
                        lemma_assoc_at(list@, i, k);
                    } else {
                        assert(!assoc_has(list@, k));
                    }
                }
            }
        },
    }
}

/// The profile shown at `side` by a piece of geometry with side profiles `walls`
/// placed in orientation `o`: a mirrored piece shows the reverse profile.
pub open spec fn oriented_wall(reverse: Seq<WallProfileIndex>, walls: Seq<WallProfileIndex>, sides: int, side: int, o: GeomOrientation) -> WallProfileIndex {
    let w = walls[index_in_sequence(o, side, sides, false)];
    if o.spec_is_reversed() {
        reverse[w.0 as int]
    } else {
        w
    }
}

/// Whether `oriented_wall` can be looked up without leaving any list.
pub open spec fn oriented_wall_defined(reverse: Seq<WallProfileIndex>, walls: Seq<WallProfileIndex>, sides: int, side: int, o: GeomOrientation) -> bool {
    &&& index_in_sequence_defined(o, side, sides, false)
    &&& index_in_sequence(o, side, sides, false) < walls.len()
    &&& o.spec_is_reversed() ==> walls[index_in_sequence(o, side, sides, false)].0 < reverse.len()
}

/// The corner key of a piece of geometry in orientation `o`.
pub open spec fn vertical_key(sides: usize, top: Seq<VerticalProfile>, bottom: Seq<VerticalProfile>, o: GeomOrientation) -> GeometryStorageVerticalKey {
    GeometryStorageVerticalKey {
        side_count: sides,
        bottom_profile: indicator_of(bottom, o, bottom.len() as int),
        top_profile: indicator_of(top, o, top.len() as int),
    }
}

/// Whether one of the first `n` orientations gives the corner key `k`.
pub open spec fn vertical_touched(k: GeometryStorageVerticalKey, sides: usize, top: Seq<VerticalProfile>, bottom: Seq<VerticalProfile>, os: Seq<GeomOrientation>, n: int) -> bool
    decreases n,
{
    if n <= 0 {
        false
    } else {
        vertical_touched(k, sides, top, bottom, os, n - 1) || vertical_key(sides, top, bottom, os[n - 1]) == k
    }
}

/// The orientation bits, among the first `n` orientations, of those that give the
/// corner key `k`.
pub open spec fn vertical_added(k: GeometryStorageVerticalKey, sides: usize, top: Seq<VerticalProfile>, bottom: Seq<VerticalProfile>, os: Seq<GeomOrientation>, n: int) -> usize
    decreases n,
{
    if n <= 0 {
        0
    } else {
        vertical_added(k, sides, top, bottom, os, n - 1) | if vertical_key(sides, top, bottom, os[n - 1]) == k {
            os[n - 1].spec_to_bits()
        } else {
            0
        }
    }
}

/// Whether orientation `o` puts the profile of key `k` at the side that `k` names,
/// for a side below `limit`.
pub open spec fn wall_hit(k: GeometryStorageWallKey, reverse: Seq<WallProfileIndex>, p: MeshProfile, o: GeomOrientation, limit: int) -> bool {
    &&& k.side_count == p.sides
    &&& k.side < limit
    &&& k.side < p.sides
    &&& oriented_wall(reverse, p.walls@, p.sides as int, k.side as int, o) == k.profile
}

pub open spec fn wall_touched(k: GeometryStorageWallKey, reverse: Seq<WallProfileIndex>, p: MeshProfile, n: int) -> bool
    decreases n,
{
    if n <= 0 {
        false
    } else {
        wall_touched(k, reverse, p, n - 1) || wall_hit(k, reverse, p, p.orientations@[n - 1], p.sides as int)
    }
}

pub open spec fn wall_added(k: GeometryStorageWallKey, reverse: Seq<WallProfileIndex>, p: MeshProfile, n: int) -> usize
    decreases n,
{
    if n <= 0 {
        0
    } else {
        wall_added(k, reverse, p, n - 1) | if wall_hit(k, reverse, p, p.orientations@[n - 1], p.sides as int) {
            p.orientations@[n - 1].spec_to_bits()
        } else {
            0
        }
    }
}

/// The handle sets stored for `side` of `side_count`-sided geometry under each of
/// the profiles `ws` that has a set, in order.
pub open spec fn wall_union_views(list: Seq<(GeometryStorageWallKey, GeometryHandleSet)>, side_count: usize, side: usize, ws: Seq<WallProfileIndex>) -> Seq<Map<usize, usize>>
    decreases ws.len(),
{
    if ws.len() == 0 {
        Seq::empty()
    } else {
        let prev = wall_union_views(list, side_count, side, ws.drop_last());
        let key = GeometryStorageWallKey { side_count, side, profile: ws.last() };
        if assoc_has(list, key) {
            prev.push(assoc_view(list, key))
        } else {
            prev
        }
    }
}

/// The total number of handles in the sets that `wall_union_views` gathers.
pub open spec fn wall_union_length(list: Seq<(GeometryStorageWallKey, GeometryHandleSet)>, side_count: usize, side: usize, ws: Seq<WallProfileIndex>) -> int
    decreases ws.len(),
{
    if ws.len() == 0 {
        0
    } else {
        wall_union_length(list, side_count, side, ws.drop_last())
            + assoc_length(list, GeometryStorageWallKey { side_count, side, profile: ws.last() })
    }
}

/// The mask of the side profiles that the first `n` handles show at `side`, for the
/// handles whose geometry is known.
pub open spec fn walls_mask(reverse: Seq<WallProfileIndex>, profiles: Seq<MeshProfile>, handles: Seq<GeometryHandle>, side: int, n: int) -> u128
    decreases n,
{
    if n <= 0 {
        0
    } else {
        let prev = walls_mask(reverse, profiles, handles, side, n - 1);
        let h = handles[n - 1];
        if h.index < profiles.len() {
            let p = profiles[h.index as int];
            prev | (1u128 << oriented_wall(reverse, p.walls@, p.sides as int, side, h.orientation).0)
        } else {
            prev
        }
    }
}

/// Every handle of known geometry can be looked up on every side below `sides`, and
/// shows a profile whose bit fits in a `u128`.
pub open spec fn walls_known(reverse: Seq<WallProfileIndex>, profiles: Seq<MeshProfile>, handles: Seq<GeometryHandle>, sides: int) -> bool {
    forall|i: int, side: int| 0 <= i < handles.len() && 0 <= side < sides && handles[i].index < profiles.len()
        ==> #[trigger] handle_side_known(reverse, profiles, handles[i], side)
}

/// The side profile of `h` at `side` can be looked up and its bit fits in a `u128`.
pub open spec fn handle_side_known(reverse: Seq<WallProfileIndex>, profiles: Seq<MeshProfile>, h: GeometryHandle, side: int) -> bool {
    let p = profiles[h.index as int];
    &&& oriented_wall_defined(reverse, p.walls@, p.sides as int, side, h.orientation)
    &&& oriented_wall(reverse, p.walls@, p.sides as int, side, h.orientation).0 < 128
}

proof fn lemma_total_length_prefix(sets: Seq<&GeometryHandleSet>, before: Seq<&GeometryHandleSet>)
    requires
        sets.len() == before.len() + 1,
        sets.drop_last() == before,
    ensures
        total_length(sets, sets.len() as int) == total_length(before, before.len() as int) + sets.last().spec_length(),
{
    lemma_total_length_agree(sets, before, before.len() as int);
}

proof fn lemma_total_length_agree(a: Seq<&GeometryHandleSet>, b: Seq<&GeometryHandleSet>, n: int)
    requires
        0 <= n <= b.len(),
        n <= a.len(),
        forall|i: int| 0 <= i < n ==> a[i] == b[i],
    ensures
        total_length(a, n) == total_length(b, n),
        max_rotations_of(a, n) == max_rotations_of(b, n),
    decreases n,
{
    if n > 0 {
        lemma_total_length_agree(a, b, n - 1);
    }
}

proof fn lemma_max_rotations_prefix(sets: Seq<&GeometryHandleSet>, before: Seq<&GeometryHandleSet>)
    requires
        sets.len() == before.len() + 1,
        sets.drop_last() == before,
    ensures
        max_rotations_of(sets, sets.len() as int) == {
            let prev = max_rotations_of(before, before.len() as int);
            let cur = sets.last().spec_max_rotations();
            if prev < cur { cur } else { prev }
        },
{
    lemma_total_length_agree(sets, before, before.len() as int);
}

proof fn lemma_wall_union_length_prefix(list: Seq<(GeometryStorageWallKey, GeometryHandleSet)>, side_count: usize, side: usize, ws: Seq<WallProfileIndex>, i: int)
    requires
        0 <= i <= ws.len(),
    ensures
        wall_union_length(list, side_count, side, ws.subrange(0, i)) <= wall_union_length(list, side_count, side, ws),
    decreases ws.len() - i,
{
    if i < ws.len() {
        lemma_wall_union_length_prefix(list, side_count, side, ws, i + 1);
        let sub = ws.subrange(0, i + 1);
        assert(sub.drop_last() == ws.subrange(0, i));
    } else {
        assert(ws.subrange(0, i) == ws);
    }
}

proof fn lemma_bit_kept(prev: usize, other: usize, b: usize) by (bit_vector)
    requires
        b != 0,
    ensures
        ((prev | b) & b) != 0,
        (prev & b) != 0 ==> ((prev | other) & b) != 0,
        (prev & b) != 0 ==> ((other | prev) & b) != 0,
{
}

proof fn lemma_vertical_added_has(k: GeometryStorageVerticalKey, sides: usize, top: Seq<VerticalProfile>, bottom: Seq<VerticalProfile>, os: Seq<GeomOrientation>, n: int, j: int)
    requires
        0 <= j < n <= os.len(),
        vertical_key(sides, top, bottom, os[j]) == k,
        os[j].spec_to_bits() != 0,
    ensures
        vertical_touched(k, sides, top, bottom, os, n),
        vertical_added(k, sides, top, bottom, os, n) & os[j].spec_to_bits() != 0,
    decreases n,
{
    let b = os[j].spec_to_bits();
    if j < n - 1 {
        lemma_vertical_added_has(k, sides, top, bottom, os, n - 1, j);
        let other = if vertical_key(sides, top, bottom, os[n - 1]) == k { os[n - 1].spec_to_bits() } else { 0 };
        lemma_bit_kept(vertical_added(k, sides, top, bottom, os, n - 1), other, b);
    } else {
        lemma_bit_kept(vertical_added(k, sides, top, bottom, os, n - 1), 0, b);
    }
}

proof fn lemma_wall_added_has(k: GeometryStorageWallKey, reverse: Seq<WallProfileIndex>, p: MeshProfile, n: int, j: int)
    requires
        0 <= j < n <= p.orientations@.len(),
        wall_hit(k, reverse, p, p.orientations@[j], p.sides as int),
        p.orientations@[j].spec_to_bits() != 0,
    ensures
        wall_touched(k, reverse, p, n),
        wall_added(k, reverse, p, n) & p.orientations@[j].spec_to_bits() != 0,
    decreases n,
{
    let b = p.orientations@[j].spec_to_bits();
    if j < n - 1 {
        lemma_wall_added_has(k, reverse, p, n - 1, j);
        let other = if wall_hit(k, reverse, p, p.orientations@[n - 1], p.sides as int) {
            p.orientations@[n - 1].spec_to_bits()
        } else {
            0
        };
        lemma_bit_kept(wall_added(k, reverse, p, n - 1), other, b);
    } else {
        lemma_bit_kept(wall_added(k, reverse, p, n - 1), 0, b);
    }
}

/// After `store`, every orientation of the stored geometry is found under the corner
/// key it has in that orientation: the set that `store` leaves under that key holds
/// the handle of the new geometry in that orientation.
pub proof fn law_store_files_corner_key(m: Map<usize, usize>, index: usize, sides: usize, top: Seq<VerticalProfile>, bottom: Seq<VerticalProfile>, os: Seq<GeomOrientation>, j: int)
    requires
        0 <= j < os.len(),
        fits_in_mask(os[j]),
    ensures
        map_holds(
            grown(
                m,
                index,
                vertical_touched(vertical_key(sides, top, bottom, os[j]), sides, top, bottom, os, os.len() as int),
                vertical_added(vertical_key(sides, top, bottom, os[j]), sides, top, bottom, os, os.len() as int),
            ),
            GeometryHandle { index, orientation: os[j] },
        ),
{
    let k = vertical_key(sides, top, bottom, os[j]);
    lemma_single_bit_nonzero(bit_position(os[j]) as usize);
    lemma_vertical_added_has(k, sides, top, bottom, os, os.len() as int, j);
    let added = vertical_added(k, sides, top, bottom, os, os.len() as int);
    lemma_bit_kept(added, mask_at(m, index), os[j].spec_to_bits());
}

/// After `store`, every orientation of the stored geometry is found, for each side,
/// under the side profile it shows there.
pub proof fn law_store_files_side_keys(m: Map<usize, usize>, index: usize, reverse: Seq<WallProfileIndex>, p: MeshProfile, j: int, side: usize)
    requires
        0 <= j < p.orientations@.len(),
        side < p.sides,
        fits_in_mask(p.orientations@[j]),
    ensures
        ({
            let k = GeometryStorageWallKey {
                side_count: p.sides,
                side,
                profile: oriented_wall(reverse, p.walls@, p.sides as int, side as int, p.orientations@[j]),
            };
            map_holds(
                grown(m, index, wall_touched(k, reverse, p, p.orientations@.len() as int), wall_added(k, reverse, p, p.orientations@.len() as int)),
                GeometryHandle { index, orientation: p.orientations@[j] },
            )
        }),
{
    let k = GeometryStorageWallKey {
        side_count: p.sides,
        side,
        profile: oriented_wall(reverse, p.walls@, p.sides as int, side as int, p.orientations@[j]),
    };
    lemma_single_bit_nonzero(bit_position(p.orientations@[j]) as usize);
    lemma_wall_added_has(k, reverse, p, p.orientations@.len() as int, j);
    let added = wall_added(k, reverse, p, p.orientations@.len() as int);
    lemma_bit_kept(added, mask_at(m, index), p.orientations@[j].spec_to_bits());
}

/// After `store`, looking up the corner key that the new geometry has in any of its
/// orientations, as `get_vertical_matching` does, finds the new geometry in that
/// orientation.
pub proof fn law_stored_geometry_found_by_corners<M>(before: GeometryStorage<M>, after: GeometryStorage<M>, profile: MeshProfile,
    top: Seq<VerticalProfile>, bottom: Seq<VerticalProfile>, j: int)
    requires
        0 <= j < profile.orientations@.len(),
        fits_in_mask(profile.orientations@[j]),
        forall|k: GeometryStorageVerticalKey| #[trigger] after.vertical_view(k) == grown(
            before.vertical_view(k),
            before.mesh_handles@.len() as usize,
            vertical_touched(k, profile.sides, top, bottom, profile.orientations@, profile.orientations@.len() as int),
            vertical_added(k, profile.sides, top, bottom, profile.orientations@, profile.orientations@.len() as int),
        ),
    ensures
        map_holds(
            after.vertical_view(vertical_key(profile.sides, top, bottom, profile.orientations@[j])),
            GeometryHandle { index: before.mesh_handles@.len() as usize, orientation: profile.orientations@[j] },
        ),
{
    let k = vertical_key(profile.sides, top, bottom, profile.orientations@[j]);
    assert(after.vertical_view(k) == grown(
        before.vertical_view(k),
        before.mesh_handles@.len() as usize,
        vertical_touched(k, profile.sides, top, bottom, profile.orientations@, profile.orientations@.len() as int),
        vertical_added(k, profile.sides, top, bottom, profile.orientations@, profile.orientations@.len() as int),
    ));
    law_store_files_corner_key(before.vertical_view(k), before.mesh_handles@.len() as usize, profile.sides, top, bottom,
        profile.orientations@, j);
}

/// The union that `get_wall_union` gathers holds every set stored under a side
/// profile whose bit is asked for.
proof fn lemma_wall_union_views_has(list: Seq<(GeometryStorageWallKey, GeometryHandleSet)>, side_count: usize, side: usize,
    ws: Seq<WallProfileIndex>, t: int)
    requires
        0 <= t < ws.len(),
        assoc_has(list, GeometryStorageWallKey { side_count, side, profile: ws[t] }),
    ensures
        exists|i: int| 0 <= i < wall_union_views(list, side_count, side, ws).len()
            && #[trigger] wall_union_views(list, side_count, side, ws)[i] == assoc_view(list, GeometryStorageWallKey { side_count, side, profile: ws[t] }),
    decreases ws.len(),
{
    let prev = wall_union_views(list, side_count, side, ws.drop_last());
    let views = wall_union_views(list, side_count, side, ws);
    if t == ws.len() - 1 {
        assert(views[views.len() - 1] == assoc_view(list, GeometryStorageWallKey { side_count, side, profile: ws[t] }));
    } else {
        assert(ws.drop_last()[t] == ws[t]);
        lemma_wall_union_views_has(list, side_count, side, ws.drop_last(), t);
        let i = choose|i: int| 0 <= i < prev.len() && #[trigger] prev[i] == assoc_view(list, GeometryStorageWallKey { side_count, side, profile: ws[t] });
        let last_key = GeometryStorageWallKey { side_count, side, profile: ws.last() };
        if assoc_has(list, last_key) {
            assert(views[i] == prev[i]);
        }
    }
}

/// After `store`, asking `get_wall_union`, for any side, for a set of side profiles
/// that includes the one the new geometry shows there in one of its orientations,
/// finds the new geometry in that orientation.
pub proof fn law_stored_geometry_found_by_sides<M>(before: GeometryStorage<M>, after: GeometryStorage<M>, profile: MeshProfile,
    j: int, side: usize, wall_bits: u128, t: int)
    requires
        0 <= j < profile.orientations@.len(),
        side < profile.sides,
        fits_in_mask(profile.orientations@[j]),
        before.mesh_handles@.len() < usize::MAX,
        0 <= t < wall_indices_in_bits(wall_bits).len(),
        wall_indices_in_bits(wall_bits)[t] == oriented_wall(before.wall_reverse_profiles@, profile.walls@, profile.sides as int,
            side as int, profile.orientations@[j]),
        forall|k: GeometryStorageWallKey| #[trigger] after.wall_view(k) == grown(
            before.wall_view(k),
            before.mesh_handles@.len() as usize,
            wall_touched(k, before.wall_reverse_profiles@, profile, profile.orientations@.len() as int),
            wall_added(k, before.wall_reverse_profiles@, profile, profile.orientations@.len() as int),
        ),
    ensures
        map_holds(
            union_map(wall_union_views(after.side_wall_profile_to_geom_handle@, profile.sides, side, wall_indices_in_bits(wall_bits))),
            GeometryHandle { index: before.mesh_handles@.len() as usize, orientation: profile.orientations@[j] },
        ),
{
    let reverse = before.wall_reverse_profiles@;
    let o = profile.orientations@[j];
    let h = GeometryHandle { index: before.mesh_handles@.len() as usize, orientation: o };
    let k = GeometryStorageWallKey {
        side_count: profile.sides,
        side,
        profile: oriented_wall(reverse, profile.walls@, profile.sides as int, side as int, o),
    };
    let list = after.side_wall_profile_to_geom_handle@;
    assert(after.wall_view(k) == grown(
        before.wall_view(k),
        before.mesh_handles@.len() as usize,
        wall_touched(k, reverse, profile, profile.orientations@.len() as int),
        wall_added(k, reverse, profile, profile.orientations@.len() as int),
    ));
    law_store_files_side_keys(before.wall_view(k), before.mesh_handles@.len() as usize, reverse, profile, j, side);
    assert(map_holds(assoc_view(list, k), h));
    if !assoc_has(list, k) {
        lemma_mask_bits(0, 0, o.spec_to_bits());
        assert(false);
    }
    let ws = wall_indices_in_bits(wall_bits);
    lemma_wall_union_views_has(list, profile.sides, side, ws, t);
    let views = wall_union_views(list, profile.sides, side, ws);
    let i = choose|i: int| 0 <= i < views.len() && #[trigger] views[i] == assoc_view(list, k);
    assert(map_holds(views[i], h));
    law_union_map_holds(views, h);
}

proof fn lemma_or_facts(m: usize, a: usize, b: usize) by (bit_vector)
    ensures
        a | 0usize == a,
        0usize | b == b,
        (m | a) | b == m | (a | b),
{
}

proof fn lemma_grown_step(m: Map<usize, usize>, index: usize, touched: bool, added: usize, bits: usize)
    requires
        !touched ==> added == 0,
    ensures
        grown(grown(m, index, touched, added), index, true, bits) == grown(m, index, true, added | bits),
{
    lemma_or_facts(mask_at(m, index), added, bits);
    if touched {
        assert(mask_at(grown(m, index, touched, added), index) == mask_at(m, index) | added);
        assert(grown(grown(m, index, touched, added), index, true, bits) =~= grown(m, index, true, added | bits));
    }
}

proof fn lemma_vertical_untouched(k: GeometryStorageVerticalKey, sides: usize, top: Seq<VerticalProfile>, bottom: Seq<VerticalProfile>, os: Seq<GeomOrientation>, n: int)
    ensures
        !vertical_touched(k, sides, top, bottom, os, n) ==> vertical_added(k, sides, top, bottom, os, n) == 0,
    decreases n,
{
    if n > 0 {
        lemma_vertical_untouched(k, sides, top, bottom, os, n - 1);
        lemma_or_facts(0, 0, 0);
    }
}

proof fn lemma_wall_untouched(k: GeometryStorageWallKey, reverse: Seq<WallProfileIndex>, p: MeshProfile, n: int)
    ensures
        !wall_touched(k, reverse, p, n) ==> wall_added(k, reverse, p, n) == 0,
    decreases n,
{
    if n > 0 {
        lemma_wall_untouched(k, reverse, p, n - 1);
        lemma_or_facts(0, 0, 0);
    }
}

impl<M> GeometryStorage<M> {
    /// Both indexes are association lists without repeated keys, of well-formed sets
    /// whose orientation count is the side count of their key.
    pub open spec fn wf(&self) -> bool {
        &&& assoc_wf(self.vertical_indicator_to_geom_handle@)
        &&& assoc_wf(self.side_wall_profile_to_geom_handle@)
        &&& forall|i: int| 0 <= i < self.vertical_indicator_to_geom_handle@.len() ==>
            (#[trigger] self.vertical_indicator_to_geom_handle@[i]).1.spec_max_rotations()
                == self.vertical_indicator_to_geom_handle@[i].0.side_count
        &&& forall|i: int| 0 <= i < self.side_wall_profile_to_geom_handle@.len() ==>
            (#[trigger] self.side_wall_profile_to_geom_handle@[i]).1.spec_max_rotations()
                == self.side_wall_profile_to_geom_handle@[i].0.side_count
    }

    pub open spec fn vertical_view(&self, k: GeometryStorageVerticalKey) -> Map<usize, usize> {
        assoc_view(self.vertical_indicator_to_geom_handle@, k)
    }

    pub open spec fn wall_view(&self, k: GeometryStorageWallKey) -> Map<usize, usize> {
        assoc_view(self.side_wall_profile_to_geom_handle@, k)
    }

    pub fn new() -> (r: Self)
        ensures
            r.wf(),
            r.mesh_handles@.len() == 0,
            r.profiles@.len() == 0,
            r.vertical_indicator_to_geom_handle@.len() == 0,
            r.side_wall_profile_to_geom_handle@.len() == 0,
            r.wall_reverse_profiles@.len() == 0,
    {
        Self {
            mesh_handles: Vec::new(),
            profiles: Vec::new(),
            vertical_indicator_to_geom_handle: Vec::new(),
            side_wall_profile_to_geom_handle: Vec::new(),
            wall_reverse_profiles: Vec::new(),
        }
    }

    fn find_vertical(&self, key: GeometryStorageVerticalKey) -> (r: Option<usize>)
        requires
            assoc_wf(self.vertical_indicator_to_geom_handle@),
        ensures
            match r {
                Some(p) => p < self.vertical_indicator_to_geom_handle@.len()
                    && self.vertical_indicator_to_geom_handle@[p as int].0 == key,
                None => !assoc_has(self.vertical_indicator_to_geom_handle@, key),
            },
    {
        let mut i: usize = 0;
        while i < self.vertical_indicator_to_geom_handle.len()
            invariant
                i <= self.vertical_indicator_to_geom_handle@.len(),
                forall|j: int| 0 <= j < i ==> self.vertical_indicator_to_geom_handle@[j].0 != key,
            decreases self.vertical_indicator_to_geom_handle@.len() - i,
        {
            if self.vertical_indicator_to_geom_handle[i].0 == key {
                return Some(i);
            }
            i = i + 1;
        }
        None
    }

    fn find_wall(&self, key: GeometryStorageWallKey) -> (r: Option<usize>)
        requires
            assoc_wf(self.side_wall_profile_to_geom_handle@),
        ensures
            match r {
                Some(p) => p < self.side_wall_profile_to_geom_handle@.len()
                    && self.side_wall_profile_to_geom_handle@[p as int].0 == key,
                None => !assoc_has(self.side_wall_profile_to_geom_handle@, key),
            },
    {
        let mut i: usize = 0;
        while i < self.side_wall_profile_to_geom_handle.len()
            invariant
                i <= self.side_wall_profile_to_geom_handle@.len(),
                forall|j: int| 0 <= j < i ==> self.side_wall_profile_to_geom_handle@[j].0 != key,
            decreases self.side_wall_profile_to_geom_handle@.len() - i,
        {
            if self.side_wall_profile_to_geom_handle[i].0 == key {
                return Some(i);
            }
            i = i + 1;
        }
        None
    }

    /// The profile shown at `side` by `profile` placed in `orientation`.
    pub fn get_wall(&self, profile: &MeshProfile, side: usize, orientation: &GeomOrientation) -> (r: WallProfileIndex)
        requires
            oriented_wall_defined(self.wall_reverse_profiles@, profile.walls@, profile.sides as int, side as int, *orientation),
        ensures
            r == oriented_wall(self.wall_reverse_profiles@, profile.walls@, profile.sides as int, side as int, *orientation),
    {
        let wall = profile.walls[orientation.get_index_in_sequence(side, profile.sides, false)];
        if orientation.is_reversed() {
            self.wall_reverse_profiles[wall.index()]
        } else {
            wall
        }
    }

    /// Registers a piece of geometry: its mesh and profile are appended, and each
    /// orientation it may take is filed under its corner key and, for every side,
    /// under the profile it shows there.
    pub fn store(&mut self, profile: MeshProfile, top_descriptor: &Vec<VerticalProfile>, bottom_descriptor: &Vec<VerticalProfile>, mesh: Option<M>)
        requires
            old(self).wf(),
            forall|j: int| 0 <= j < profile.orientations@.len() ==> {
                &&& fits_in_mask(#[trigger] profile.orientations@[j])
                &&& indicator_defined(top_descriptor@.len() as int, profile.orientations@[j])
                &&& indicator_defined(bottom_descriptor@.len() as int, profile.orientations@[j])
            },
            forall|j: int, side: int| 0 <= j < profile.orientations@.len() && 0 <= side < profile.sides
                ==> #[trigger] oriented_wall_defined(old(self).wall_reverse_profiles@, profile.walls@, profile.sides as int, side, profile.orientations@[j]),
            forall|k: GeometryStorageVerticalKey| #[trigger] assoc_length(old(self).vertical_indicator_to_geom_handle@, k) + profile.orientations@.len() <= usize::MAX,
            forall|k: GeometryStorageWallKey| #[trigger] assoc_length(old(self).side_wall_profile_to_geom_handle@, k) + profile.orientations@.len() <= usize::MAX,
        ensures
            final(self).wf(),
            final(self).mesh_handles@ == old(self).mesh_handles@.push(mesh),
            final(self).profiles@ == old(self).profiles@.push(profile),
            final(self).wall_reverse_profiles@ == old(self).wall_reverse_profiles@,
            forall|k: GeometryStorageVerticalKey| #[trigger] final(self).vertical_view(k) == grown(
                old(self).vertical_view(k),
                old(self).mesh_handles@.len() as usize,
                vertical_touched(k, profile.sides, top_descriptor@, bottom_descriptor@, profile.orientations@, profile.orientations@.len() as int),
                vertical_added(k, profile.sides, top_descriptor@, bottom_descriptor@, profile.orientations@, profile.orientations@.len() as int),
            ),
            forall|k: GeometryStorageWallKey| #[trigger] final(self).wall_view(k) == grown(
                old(self).wall_view(k),
                old(self).mesh_handles@.len() as usize,
                wall_touched(k, old(self).wall_reverse_profiles@, profile, profile.orientations@.len() as int),
                wall_added(k, old(self).wall_reverse_profiles@, profile, profile.orientations@.len() as int),
            ),
            forall|k: GeometryStorageVerticalKey| #[trigger] assoc_length(final(self).vertical_indicator_to_geom_handle@, k)
                <= assoc_length(old(self).vertical_indicator_to_geom_handle@, k) + profile.orientations@.len(),
            forall|k: GeometryStorageWallKey| #[trigger] assoc_length(final(self).side_wall_profile_to_geom_handle@, k)
                <= assoc_length(old(self).side_wall_profile_to_geom_handle@, k) + profile.orientations@.len(),
    {
        let ghost old_v = self.vertical_indicator_to_geom_handle@;
        let ghost old_w = self.side_wall_profile_to_geom_handle@;
        let ghost old_profiles = self.profiles@;
        let ghost reverse = self.wall_reverse_profiles@;
        let ghost os = profile.orientations@;
        let ghost top_seq = top_descriptor@;
        let ghost bottom_seq = bottom_descriptor@;
        let index = self.mesh_handles.len();
        self.mesh_handles.push(mesh);
        let ghost meshes = self.mesh_handles@;
        let profile_side_count = profile.sides;
        let mut j: usize = 0;
        while j < profile.orientations.len()
            invariant
                self.wf(),
                j <= os.len(),
                os == profile.orientations@,
                top_seq == top_descriptor@,
                bottom_seq == bottom_descriptor@,
                reverse == self.wall_reverse_profiles@,
                meshes == self.mesh_handles@,
                old_profiles == self.profiles@,
                profile_side_count == profile.sides,
                forall|i: int| 0 <= i < os.len() ==> {
                    &&& fits_in_mask(#[trigger] os[i])
                    &&& indicator_defined(top_seq.len() as int, os[i])
                    &&& indicator_defined(bottom_seq.len() as int, os[i])
                },
                forall|i: int, side: int| 0 <= i < os.len() && 0 <= side < profile.sides
                    ==> #[trigger] oriented_wall_defined(reverse, profile.walls@, profile.sides as int, side, os[i]),
                forall|k: GeometryStorageVerticalKey| #[trigger] assoc_length(old_v, k) + os.len() <= usize::MAX,
                forall|k: GeometryStorageWallKey| #[trigger] assoc_length(old_w, k) + os.len() <= usize::MAX,
                forall|k: GeometryStorageVerticalKey| #[trigger] assoc_view(self.vertical_indicator_to_geom_handle@, k) == grown(
                    assoc_view(old_v, k), index,
                    vertical_touched(k, profile.sides, top_seq, bottom_seq, os, j as int),
                    vertical_added(k, profile.sides, top_seq, bottom_seq, os, j as int),
                ),
                forall|k: GeometryStorageWallKey| #[trigger] assoc_view(self.side_wall_profile_to_geom_handle@, k) == grown(
                    assoc_view(old_w, k), index,
                    wall_touched(k, reverse, profile, j as int),
                    wall_added(k, reverse, profile, j as int),
                ),
                forall|k: GeometryStorageVerticalKey| #[trigger] assoc_length(self.vertical_indicator_to_geom_handle@, k)
                    <= assoc_length(old_v, k) + j,
                forall|k: GeometryStorageWallKey| #[trigger] assoc_length(self.side_wall_profile_to_geom_handle@, k)
                    <= assoc_length(old_w, k) + j,
            decreases os.len() - j,
        {
            let orientation = profile.orientations[j];
            let handle = GeometryHandle { index, orientation };
            let top = VerticalProfile::compute_indicator(top_descriptor, orientation);
            let bottom = VerticalProfile::compute_indicator(bottom_descriptor, orientation);
            let key = GeometryStorageVerticalKey::new(profile_side_count, bottom, top);
            let pos = self.find_vertical(key);
            let ghost before_v = self.vertical_indicator_to_geom_handle@;
            proof {
                if let Some(p) = pos {
                    lemma_assoc_at(before_v, p as int, key);
                }
            }
            add_handle(&mut self.vertical_indicator_to_geom_handle, pos, key, handle, profile_side_count);
            let ghost after_v = self.vertical_indicator_to_geom_handle@;
            proof {
                assert forall|i: int| 0 <= i < after_v.len() implies (#[trigger] after_v[i]).1.spec_max_rotations()
                    == after_v[i].0.side_count by {
                    match pos {
                        Some(p) => {
                            assert(before_v[i].1.spec_max_rotations() == before_v[i].0.side_count);
                            if i == p as int {
                                assert(after_v[i].0 == before_v[i].0);
                            } else {
                                assert(after_v[i] == before_v[i]);
                            }
                        },
                        None => {
                            if i < before_v.len() {
                                assert(before_v[i].1.spec_max_rotations() == before_v[i].0.side_count);
                                assert(after_v[i] == before_v[i]);
                            } else {
                                assert(after_v[i] == after_v.last());
                            }
                        },
                    }
                }
                assert forall|k: GeometryStorageVerticalKey| #[trigger] assoc_view(after_v, k) == grown(
                    assoc_view(old_v, k), index,
                    vertical_touched(k, profile.sides, top_seq, bottom_seq, os, j + 1),
                    vertical_added(k, profile.sides, top_seq, bottom_seq, os, j + 1),
                ) && assoc_length(after_v, k) <= assoc_length(old_v, k) + j + 1 by {
                    let t = vertical_touched(k, profile.sides, top_seq, bottom_seq, os, j as int);
                    let a = vertical_added(k, profile.sides, top_seq, bottom_seq, os, j as int);
                    assert(assoc_view(before_v, k) == grown(assoc_view(old_v, k), index, t, a));
                    assert(assoc_length(before_v, k) <= assoc_length(old_v, k) + j);
                    lemma_vertical_untouched(k, profile.sides, top_seq, bottom_seq, os, j as int);
                    lemma_or_facts(0, a, orientation.spec_to_bits());
                    if k == key {
                        lemma_grown_step(assoc_view(old_v, k), index, t, a, orientation.spec_to_bits());
                    }
                }
            }
            let mut side: usize = 0;
            proof {
                assert forall|k: GeometryStorageWallKey| #[trigger] assoc_view(self.side_wall_profile_to_geom_handle@, k) == grown(
                    assoc_view(old_w, k), index,
                    wall_touched(k, reverse, profile, j as int) || wall_hit(k, reverse, profile, orientation, 0),
                    wall_added(k, reverse, profile, j as int) | if wall_hit(k, reverse, profile, orientation, 0) {
                        orientation.spec_to_bits()
                    } else {
                        0
                    },
                ) by {
                    lemma_or_facts(0, wall_added(k, reverse, profile, j as int), 0);
                }
            }
            while side < profile_side_count
                invariant
                    self.wf(),
                    self.vertical_indicator_to_geom_handle@ == after_v,
                    j < os.len(),
                    side <= profile.sides,
                    os == profile.orientations@,
                    orientation == os[j as int],
                    handle == (GeometryHandle { index, orientation }),
                    fits_in_mask(orientation),
                    reverse == self.wall_reverse_profiles@,
                    meshes == self.mesh_handles@,
                    old_profiles == self.profiles@,
                    profile_side_count == profile.sides,
                    forall|s: int| 0 <= s < profile.sides
                        ==> #[trigger] oriented_wall_defined(reverse, profile.walls@, profile.sides as int, s, orientation),
                    forall|k: GeometryStorageWallKey| #[trigger] assoc_length(old_w, k) + os.len() <= usize::MAX,
                    forall|k: GeometryStorageWallKey| #[trigger] assoc_view(self.side_wall_profile_to_geom_handle@, k) == grown(
                        assoc_view(old_w, k), index,
                        wall_touched(k, reverse, profile, j as int) || wall_hit(k, reverse, profile, orientation, side as int),
                        wall_added(k, reverse, profile, j as int) | if wall_hit(k, reverse, profile, orientation, side as int) {
                            orientation.spec_to_bits()
                        } else {
                            0
                        },
                    ),
                    forall|k: GeometryStorageWallKey| #[trigger] assoc_length(self.side_wall_profile_to_geom_handle@, k)
                        <= assoc_length(old_w, k) + j + if wall_hit(k, reverse, profile, orientation, side as int) { 1int } else { 0int },
                decreases profile.sides - side,
            {
                proof {
                    assert(oriented_wall_defined(reverse, profile.walls@, profile.sides as int, side as int, orientation));
                }
                let wall_profile_index = self.get_wall(&profile, side, &orientation);
                let wall_key = GeometryStorageWallKey::new(profile_side_count, side, wall_profile_index);
                let pos = self.find_wall(wall_key);
                let ghost before_w = self.side_wall_profile_to_geom_handle@;
                proof {
                    if let Some(p) = pos {
                        lemma_assoc_at(before_w, p as int, wall_key);
                    }
                    assert(!wall_hit(wall_key, reverse, profile, orientation, side as int));
                    assert(assoc_length(before_w, wall_key) <= assoc_length(old_w, wall_key) + j);
                }
                add_handle(&mut self.side_wall_profile_to_geom_handle, pos, wall_key, handle, profile_side_count);
                side = side + 1;
                proof {
                    let after_w = self.side_wall_profile_to_geom_handle@;
                    assert forall|i: int| 0 <= i < after_w.len() implies (#[trigger] after_w[i]).1.spec_max_rotations()
                        == after_w[i].0.side_count by {
                        match pos {
                            Some(p) => {
                                assert(before_w[i].1.spec_max_rotations() == before_w[i].0.side_count);
                                if i == p as int {
                                    assert(after_w[i].0 == before_w[i].0);
                                } else {
                                    assert(after_w[i] == before_w[i]);
                                }
                            },
                            None => {
                                if i < before_w.len() {
                                    assert(before_w[i].1.spec_max_rotations() == before_w[i].0.side_count);
                                    assert(after_w[i] == before_w[i]);
                                } else {
                                    assert(after_w[i] == after_w.last());
                                }
                            },
                        }
                    }
                    assert forall|k: GeometryStorageWallKey| #[trigger] assoc_view(after_w, k) == grown(
                        assoc_view(old_w, k), index,
                        wall_touched(k, reverse, profile, j as int) || wall_hit(k, reverse, profile, orientation, side as int),
                        wall_added(k, reverse, profile, j as int) | if wall_hit(k, reverse, profile, orientation, side as int) {
                            orientation.spec_to_bits()
                        } else {
                            0
                        },
                    ) && assoc_length(after_w, k) <= assoc_length(old_w, k) + j
                        + if wall_hit(k, reverse, profile, orientation, side as int) { 1int } else { 0int } by {
                        let t = wall_touched(k, reverse, profile, j as int);
                        let a = wall_added(k, reverse, profile, j as int);
                        let hit_before = wall_hit(k, reverse, profile, orientation, side - 1);
                        assert(assoc_view(before_w, k) == grown(assoc_view(old_w, k), index, t || hit_before,
                            a | if hit_before { orientation.spec_to_bits() } else { 0 }));
                        assert(assoc_length(before_w, k) <= assoc_length(old_w, k) + j + if hit_before { 1int } else { 0int });
                        lemma_wall_untouched(k, reverse, profile, j as int);
                        lemma_or_facts(0, a, orientation.spec_to_bits());
                        if k == wall_key {
                            lemma_grown_step(assoc_view(old_w, k), index, t, a, orientation.spec_to_bits());
                        }
                    }
                }
            }
            j = j + 1;
            proof {
                assert forall|k: GeometryStorageWallKey| #[trigger] assoc_view(self.side_wall_profile_to_geom_handle@, k) == grown(
                    assoc_view(old_w, k), index,
                    wall_touched(k, reverse, profile, j as int),
                    wall_added(k, reverse, profile, j as int),
                ) by {
                    lemma_or_facts(0, wall_added(k, reverse, profile, j - 1), 0);
                }
            }
        }
        self.profiles.push(profile);
    }

    /// The union of the sets of geometry showing, at `side`, one of the profiles
    /// whose bits are set in `wall_bits`.
    pub fn get_wall_union(&self, side_count: usize, side: usize, wall_bits: u128) -> (r: GeometryHandleSet)
        requires
            self.wf(),
            wall_union_length(self.side_wall_profile_to_geom_handle@, side_count, side, wall_indices_in_bits(wall_bits)) <= usize::MAX,
        ensures
            r.wf(),
            r@ == union_map(wall_union_views(self.side_wall_profile_to_geom_handle@, side_count, side, wall_indices_in_bits(wall_bits))),
            r.spec_max_rotations() == if wall_union_views(self.side_wall_profile_to_geom_handle@, side_count, side, wall_indices_in_bits(wall_bits)).len() == 0 {
                0
            } else {
                side_count
            },
    {
        let ghost list = self.side_wall_profile_to_geom_handle@;
        let profiles = WallProfileIndex::from_bits(wall_bits);
        let mut found: Vec<&GeometryHandleSet> = Vec::new();
        let mut i: usize = 0;
        while i < profiles.len()
            invariant
                self.wf(),
                list == self.side_wall_profile_to_geom_handle@,
                profiles@ == wall_indices_in_bits(wall_bits),
                i <= profiles@.len(),
                wall_union_length(list, side_count, side, profiles@) <= usize::MAX,
                all_wf(found@),
                set_views(found@) == wall_union_views(list, side_count, side, profiles@.subrange(0, i as int)),
                total_length(found@, found@.len() as int) == wall_union_length(list, side_count, side, profiles@.subrange(0, i as int)),
                max_rotations_of(found@, found@.len() as int) == if found@.len() == 0 { 0 } else { side_count },
            decreases profiles@.len() - i,
        {
            let key = GeometryStorageWallKey::new(side_count, side, profiles[i]);
            let ghost before = found@;
            let ghost prefix = profiles@.subrange(0, i as int);
            match self.find_wall(key) {
                Some(p) => {
                    proof {
                        lemma_assoc_at(list, p as int, key);
                    }
                    found.push(&self.side_wall_profile_to_geom_handle[p].1);
                    proof {
                        assert(set_views(found@) =~= set_views(before).push(assoc_view(list, key)));
                        assert(found@.drop_last() == before);
                        assert(list[p as int].1.spec_max_rotations() == list[p as int].0.side_count);
                    }
                },
                None => {},
            }
            i = i + 1;
            proof {
                let sub = profiles@.subrange(0, i as int);
                assert(sub.drop_last() == prefix);
                assert(sub.last() == profiles@[i - 1]);
                if found@.len() > before.len() {
                    assert(total_length(found@, found@.len() as int) == total_length(before, before.len() as int) + found@.last().spec_length()) by {
                        assert(found@.drop_last() == before);
                        lemma_total_length_prefix(found@, before);
                    }
                    lemma_max_rotations_prefix(found@, before);
                }
                lemma_wall_union_length_prefix(list, side_count, side, profiles@, i as int);
            }
        }
        proof {
            assert(profiles@.subrange(0, i as int) == profiles@);
        }
        GeometryHandleSet::union(found.as_slice())
    }

    /// For each side, the mask of the profiles that the handles of `set` show there.
    pub fn get_walls_in_set(&self, set: &GeometryHandleSet) -> (r: Vec<u128>)
        requires
            set.wf(),
            set.spec_max_rotations() <= usize::BITS,
            walls_known(self.wall_reverse_profiles@, self.profiles@, handles_of(set.spec_entries(), set.spec_max_rotations()), set.spec_max_rotations() as int),
        ensures
            r@.len() == set.spec_max_rotations(),
            forall|side: int| 0 <= side < r@.len() ==> #[trigger] r@[side] == walls_mask(
                self.wall_reverse_profiles@,
                self.profiles@,
                handles_of(set.spec_entries(), set.spec_max_rotations()),
                side,
                handles_of(set.spec_entries(), set.spec_max_rotations()).len() as int,
            ),
    {
        let sides = set.get_max_rotations();
        let mut walls: Vec<u128> = Vec::new();
        let mut k: usize = 0;
        while k < sides
            invariant
                k <= sides,
                walls@.len() == k,
                forall|side: int| 0 <= side < k ==> walls@[side] == 0,
            decreases sides - k,
        {
            walls.push(0);
            k = k + 1;
        }
        let handles = set.handles();
        let ghost hs = handles@;
        let mut i: usize = 0;
        while i < handles.len()
            invariant
                hs == handles@,
                hs == handles_of(set.spec_entries(), set.spec_max_rotations()),
                sides == set.spec_max_rotations(),
                walls_known(self.wall_reverse_profiles@, self.profiles@, hs, sides as int),
                i <= hs.len(),
                walls@.len() == sides,
                forall|side: int| 0 <= side < sides ==> #[trigger] walls@[side] == walls_mask(
                    self.wall_reverse_profiles@, self.profiles@, hs, side, i as int),
            decreases hs.len() - i,
        {
            let handle = handles[i];
            if handle.index < self.profiles.len() {
                let profile = &self.profiles[handle.index];
                let ghost before = walls@;
                let mut side: usize = 0;
                while side < walls.len()
                    invariant
                        hs == handles@,
                        0 <= i < hs.len(),
                        handle == hs[i as int],
                        handle.index < self.profiles@.len(),
                        *profile == self.profiles@[handle.index as int],
                        walls_known(self.wall_reverse_profiles@, self.profiles@, hs, sides as int),
                        side <= walls@.len(),
                        walls@.len() == sides,
                        before.len() == sides,
                        forall|s: int| 0 <= s < sides ==> #[trigger] before[s] == walls_mask(
                            self.wall_reverse_profiles@, self.profiles@, hs, s, i as int),
                        forall|s: int| side <= s < sides ==> walls@[s] == before[s],
                        forall|s: int| 0 <= s < side ==> #[trigger] walls@[s] == walls_mask(
                            self.wall_reverse_profiles@, self.profiles@, hs, s, i + 1),
                    decreases sides - side,
                {
                    proof {
                        assert(handle_side_known(self.wall_reverse_profiles@, self.profiles@, hs[i as int], side as int));
                    }
                    let wall_in_mesh = handle.orientation.get_index_in_sequence(side, profile.sides, false);
                    let mut wall_profile_index = profile.walls[wall_in_mesh];
                    if handle.orientation.is_reversed() {
                        wall_profile_index = self.wall_reverse_profiles[wall_profile_index.index()];
                    }
                    let updated = walls[side] | wall_profile_index.to_bits();
                    walls.set(side, updated);
                    proof {
                        assert(wall_profile_index == oriented_wall(self.wall_reverse_profiles@, profile.walls@, profile.sides as int, side as int, handle.orientation));
                        assert(before[side as int] == walls_mask(self.wall_reverse_profiles@, self.profiles@, hs, side as int, i as int));
                        assert(walls@[side as int] == walls_mask(self.wall_reverse_profiles@, self.profiles@, hs, side as int, i + 1));
                    }
                    side = side + 1;
                }
            } else {
                proof {
                    assert forall|s: int| 0 <= s < sides implies #[trigger] walls@[s] == walls_mask(
                        self.wall_reverse_profiles@, self.profiles@, hs, s, i + 1) by {
                    }
                }
            }
            i = i + 1;
        }
        walls
    }

    /// The geometry whose corners match the given indicators, as a new set.
    pub fn get_vertical_matching(&self, side_count: usize, bottom: usize, top: usize) -> (r: GeometryHandleSet)
        requires
            self.wf(),
        ensures
            r.wf(),
            r@ == self.vertical_view(GeometryStorageVerticalKey { side_count, bottom_profile: bottom, top_profile: top }),
            r.spec_max_rotations() == side_count,
    {
        let key = GeometryStorageVerticalKey::new(side_count, bottom, top);
        match self.find_vertical(key) {
            Some(p) => {
                proof {
                    lemma_assoc_at(self.vertical_indicator_to_geom_handle@, p as int, key);
                }
                self.vertical_indicator_to_geom_handle[p].1.clone()
            },
            None => GeometryHandleSet::new(side_count),
        }
    }
}

/// Marks the geometry shown while debugging a cell.
pub struct DebugGeomDisplay;

/// The bottom pattern, side labels, top pattern and orientations of each piece of
/// geometry for square tiles, in the order `get_rect_profiles` lists them.
pub open spec fn rect_table() -> Seq<ObjectProfileView> {
    seq![
        (parsed_pattern("ffff"@), seq!["bottom"@, "bottom"@, "bottom"@, "bottom"@], parsed_pattern("eeee"@), identity_turn()),
        (parsed_pattern("ssss"@), seq!["top"@, "top"@, "top"@, "top"@], parsed_pattern("ffff"@), identity_turn()),
        (parsed_pattern("ffss"@), seq!["bottom"@, "ramp"@, "top"@, "pmar"@], parsed_pattern("eeff"@), four_turns()),
        (parsed_pattern("fffs"@), seq!["bottom"@, "bottom"@, "wall"@, "pmar"@], parsed_pattern("eeef"@), eight_orientations()),
        (parsed_pattern("fffs"@), seq!["bottom"@, "bottom"@, "wall"@, "pmar"@, "2"@], parsed_pattern("eeef"@), eight_orientations()),
        (parsed_pattern("fees"@), seq!["bottom"@, "empty"@, "wall"@, "pmar"@], parsed_pattern("eeef"@), eight_orientations()),
        (parsed_pattern("fees"@), seq!["bottom"@, "empty"@, "top"@, "pmar"@], parsed_pattern("eeef"@), eight_orientations()),
        (parsed_pattern("fffs"@), seq!["bottom"@, "bottom"@, "wall"@, "llaw"@], parsed_pattern("eeef"@), four_turns()),
        (parsed_pattern("fffs"@), seq!["bottom"@, "bottom"@, "wall"@, "llaw"@], parsed_pattern("eees"@), four_turns()),
        (parsed_pattern("eees"@), seq!["empty"@, "empty"@, "wall"@, "llaw"@], parsed_pattern("eeef"@), four_turns()),
        (parsed_pattern("eees"@), seq!["empty"@, "empty"@, "wall"@, "llaw"@], parsed_pattern("eees"@), four_turns()),
        (parsed_pattern("ffss"@), seq!["bottom"@, "wall"@, "top"@, "llaw"@], parsed_pattern("eeff"@), four_turns()),
        (parsed_pattern("ffss"@), seq!["bottom"@, "wall"@, "empty"@, "llaw"@], parsed_pattern("eess"@), four_turns()),
        (parsed_pattern("eess"@), seq!["empty"@, "wall"@, "top"@, "llaw"@], parsed_pattern("eeff"@), four_turns()),
        (parsed_pattern("eess"@), seq!["empty"@, "wall"@, "empty"@, "llaw"@], parsed_pattern("eess"@), four_turns()),
        (parsed_pattern("fsfs"@), seq!["wall"@, "llaw"@, "wall"@, "llaw"@], parsed_pattern("efef"@), two_turns()),
        (parsed_pattern("eses"@), seq!["wall"@, "llaw"@, "wall"@, "llaw"@], parsed_pattern("efef"@), two_turns()),
        (parsed_pattern("esfs"@), seq!["wall"@, "llaw"@, "wall"@, "llaw"@], parsed_pattern("efef"@), four_turns()),
        (parsed_pattern("fsfs"@), seq!["wall"@, "llaw"@, "wall"@, "llaw"@], parsed_pattern("eses"@), two_turns()),
        (parsed_pattern("esfs"@), seq!["wall"@, "llaw"@, "wall"@, "llaw"@], parsed_pattern("eses"@), four_turns()),
        (parsed_pattern("eses"@), seq!["wall"@, "llaw"@, "wall"@, "llaw"@], parsed_pattern("eses"@), two_turns()),
        (parsed_pattern("fsss"@), seq!["wall"@, "top"@, "top"@, "llaw"@], parsed_pattern("efff"@), four_turns()),
        (parsed_pattern("esss"@), seq!["wall"@, "top"@, "top"@, "llaw"@], parsed_pattern("efff"@), four_turns()),
        (parsed_pattern("fsss"@), seq!["wall"@, "empty"@, "empty"@, "llaw"@], parsed_pattern("esss"@), four_turns()),
        (parsed_pattern("esss"@), seq!["wall"@, "empty"@, "empty"@, "llaw"@], parsed_pattern("esss"@), four_turns()),
    ]
}
pub fn get_rect_profiles() -> (r: Vec<ObjectProfile>)
    ensures
        objects_view(r@) == rect_table(),
{
    let mut profiles: Vec<ObjectProfile> = Vec::new();
    proof {
        assert(objects_view(profiles@) =~= rect_table().take(0));
    }
    // Flats
    proof {
        reveal_strlit("eeee");
        reveal_strlit("ffff");
    }
    let profile = ObjectProfile::new(String::from_str("ffff"), vec!["bottom", "bottom", "bottom", "bottom"], String::from_str("eeee")).unwrap();
    proof {
        assert(object_view(profile) =~~= rect_table()[0]);
    }
    push_rect_profile(&mut profiles, profile);
    proof {
        reveal_strlit("ffff");
        reveal_strlit("ssss");
    }
    let profile = ObjectProfile::new(String::from_str("ssss"), vec!["top", "top", "top", "top"], String::from_str("ffff")).unwrap();
    proof {
        assert(object_view(profile) =~~= rect_table()[1]);
    }
    push_rect_profile(&mut profiles, profile);
    // Ramps
    proof {
        reveal_strlit("eeff");
        reveal_strlit("ffss");
    }
    let profile = ObjectProfile::new(String::from_str("ffss"), vec!["bottom", "ramp", "top", "pmar"], String::from_str("eeff")).unwrap()
        .with_transforms(vec![Standard { rotations: 0 }, Standard { rotations: 1 }, Standard { rotations: 2 }, Standard { rotations: 3 }]);
    proof {
        assert(object_view(profile) =~~= rect_table()[2]);
    }
    push_rect_profile(&mut profiles, profile);
    proof {
        reveal_strlit("eeef");
        reveal_strlit("fffs");
    }
    let profile = ObjectProfile::new(String::from_str("fffs"), vec!["bottom", "bottom", "wall", "pmar"], String::from_str("eeef")).unwrap()
        .with_transforms(vec![Standard { rotations: 0 }, Standard { rotations: 1 }, Standard { rotations: 2 }, Standard { rotations: 3 }, Flipped { rotations: 0 }, Flipped { rotations: 1 }, Flipped { rotations: 2 }, Flipped { rotations: 3 }]);
    proof {
        assert(object_view(profile) =~~= rect_table()[3]);
    }
    push_rect_profile(&mut profiles, profile);
    proof {
        reveal_strlit("eeef");
        reveal_strlit("fffs");
    }
    let profile = ObjectProfile::new(String::from_str("fffs"), vec!["bottom", "bottom", "wall", "pmar", "2"], String::from_str("eeef")).unwrap()
        .with_transforms(vec![Standard { rotations: 0 }, Standard { rotations: 1 }, Standard { rotations: 2 }, Standard { rotations: 3 }, Flipped { rotations: 0 }, Flipped { rotations: 1 }, Flipped { rotations: 2 }, Flipped { rotations: 3 }]);
    proof {
        assert(object_view(profile) =~~= rect_table()[4]);
    }
    push_rect_profile(&mut profiles, profile);
    proof {
        reveal_strlit("eeef");
        reveal_strlit("fees");
    }
    let profile = ObjectProfile::new(String::from_str("fees"), vec!["bottom", "empty", "wall", "pmar"], String::from_str("eeef")).unwrap()
        .with_transforms(vec![Standard { rotations: 0 }, Standard { rotations: 1 }, Standard { rotations: 2 }, Standard { rotations: 3 }, Flipped { rotations: 0 }, Flipped { rotations: 1 }, Flipped { rotations: 2 }, Flipped { rotations: 3 }]);
    proof {
        assert(object_view(profile) =~~= rect_table()[5]);
    }
    push_rect_profile(&mut profiles, profile);
    proof {
        reveal_strlit("eeef");
        reveal_strlit("fees");
    }
    let profile = ObjectProfile::new(String::from_str("fees"), vec!["bottom", "empty", "top", "pmar"], String::from_str("eeef")).unwrap()
        .with_transforms(vec![Standard { rotations: 0 }, Standard { rotations: 1 }, Standard { rotations: 2 }, Standard { rotations: 3 }, Flipped { rotations: 0 }, Flipped { rotations: 1 }, Flipped { rotations: 2 }, Flipped { rotations: 3 }]);
    proof {
        assert(object_view(profile) =~~= rect_table()[6]);
    }
    push_rect_profile(&mut profiles, profile);
    // Corner pillars
    proof {
        reveal_strlit("eeef");
        reveal_strlit("fffs");
    }
    let profile = ObjectProfile::new(String::from_str("fffs"), vec!["bottom", "bottom", "wall", "llaw"], String::from_str("eeef")).unwrap()
        .with_transforms(vec![Standard { rotations: 0 }, Standard { rotations: 1 }, Standard { rotations: 2 }, Standard { rotations: 3 }]);
    proof {
        assert(object_view(profile) =~~= rect_table()[7]);
    }
    push_rect_profile(&mut profiles, profile);
    proof {
        reveal_strlit("eees");
        reveal_strlit("fffs");
    }
    let profile = ObjectProfile::new(String::from_str("fffs"), vec!["bottom", "bottom", "wall", "llaw"], String::from_str("eees")).unwrap()
        .with_transforms(vec![Standard { rotations: 0 }, Standard { rotations: 1 }, Standard { rotations: 2 }, Standard { rotations: 3 }]);
    proof {
        assert(object_view(profile) =~~= rect_table()[8]);
    }
    push_rect_profile(&mut profiles, profile);
    proof {
        reveal_strlit("eeef");
        reveal_strlit("eees");
    }
    let profile = ObjectProfile::new(String::from_str("eees"), vec!["empty", "empty", "wall", "llaw"], String::from_str("eeef")).unwrap()
        .with_transforms(vec![Standard { rotations: 0 }, Standard { rotations: 1 }, Standard { rotations: 2 }, Standard { rotations: 3 }]);
    proof {
        assert(object_view(profile) =~~= rect_table()[9]);
    }
    push_rect_profile(&mut profiles, profile);
    proof {
        reveal_strlit("eees");
    }
    let profile = ObjectProfile::new(String::from_str("eees"), vec!["empty", "empty", "wall", "llaw"], String::from_str("eees")).unwrap()
        .with_transforms(vec![Standard { rotations: 0 }, Standard { rotations: 1 }, Standard { rotations: 2 }, Standard { rotations: 3 }]);
    proof {
        assert(object_view(profile) =~~= rect_table()[10]);
    }
    push_rect_profile(&mut profiles, profile);
    // Center hard raises
    proof {
        reveal_strlit("eeff");
        reveal_strlit("ffss");
    }
    let profile = ObjectProfile::new(String::from_str("ffss"), vec!["bottom", "wall", "top", "llaw"], String::from_str("eeff")).unwrap()
        .with_transforms(vec![Standard { rotations: 0 }, Standard { rotations: 1 }, Standard { rotations: 2 }, Standard { rotations: 3 }]);
    proof {
        assert(object_view(profile) =~~= rect_table()[11]);
    }
    push_rect_profile(&mut profiles, profile);
    proof {
        reveal_strlit("eess");
        reveal_strlit("ffss");
    }
    let profile = ObjectProfile::new(String::from_str("ffss"), vec!["bottom", "wall", "empty", "llaw"], String::from_str("eess")).unwrap()
        .with_transforms(vec![Standard { rotations: 0 }, Standard { rotations: 1 }, Standard { rotations: 2 }, Standard { rotations: 3 }]);
    proof {
        assert(object_view(profile) =~~= rect_table()[12]);
    }
    push_rect_profile(&mut profiles, profile);
    proof {
        reveal_strlit("eeff");
        reveal_strlit("eess");
    }
    let profile = ObjectProfile::new(String::from_str("eess"), vec!["empty", "wall", "top", "llaw"], String::from_str("eeff")).unwrap()
        .with_transforms(vec![Standard { rotations: 0 }, Standard { rotations: 1 }, Standard { rotations: 2 }, Standard { rotations: 3 }]);
    proof {
        assert(object_view(profile) =~~= rect_table()[13]);
    }
    push_rect_profile(&mut profiles, profile);
    proof {
        reveal_strlit("eess");
    }
    let profile = ObjectProfile::new(String::from_str("eess"), vec!["empty", "wall", "empty", "llaw"], String::from_str("eess")).unwrap()
        .with_transforms(vec![Standard { rotations: 0 }, Standard { rotations: 1 }, Standard { rotations: 2 }, Standard { rotations: 3 }]);
    proof {
        assert(object_view(profile) =~~= rect_table()[14]);
    }
    push_rect_profile(&mut profiles, profile);
    // Horizontal bars
    proof {
        reveal_strlit("efef");
        reveal_strlit("fsfs");
    }
    let profile = ObjectProfile::new(String::from_str("fsfs"), vec!["wall", "llaw", "wall", "llaw"], String::from_str("efef")).unwrap()
        .with_transforms(vec![Standard { rotations: 0 }, Standard { rotations: 1 }]);
    proof {
        assert(object_view(profile) =~~= rect_table()[15]);
    }
    push_rect_profile(&mut profiles, profile);
    proof {
        reveal_strlit("efef");
        reveal_strlit("eses");
    }
    let profile = ObjectProfile::new(String::from_str("eses"), vec!["wall", "llaw", "wall", "llaw"], String::from_str("efef")).unwrap()
        .with_transforms(vec![Standard { rotations: 0 }, Standard { rotations: 1 }]);
    proof {
        assert(object_view(profile) =~~= rect_table()[16]);
    }
    push_rect_profile(&mut profiles, profile);
    proof {
        reveal_strlit("efef");
        reveal_strlit("esfs");
    }
    let profile = ObjectProfile::new(String::from_str("esfs"), vec!["wall", "llaw", "wall", "llaw"], String::from_str("efef")).unwrap()
        .with_transforms(vec![Standard { rotations: 0 }, Standard { rotations: 1 }, Standard { rotations: 2 }, Standard { rotations: 3 }]);
    proof {
        assert(object_view(profile) =~~= rect_table()[17]);
    }
    push_rect_profile(&mut profiles, profile);
    proof {
        reveal_strlit("eses");
        reveal_strlit("fsfs");
    }
    let profile = ObjectProfile::new(String::from_str("fsfs"), vec!["wall", "llaw", "wall", "llaw"], String::from_str("eses")).unwrap()
        .with_transforms(vec![Standard { rotations: 0 }, Standard { rotations: 1 }]);
    proof {
        assert(object_view(profile) =~~= rect_table()[18]);
    }
    push_rect_profile(&mut profiles, profile);
    proof {
        reveal_strlit("eses");
        reveal_strlit("esfs");
    }
    let profile = ObjectProfile::new(String::from_str("esfs"), vec!["wall", "llaw", "wall", "llaw"], String::from_str("eses")).unwrap()
        .with_transforms(vec![Standard { rotations: 0 }, Standard { rotations: 1 }, Standard { rotations: 2 }, Standard { rotations: 3 }]);
    proof {
        assert(object_view(profile) =~~= rect_table()[19]);
    }
    push_rect_profile(&mut profiles, profile);
    proof {
        reveal_strlit("eses");
    }
    let profile = ObjectProfile::new(String::from_str("eses"), vec!["wall", "llaw", "wall", "llaw"], String::from_str("eses")).unwrap()
        .with_transforms(vec![Standard { rotations: 0 }, Standard { rotations: 1 }]);
    proof {
        assert(object_view(profile) =~~= rect_table()[20]);
    }
    push_rect_profile(&mut profiles, profile);
    // Cut out corner
    proof {
        reveal_strlit("efff");
        reveal_strlit("fsss");
    }
    let profile = ObjectProfile::new(String::from_str("fsss"), vec!["wall", "top", "top", "llaw"], String::from_str("efff")).unwrap()
        .with_transforms(vec![Standard { rotations: 0 }, Standard { rotations: 1 }, Standard { rotations: 2 }, Standard { rotations: 3 }]);
    proof {
        assert(object_view(profile) =~~= rect_table()[21]);
    }
    push_rect_profile(&mut profiles, profile);
    proof {
        reveal_strlit("efff");
        reveal_strlit("esss");
    }
    let profile = ObjectProfile::new(String::from_str("esss"), vec!["wall", "top", "top", "llaw"], String::from_str("efff")).unwrap()
        .with_transforms(vec![Standard { rotations: 0 }, Standard { rotations: 1 }, Standard { rotations: 2 }, Standard { rotations: 3 }]);
    proof {
        assert(object_view(profile) =~~= rect_table()[22]);
    }
    push_rect_profile(&mut profiles, profile);
    proof {
        reveal_strlit("esss");
        reveal_strlit("fsss");
    }
    let profile = ObjectProfile::new(String::from_str("fsss"), vec!["wall", "empty", "empty", "llaw"], String::from_str("esss")).unwrap()
        .with_transforms(vec![Standard { rotations: 0 }, Standard { rotations: 1 }, Standard { rotations: 2 }, Standard { rotations: 3 }]);
    proof {
        assert(object_view(profile) =~~= rect_table()[23]);
    }
    push_rect_profile(&mut profiles, profile);
    proof {
        reveal_strlit("esss");
    }
    let profile = ObjectProfile::new(String::from_str("esss"), vec!["wall", "empty", "empty", "llaw"], String::from_str("esss")).unwrap()
        .with_transforms(vec![Standard { rotations: 0 }, Standard { rotations: 1 }, Standard { rotations: 2 }, Standard { rotations: 3 }]);
    proof {
        assert(object_view(profile) =~~= rect_table()[24]);
    }
    push_rect_profile(&mut profiles, profile);
    proof {
        assert(rect_table().take(25) == rect_table());
    }
    profiles
}

} // verus!
