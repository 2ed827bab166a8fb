use vstd::prelude::*;

use super::orientations::{index_in_sequence, index_in_sequence_defined, GeomOrientation};
use super::vertical::{indicator_defined, indicator_of, labels_text, parsed_pattern, valid_pattern, VerticalProfile};
use super::walls::{wall_label, wall_reverse, WallProfile};

verus! {

/// A piece of geometry described by its faces: the vertical profiles of its bottom
/// and top corners, the profile of each side, and the orientations it may take.
pub struct SocketProfile {
    pub bottom: Vec<VerticalProfile>,
    pub walls: Vec<WallProfile>,
    pub top: Vec<VerticalProfile>,
    pub transforms: Vec<GeomOrientation>,
}

#[derive(Clone, Copy, PartialEq, Eq, Debug, Structural)]
pub enum SocketProfileCreationError {
    MimatchedCount,
    InvalidVerticalPattern,
}

/// The labels of the sides, each followed by `_`.
pub open spec fn walls_text(walls: Seq<WallProfile>) -> Seq<char>
    decreases walls.len(),
{
    if walls.len() == 0 {
        Seq::empty()
    } else {
        walls_text(walls.drop_last()) + wall_label(walls.last()) + "_"@
    }
}

/// The resource name of a piece of geometry:
/// `rect/<bottom labels>_<side label>_..._<top labels>.obj`.
pub open spec fn resource_text(bottom: Seq<VerticalProfile>, walls: Seq<WallProfile>, top: Seq<VerticalProfile>) -> Seq<char> {
    "rect/"@ + labels_text(bottom) + "_"@ + walls_text(walls) + labels_text(top) + ".obj"@
}

/// The profile of side `side` once the geometry takes `transform`, seen from
/// outside: a mirrored piece shows the reverse of its side profile.
pub open spec fn transformed_wall(walls: Seq<WallProfile>, side: int, transform: GeomOrientation) -> WallProfile {
    let profile = walls[index_in_sequence(transform, side, walls.len() as int, false)];
    if transform.spec_is_reversed() {
        wall_reverse(profile)
    } else {
        profile
    }
}

impl SocketProfile {
    /// A profile from its bottom pattern, side profiles and top pattern, in the
    /// identity orientation only.
    pub fn new(bottom_pattern: String, walls: Vec<WallProfile>, top_pattern: String) -> (r: Result<Self, SocketProfileCreationError>)
        ensures
            match r {
                Ok(p) => {
                    &&& valid_pattern(bottom_pattern@)
                    &&& valid_pattern(top_pattern@)
                    &&& bottom_pattern@.len() == top_pattern@.len()
                    &&& bottom_pattern@.len() == walls@.len()
                    &&& p.bottom@ == parsed_pattern(bottom_pattern@)
                    &&& p.top@ == parsed_pattern(top_pattern@)
                    &&& p.walls@ == walls@
                    &&& p.transforms@ == seq![GeomOrientation::Standard { rotations: 0 }]
                },
                Err(e) => if !valid_pattern(bottom_pattern@) || !valid_pattern(top_pattern@) {
                    e == SocketProfileCreationError::InvalidVerticalPattern
                } else {
                    &&& e == SocketProfileCreationError::MimatchedCount
                    &&& !(bottom_pattern@.len() == top_pattern@.len() && bottom_pattern@.len() == walls@.len())
                },
            },
    {
        let ghost bottom_text = bottom_pattern@;
        let ghost top_text = top_pattern@;
        let bottom = match VerticalProfile::parse_from(bottom_pattern) {
            Ok(v) => v,
            Err(_) => return Err(SocketProfileCreationError::InvalidVerticalPattern),
        };
        let top = match VerticalProfile::parse_from(top_pattern) {
            Ok(v) => v,
            Err(_) => return Err(SocketProfileCreationError::InvalidVerticalPattern),
        };
        if bottom.len() != top.len() || bottom.len() != walls.len() {
            return Err(SocketProfileCreationError::MimatchedCount);
        }
        Ok(Self { bottom, walls, top, transforms: vec![GeomOrientation::Standard { rotations: 0 }] })
    }

    pub fn with_transforms(self, transforms: Vec<GeomOrientation>) -> (r: Self)
        ensures
            r.bottom == self.bottom,
            r.walls == self.walls,
            r.top == self.top,
            r.transforms == transforms,
    {
        Self { transforms, ..self }
    }

    pub fn get_side_count(&self) -> (r: usize)
        ensures
            r == self.walls@.len(),
    {
        self.walls.len()
    }

    pub fn get_resource_location(&self) -> (r: String)
        ensures
            r@ == resource_text(self.bottom@, self.walls@, self.top@),
    {
        let mut name = String::new();
        name.append("rect/");
        name.append(VerticalProfile::label_string(&self.bottom).as_str());
        name.append("_");
        let ghost prefix = name@;
        let mut i: usize = 0;
        while i < self.walls.len()
            invariant
                i <= self.walls@.len(),
                name@ == prefix + walls_text(self.walls@.subrange(0, i as int)),
            decreases self.walls@.len() - i,
        {
            name.append(self.walls[i].label());
            name.append("_");
            i = i + 1;
            proof {
                let sub = self.walls@.subrange(0, i as int);
                assert(sub.drop_last() == self.walls@.subrange(0, i - 1));
            }
        }
        proof {
            assert(self.walls@.subrange(0, i as int) == self.walls@);
        }
        name.append(VerticalProfile::label_string(&self.top).as_str());
        name.append(".obj");
        name
    }

    /// The profile of the side that lands at `side` under `transform`.
    pub fn get_wall(&self, side: usize, transform: GeomOrientation) -> (r: WallProfile)
        requires
            index_in_sequence_defined(transform, side as int, self.walls@.len() as int, false),
        ensures
            r == self.walls@[index_in_sequence(transform, side as int, self.walls@.len() as int, false)],
    {
        self.walls[transform.get_index_in_sequence(side, self.walls.len(), false)]
    }

    /// For each orientation, the bottom and top indicators in that orientation.
    pub fn get_vertical_indicator_transform_triples(&self) -> (r: Vec<(usize, usize, GeomOrientation)>)
        requires
            forall|k: int| 0 <= k < self.transforms@.len() ==> {
                &&& indicator_defined(self.bottom@.len() as int, #[trigger] self.transforms@[k])
                &&& indicator_defined(self.top@.len() as int, self.transforms@[k])
            },
        ensures
            r@.len() == self.transforms@.len(),
            forall|k: int| 0 <= k < r@.len() ==> #[trigger] r@[k] == (
                indicator_of(self.bottom@, self.transforms@[k], self.bottom@.len() as int),
                indicator_of(self.top@, self.transforms@[k], self.top@.len() as int),
                self.transforms@[k],
            ),
    {
        let mut out: Vec<(usize, usize, GeomOrientation)> = Vec::new();
        let mut k: usize = 0;
        while k < self.transforms.len()
            invariant
                k <= self.transforms@.len(),
                out@.len() == k,
                forall|j: int| 0 <= j < self.transforms@.len() ==> {
                    &&& indicator_defined(self.bottom@.len() as int, #[trigger] self.transforms@[j])
                    &&& indicator_defined(self.top@.len() as int, self.transforms@[j])
                },
                forall|j: int| 0 <= j < k ==> #[trigger] out@[j] == (
                    indicator_of(self.bottom@, self.transforms@[j], self.bottom@.len() as int),
                    indicator_of(self.top@, self.transforms@[j], self.top@.len() as int),
                    self.transforms@[j],
                ),
            decreases self.transforms@.len() - k,
        {
            let transform = self.transforms[k];
            let bottom = VerticalProfile::compute_indicator(&self.bottom, transform);
            let top = VerticalProfile::compute_indicator(&self.top, transform);
            out.push((bottom, top, transform));
            k = k + 1;
        }
        out
    }

    /// For each orientation, the profile that lands at side `index`, seen from
    /// outside, with the orientation.
    pub fn get_wall_profile_rotation_pairs_for_index(&self, index: usize) -> (r: Vec<(WallProfile, GeomOrientation)>)
        requires
            forall|k: int| 0 <= k < self.transforms@.len() ==> index_in_sequence_defined(
                #[trigger] self.transforms@[k],
                index as int,
                self.walls@.len() as int,
                false,
            ),
        ensures
            r@.len() == self.transforms@.len(),
            forall|k: int| 0 <= k < r@.len() ==> #[trigger] r@[k] == (
                transformed_wall(self.walls@, index as int, self.transforms@[k]),
                self.transforms@[k],
            ),
    {
        let mut out: Vec<(WallProfile, GeomOrientation)> = Vec::new();
        let mut k: usize = 0;
        while k < self.transforms.len()
            invariant
                k <= self.transforms@.len(),
                out@.len() == k,
                forall|j: int| 0 <= j < self.transforms@.len() ==> index_in_sequence_defined(
                    #[trigger] self.transforms@[j],
                    index as int,
                    self.walls@.len() as int,
                    false,
                ),
                forall|j: int| 0 <= j < k ==> #[trigger] out@[j] == (
                    transformed_wall(self.walls@, index as int, self.transforms@[j]),
                    self.transforms@[j],
                ),
            decreases self.transforms@.len() - k,
        {
            let transform = self.transforms[k];
            let profile = self.walls[transform.get_index_in_sequence(index, self.walls.len(), false)];
            out.push((if transform.is_reversed() { profile.reverse() } else { profile }, transform));
            k = k + 1;
        }
        out
    }
}

} // verus!
