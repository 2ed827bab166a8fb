use vstd::prelude::*;

verus! {

#[derive(Clone, Copy, Debug, PartialEq, Eq, Hash, Structural)]
pub enum TilingKind {
    Square,
    Hexagonal,
    OctagonAndSquare,
    EquilateralTriangular,
    RightTriangular,
}

/// The integer coordinates of a tile in a tiling.
#[derive(Clone, Copy, Debug, PartialEq, Eq, Hash, Structural)]
pub struct TileIndex {
    pub x: i32,
    pub y: i32,
}

impl TileIndex {
    pub fn new(x: i32, y: i32) -> (r: Self)
        ensures
            r == (TileIndex { x, y }),
    {
        TileIndex { x, y }
    }

    /// The index moved by `(dx, dy)`.
    pub fn offset(self, dx: i32, dy: i32) -> (r: Self)
        requires
            i32::MIN <= self.x + dx <= i32::MAX,
            i32::MIN <= self.y + dy <= i32::MAX,
        ensures
            r.x == self.x + dx,
            r.y == self.y + dy,
    {
        TileIndex { x: self.x + dx, y: self.y + dy }
    }
}

/// A tiling of the plane by kind, with the number of tiles along each axis.
#[derive(Clone, Copy, Debug, PartialEq, Eq, Structural)]
pub struct Tiling {
    pub kind: TilingKind,
    pub max_index: TileIndex,
}

#[derive(Clone, Copy, Debug, PartialEq, Eq, Hash, Structural)]
pub enum EquilateralDirection {
    Up,
    Down,
}

#[derive(Clone, Copy, Debug, PartialEq, Eq, Hash, Structural)]
pub enum RightTriangleRotation {
    Zero,
    One,
    Two,
    Three,
}

#[derive(Clone, Copy, Debug, PartialEq, Eq, Hash, Structural)]
pub enum TileShape {
    Square,
    Hexagon,
    Octagon,
    EquilateralTriangle(EquilateralDirection),
    RightTriangle(RightTriangleRotation),
}

/// A tile of a tiling: its shape and its index.
#[derive(Clone, Copy, Debug, PartialEq, Eq, Structural)]
pub struct Tile {
    pub shape: TileShape,
    pub index: TileIndex,
}

pub open spec fn side_count_of(shape: TileShape) -> u32 {
    match shape {
        TileShape::Square => 4,
        TileShape::Hexagon => 6,
        TileShape::Octagon => 8,
        TileShape::EquilateralTriangle(_) => 3,
        TileShape::RightTriangle(_) => 3,
    }
}

pub open spec fn shape_name(shape: TileShape) -> Seq<char> {
    match shape {
        TileShape::Square => "Square"@,
        TileShape::Hexagon => "Hexagon"@,
        TileShape::Octagon => "Octagon"@,
        TileShape::EquilateralTriangle(_) => "Equilateral Triangle"@,
        TileShape::RightTriangle(_) => "Right Triangle"@,
    }
}

impl TileShape {
    pub fn get_side_count(&self) -> (r: u32)
        ensures
            r == side_count_of(*self),
    {
        match self {
            TileShape::Square => 4,
            TileShape::Hexagon => 6,
            TileShape::Octagon => 8,
            TileShape::EquilateralTriangle(_) => 3,
            TileShape::RightTriangle(_) => 3,
        }
    }

    pub fn get_name(&self) -> (r: String)
        ensures
            r@ == shape_name(*self),
    {
        match self {
            TileShape::Square => String::from_str("Square"),
            TileShape::Hexagon => String::from_str("Hexagon"),
            TileShape::Octagon => String::from_str("Octagon"),
            TileShape::EquilateralTriangle(_) => String::from_str("Equilateral Triangle"),
            TileShape::RightTriangle(_) => String::from_str("Right Triangle"),
        }
    }
}

/// Whether an index lies inside the tiling.
pub open spec fn index_in_bounds(t: Tiling, index: TileIndex) -> bool {
    0 <= index.x < t.max_index.x && 0 <= index.y < t.max_index.y
}

/// Rust's truncating division by two.
pub open spec fn half_toward_zero(x: int) -> int {
    if x >= 0 {
        x / 2
    } else {
        -((-x) / 2)
    }
}

/// The index inside the tiling that `index` wraps around to. On a hexagonal tiling,
/// every two rows moved up also move one column sideways.
pub open spec fn adjusted_index(t: Tiling, index: TileIndex) -> TileIndex {
    match t.kind {
        TilingKind::Hexagonal => {
            let target_y = index.y % t.max_index.y;
            let over_count = half_toward_zero(target_y - index.y);
            TileIndex { x: ((index.x + over_count) % (t.max_index.x as int)) as i32, y: target_y as i32 }
        },
        _ => TileIndex { x: (index.x % t.max_index.x) as i32, y: (index.y % t.max_index.y) as i32 },
    }
}

/// Whether `adjust_index` computes without overflow.
pub open spec fn adjust_index_defined(t: Tiling, index: TileIndex) -> bool {
    &&& t.max_index.x > 0
    &&& t.max_index.y > 0
    &&& t.kind is Hexagonal ==> {
        let target_y = index.y % t.max_index.y;
        &&& i32::MIN <= target_y - index.y <= i32::MAX
        &&& i32::MIN <= index.x + half_toward_zero(target_y - index.y) <= i32::MAX
    }
}

/// The corners of a tile on a square tiling, as indices of the dual tiling (or,
/// when the tiling is itself the dual, of the base tiling).
pub open spec fn square_vertices(index: TileIndex, self_is_dual: bool) -> Seq<TileIndex> {
    if self_is_dual {
        seq![
            TileIndex { x: (index.x - 1) as i32, y: index.y },
            index,
            TileIndex { x: index.x, y: (index.y - 1) as i32 },
            TileIndex { x: (index.x - 1) as i32, y: (index.y - 1) as i32 },
        ]
    } else {
        seq![
            index,
            TileIndex { x: (index.x + 1) as i32, y: index.y },
            TileIndex { x: (index.x + 1) as i32, y: (index.y + 1) as i32 },
            TileIndex { x: index.x, y: (index.y + 1) as i32 },
        ]
    }
}

/// Whether the corners of a square tile stay inside `i32`.
pub open spec fn square_vertices_defined(index: TileIndex, self_is_dual: bool) -> bool {
    if self_is_dual {
        index.x > i32::MIN && index.y > i32::MIN
    } else {
        index.x < i32::MAX && index.y < i32::MAX
    }
}

/// Whether `x + y` is even, and whether it stays inside `i32`.
pub open spec fn sum_fits(index: TileIndex) -> bool {
    i32::MIN <= index.x + index.y <= i32::MAX
}

/// The right triangles of a tiling come in four rotations, by the parity of the
/// square they lie in and of their column.
pub open spec fn right_triangle_rotation(index: TileIndex) -> RightTriangleRotation {
    let even_square = (index.x / 2 + index.y) % 2 == 0;
    let even_column = index.x % 2 == 0;
    if even_square && even_column {
        RightTriangleRotation::Zero
    } else if even_square {
        RightTriangleRotation::Two
    } else if even_column {
        RightTriangleRotation::One
    } else {
        RightTriangleRotation::Three
    }
}

/// Whether the shape of a tile can be computed without overflow.
pub open spec fn shape_defined(t: Tiling, index: TileIndex) -> bool {
    match t.kind {
        TilingKind::OctagonAndSquare => sum_fits(index),
        TilingKind::EquilateralTriangular => sum_fits(index),
        TilingKind::RightTriangular => i32::MIN <= index.x / 2 + index.y <= i32::MAX,
        _ => true,
    }
}

/// The shape of the tile at `index`.
pub open spec fn shape_at(t: Tiling, index: TileIndex) -> TileShape {
    match t.kind {
        TilingKind::Square => TileShape::Square,
        TilingKind::Hexagonal => TileShape::Hexagon,
        TilingKind::OctagonAndSquare => if (index.x + index.y) % 2 == 0 {
            TileShape::Square
        } else {
            TileShape::Octagon
        },
        TilingKind::EquilateralTriangular => TileShape::EquilateralTriangle(
            if (index.x + index.y) % 2 == 0 {
                EquilateralDirection::Down
            } else {
                EquilateralDirection::Up
            },
        ),
        TilingKind::RightTriangular => TileShape::RightTriangle(right_triangle_rotation(index)),
    }
}

pub open spec fn square_neighbors() -> Seq<(i32, i32)> {
    seq![(-1i32, -1i32), (-1i32, 0i32), (-1i32, 1i32), (0i32, 1i32), (1i32, 1i32), (1i32, 0i32), (1i32, -1i32), (0i32, -1i32)]
}

pub open spec fn hexagon_neighbors() -> Seq<(i32, i32)> {
    seq![(0i32, 1i32), (1i32, 1i32), (-1i32, 0i32), (1i32, 0i32), (-1i32, -1i32), (0i32, -1i32)]
}

pub open spec fn octagon_square_neighbors() -> Seq<(i32, i32)> {
    seq![(-1i32, 0i32), (0i32, -1i32), (1i32, 0i32), (0i32, 1i32)]
}

pub open spec fn triangle_down_neighbors() -> Seq<(i32, i32)> {
    seq![(-2i32, 1i32), (-1i32, 1i32), (0i32, 1i32), (1i32, 1i32), (2i32, 1i32), (-2i32, 0i32), (-1i32, 0i32), (1i32, 0i32), (2i32, 0i32), (-1i32, -1i32), (0i32, -1i32), (1i32, -1i32)]
}

pub open spec fn triangle_up_neighbors() -> Seq<(i32, i32)> {
    seq![(-1i32, 1i32), (0i32, 1i32), (1i32, 1i32), (-2i32, 0i32), (-1i32, 0i32), (1i32, 0i32), (2i32, 0i32), (-2i32, -1i32), (-1i32, -1i32), (0i32, -1i32), (1i32, -1i32), (2i32, -1i32)]
}

pub open spec fn right_triangle_neighbors(rotation: RightTriangleRotation) -> Seq<(i32, i32)> {
    match rotation {
        RightTriangleRotation::Zero => seq![
            (-2i32, 1i32), (-1i32, 1i32), (0i32, 1i32), (1i32, 1i32), (-2i32, 0i32), (-1i32, 0i32), (1i32, 0i32), (2i32, 0i32), (3i32, 0i32),
            (-1i32, -1i32), (0i32, -1i32), (1i32, -1i32), (2i32, -1i32), (3i32, -1i32),
        ],
        RightTriangleRotation::Two => seq![
            (-3i32, 1i32), (-2i32, 1i32), (-1i32, 1i32), (0i32, 1i32), (1i32, 1i32), (-3i32, 0i32), (-2i32, 0i32), (-1i32, 0i32), (1i32, 0i32), (2i32, 0i32),
            (-1i32, -1i32), (0i32, -1i32), (1i32, -1i32), (2i32, -1i32),
        ],
        RightTriangleRotation::One => seq![
            (-1i32, 1i32), (0i32, 1i32), (1i32, 1i32), (2i32, 1i32), (3i32, 1i32), (-2i32, 0i32), (-1i32, 0i32), (1i32, 0i32), (2i32, 0i32), (3i32, 0i32),
            (-2i32, -1i32), (-1i32, -1i32), (0i32, -1i32), (1i32, -1i32),
        ],
        RightTriangleRotation::Three => seq![
            (-1i32, 1i32), (0i32, 1i32), (1i32, 1i32), (2i32, 1i32), (-3i32, 0i32), (-2i32, 0i32), (-1i32, 0i32), (1i32, 0i32), (2i32, 0i32),
            (-3i32, -1i32), (-2i32, -1i32), (-1i32, -1i32), (0i32, -1i32), (1i32, -1i32),
        ],
    }
}

/// The offsets from a tile to the tiles it touches, edge or corner.
pub open spec fn neighbors_of(t: Tiling, index: TileIndex) -> Seq<(i32, i32)> {
    match shape_at(t, index) {
        TileShape::Square => if t.kind is Square { square_neighbors() } else { octagon_square_neighbors() },
        TileShape::Hexagon => hexagon_neighbors(),
        TileShape::Octagon => square_neighbors(),
        TileShape::EquilateralTriangle(EquilateralDirection::Down) => triangle_down_neighbors(),
        TileShape::EquilateralTriangle(EquilateralDirection::Up) => triangle_up_neighbors(),
        TileShape::RightTriangle(rotation) => right_triangle_neighbors(rotation),
    }
}

/// The tiling whose tiles sit at the corners of the tiles of `t`.
pub open spec fn dual_of(t: Tiling) -> Tiling {
    match t.kind {
        TilingKind::Square => Tiling {
            kind: TilingKind::Square,
            max_index: TileIndex { x: (t.max_index.x + 1) as i32, y: (t.max_index.y + 1) as i32 },
        },
        TilingKind::Hexagonal => Tiling {
            kind: TilingKind::EquilateralTriangular,
            max_index: TileIndex { x: (t.max_index.x * 2 + 1) as i32, y: (t.max_index.y + 1) as i32 },
        },
        TilingKind::OctagonAndSquare => Tiling {
            kind: TilingKind::RightTriangular,
            max_index: TileIndex { x: (t.max_index.x * 2 + 4) as i32, y: (t.max_index.y + 2) as i32 },
        },
        TilingKind::EquilateralTriangular => Tiling {
            kind: TilingKind::Hexagonal,
            max_index: TileIndex { x: (t.max_index.x + 2) as i32, y: (t.max_index.y + 2) as i32 },
        },
        TilingKind::RightTriangular => Tiling {
            kind: TilingKind::OctagonAndSquare,
            max_index: TileIndex { x: (half_toward_zero(t.max_index.x as int) + 1) as i32, y: (t.max_index.y + 1) as i32 },
        },
    }
}

/// Whether the dual's size stays inside `i32`.
pub open spec fn dual_defined(t: Tiling) -> bool {
    match t.kind {
        TilingKind::Square => t.max_index.x + 1 <= i32::MAX && t.max_index.y + 1 <= i32::MAX,
        TilingKind::Hexagonal => i32::MIN <= t.max_index.x * 2 <= i32::MAX && t.max_index.x * 2 + 1 <= i32::MAX
            && t.max_index.y + 1 <= i32::MAX,
        TilingKind::OctagonAndSquare => i32::MIN <= t.max_index.x * 2 <= i32::MAX && t.max_index.x * 2 + 4 <= i32::MAX
            && t.max_index.y + 2 <= i32::MAX,
        TilingKind::EquilateralTriangular => t.max_index.x + 2 <= i32::MAX && t.max_index.y + 2 <= i32::MAX,
        TilingKind::RightTriangular => t.max_index.y + 1 <= i32::MAX,
    }
}

/// The edge neighbours of a square tile: offset, and the side of the neighbour that
/// faces back.
pub open spec fn square_adjacent() -> Seq<(i32, i32, usize)> {
    seq![(1i32, 0i32, 2usize), (0i32, 1i32, 3usize), (-1i32, 0i32, 0usize), (0i32, -1i32, 1usize)]
}

fn table<T: Copy>(entries: &[T]) -> (r: Vec<T>)
    ensures
        r@ == entries@,
{
    let mut out: Vec<T> = Vec::new();
    let mut i: usize = 0;
    while i < entries.len()
        invariant
            i <= entries@.len(),
            out@ == entries@.subrange(0, i as int),
        decreases entries@.len() - i,
    {
        out.push(entries[i]);
        i = i + 1;
        proof {
            assert(out@ == entries@.subrange(0, i as int));
        }
    }
    proof {
        assert(entries@.subrange(0, i as int) == entries@);
    }
    out
}

fn parity_is_even(v: i32) -> (r: bool)
    ensures
        r == (v % 2 == 0),
{
    match v.checked_rem_euclid(2) {
        Some(m) => m == 0,
        None => false,
    }
}

impl Tiling {
    pub fn in_bounds(&self, index: TileIndex) -> (r: bool)
        ensures
            r == index_in_bounds(*self, index),
    {
        index.x >= 0 && index.x < self.max_index.x && index.y >= 0 && index.y < self.max_index.y
    }

    /// The corners of a tile; only square tilings have them.
    pub fn get_verticies(&self, index: TileIndex, self_is_dual: bool) -> (r: Vec<TileIndex>)
        requires
            self.kind is Square,
            square_vertices_defined(index, self_is_dual),
        ensures
            r@ == square_vertices(index, self_is_dual),
    {
        let v = if self_is_dual {
            vec![index.offset(-1, 0), index, index.offset(0, -1), index.offset(-1, -1)]
        } else {
            vec![index, index.offset(1, 0), index.offset(1, 1), index.offset(0, 1)]
        };
        proof {
            assert(v@ == square_vertices(index, self_is_dual));
        }
        v
    }

    /// The index inside the tiling that `index` wraps around to.
    pub fn adjust_index(&self, index: TileIndex) -> (r: TileIndex)
        requires
            adjust_index_defined(*self, index),
        ensures
            r == adjusted_index(*self, index),
            index_in_bounds(*self, r),
    {
        match self.kind {
            TilingKind::Hexagonal => {
                let target_y = match index.y.checked_rem_euclid(self.max_index.y) {
                    Some(v) => v,
                    None => 0,
                };
                let difference = target_y - index.y;
                let over_count = match difference.checked_div(2) {
                    Some(v) => v,
                    None => 0,
                };
                let shifted = index.x + over_count;
                let x = match shifted.checked_rem_euclid(self.max_index.x) {
                    Some(v) => v,
                    None => 0,
                };
                TileIndex { x, y: target_y }
            },
            _ => {
                let x = match index.x.checked_rem_euclid(self.max_index.x) {
                    Some(v) => v,
                    None => 0,
                };
                let y = match index.y.checked_rem_euclid(self.max_index.y) {
                    Some(v) => v,
                    None => 0,
                };
                TileIndex { x, y }
            },
        }
    }

    /// The tile at `index`, with its shape.
    pub fn get_tile_at_index(&self, index: TileIndex) -> (r: Tile)
        requires
            shape_defined(*self, index),
        ensures
            r == (Tile { shape: shape_at(*self, index), index }),
    {
        let shape = match self.kind {
            TilingKind::Square => TileShape::Square,
            TilingKind::Hexagonal => TileShape::Hexagon,
            TilingKind::OctagonAndSquare => {
                if parity_is_even(index.x + index.y) {
                    TileShape::Square
                } else {
                    TileShape::Octagon
                }
            },
            TilingKind::EquilateralTriangular => {
                TileShape::EquilateralTriangle(
                    if parity_is_even(index.x + index.y) {
                        EquilateralDirection::Down
                    } else {
                        EquilateralDirection::Up
                    },
                )
            },
            TilingKind::RightTriangular => {
                let half = match index.x.checked_div_euclid(2) {
                    Some(v) => v,
                    None => 0,
                };
                let even_square = parity_is_even(half + index.y);
                let even_column = parity_is_even(index.x);
                TileShape::RightTriangle(
                    if even_square && even_column {
                        RightTriangleRotation::Zero
                    } else if even_square {
                        RightTriangleRotation::Two
                    } else if even_column {
                        RightTriangleRotation::One
                    } else {
                        RightTriangleRotation::Three
                    },
                )
            },
        };
        Tile { shape, index }
    }

    /// The offsets from the tile at `index` to the tiles it touches.
    pub fn get_neighbors(&self, index: TileIndex) -> (r: Vec<(i32, i32)>)
        requires
            shape_defined(*self, index),
        ensures
            r@ == neighbors_of(*self, index),
    {
        let shape = self.get_tile_at_index(index).shape;
        match shape {
            TileShape::Square => {
                if self.kind == TilingKind::Square {
                    table(&[(-1, -1), (-1, 0), (-1, 1), (0, 1), (1, 1), (1, 0), (1, -1), (0, -1)])
                } else {
                    table(&[(-1, 0), (0, -1), (1, 0), (0, 1)])
                }
            },
            TileShape::Hexagon => table(&[(0, 1), (1, 1), (-1, 0), (1, 0), (-1, -1), (0, -1)]),
            TileShape::Octagon => table(&[(-1, -1), (-1, 0), (-1, 1), (0, 1), (1, 1), (1, 0), (1, -1), (0, -1)]),
            TileShape::EquilateralTriangle(EquilateralDirection::Down) => table(
                &[(-2, 1), (-1, 1), (0, 1), (1, 1), (2, 1), (-2, 0), (-1, 0), (1, 0), (2, 0), (-1, -1), (0, -1), (1, -1)],
            ),
            TileShape::EquilateralTriangle(EquilateralDirection::Up) => table(
                &[(-1, 1), (0, 1), (1, 1), (-2, 0), (-1, 0), (1, 0), (2, 0), (-2, -1), (-1, -1), (0, -1), (1, -1), (2, -1)],
            ),
            TileShape::RightTriangle(RightTriangleRotation::Zero) => table(
                &[
                    (-2, 1), (-1, 1), (0, 1), (1, 1), (-2, 0), (-1, 0), (1, 0), (2, 0), (3, 0),
                    (-1, -1), (0, -1), (1, -1), (2, -1), (3, -1),
                ],
            ),
            TileShape::RightTriangle(RightTriangleRotation::Two) => table(
                &[
                    (-3, 1), (-2, 1), (-1, 1), (0, 1), (1, 1), (-3, 0), (-2, 0), (-1, 0), (1, 0), (2, 0),
                    (-1, -1), (0, -1), (1, -1), (2, -1),
                ],
            ),
            TileShape::RightTriangle(RightTriangleRotation::One) => table(
                &[
                    (-1, 1), (0, 1), (1, 1), (2, 1), (3, 1), (-2, 0), (-1, 0), (1, 0), (2, 0), (3, 0),
                    (-2, -1), (-1, -1), (0, -1), (1, -1),
                ],
            ),
            TileShape::RightTriangle(RightTriangleRotation::Three) => table(
                &[
                    (-1, 1), (0, 1), (1, 1), (2, 1), (-3, 0), (-2, 0), (-1, 0), (1, 0), (2, 0),
                    (-3, -1), (-2, -1), (-1, -1), (0, -1), (1, -1),
                ],
            ),
        }
    }

    /// The tiling whose tiles sit at the corners of this one's tiles.
    pub fn get_dual(&self) -> (r: Tiling)
        requires
            dual_defined(*self),
        ensures
            r == dual_of(*self),
    {
        match self.kind {
            TilingKind::Square => Tiling {
                kind: TilingKind::Square,
                max_index: TileIndex { x: self.max_index.x + 1, y: self.max_index.y + 1 },
            },
            TilingKind::Hexagonal => Tiling {
                kind: TilingKind::EquilateralTriangular,
                max_index: TileIndex { x: self.max_index.x * 2 + 1, y: self.max_index.y + 1 },
            },
            TilingKind::OctagonAndSquare => Tiling {
                kind: TilingKind::RightTriangular,
                max_index: TileIndex { x: self.max_index.x * 2 + 4, y: self.max_index.y + 2 },
            },
            TilingKind::EquilateralTriangular => Tiling {
                kind: TilingKind::Hexagonal,
                max_index: TileIndex { x: self.max_index.x + 2, y: self.max_index.y + 2 },
            },
            TilingKind::RightTriangular => {
                let half = match self.max_index.x.checked_div(2) {
                    Some(v) => v,
                    None => 0,
                };
                Tiling { kind: TilingKind::OctagonAndSquare, max_index: TileIndex { x: half + 1, y: self.max_index.y + 1 } }
            },
        }
    }

    /// The edge neighbours of a tile with the side of each that faces back; only
    /// square tilings have them.
    pub fn get_adjacent(&self, index: TileIndex) -> (r: Vec<(i32, i32, usize)>)
        requires
            self.kind is Square,
        ensures
            r@ == square_adjacent(),
    {
        table(&[(1, 0, 2), (0, 1, 3), (-1, 0, 0), (0, -1, 1)])
    }
}

/// An index inside the tiling can be wrapped.
pub proof fn lemma_inner_index_adjustable(t: Tiling, index: TileIndex)
    requires
        index_in_bounds(t, index),
    ensures
        adjust_index_defined(t, index),
{
    vstd::arithmetic::div_mod::lemma_small_mod(index.y as nat, t.max_index.y as nat);
}

/// Wrapping an index that already lies inside the tiling leaves it where it is.
pub proof fn law_adjust_index_keeps_inner_indices(t: Tiling, index: TileIndex)
    requires
        t.max_index.x > 0,
        t.max_index.y > 0,
        index_in_bounds(t, index),
    ensures
        adjusted_index(t, index) == index,
{
    vstd::arithmetic::div_mod::lemma_small_mod(index.x as nat, t.max_index.x as nat);
    vstd::arithmetic::div_mod::lemma_small_mod(index.y as nat, t.max_index.y as nat);
}

/// On square and hexagonal tilings, touching is symmetric: the tile reached by an
/// offset reaches back by the opposite offset.
pub proof fn law_neighbors_are_symmetric(t: Tiling, index: TileIndex, i: int)
    requires
        t.kind is Square || t.kind is Hexagonal,
        0 <= i < neighbors_of(t, index).len(),
    ensures
        exists|j: int| 0 <= j < neighbors_of(t, index).len()
            && (#[trigger] neighbors_of(t, index)[j]).0 == -neighbors_of(t, index)[i].0
            && neighbors_of(t, index)[j].1 == -neighbors_of(t, index)[i].1,
{
    let n = neighbors_of(t, index);
    if t.kind is Square {
        assert(n == square_neighbors());
        if i == 0 {
            assert(n[4].0 == -n[0].0 && n[4].1 == -n[0].1);
        }
        if i == 1 {
            assert(n[5].0 == -n[1].0 && n[5].1 == -n[1].1);
        }
        if i == 2 {
            assert(n[6].0 == -n[2].0 && n[6].1 == -n[2].1);
        }
        if i == 3 {
            assert(n[7].0 == -n[3].0 && n[7].1 == -n[3].1);
        }
        if i == 4 {
            assert(n[0].0 == -n[4].0 && n[0].1 == -n[4].1);
        }
        if i == 5 {
            assert(n[1].0 == -n[5].0 && n[1].1 == -n[5].1);
        }
        if i == 6 {
            assert(n[2].0 == -n[6].0 && n[2].1 == -n[6].1);
        }
        if i == 7 {
            assert(n[3].0 == -n[7].0 && n[3].1 == -n[7].1);
        }
    } else {
        assert(n == hexagon_neighbors());
        if i == 0 {
            assert(n[5].0 == -n[0].0 && n[5].1 == -n[0].1);
        }
        if i == 1 {
            assert(n[4].0 == -n[1].0 && n[4].1 == -n[1].1);
        }
        if i == 2 {
            assert(n[3].0 == -n[2].0 && n[3].1 == -n[2].1);
        }
        if i == 3 {
            assert(n[2].0 == -n[3].0 && n[2].1 == -n[3].1);
        }
        if i == 4 {
            assert(n[1].0 == -n[4].0 && n[1].1 == -n[4].1);
        }
        if i == 5 {
            assert(n[0].0 == -n[5].0 && n[0].1 == -n[5].1);
        }
    }
}

/// The tile reached from `index` by its `i`-th offset has the opposite offset among
/// its own.
pub open spec fn touched_back(t: Tiling, index: TileIndex, i: int) -> bool {
    let d = neighbors_of(t, index)[i];
    let target = TileIndex { x: (index.x + d.0) as i32, y: (index.y + d.1) as i32 };
    exists|j: int| 0 <= j < neighbors_of(t, target).len() && (#[trigger] neighbors_of(t, target)[j]).0 == -d.0
        && neighbors_of(t, target)[j].1 == -d.1
}

/// On the octagon-and-square tiling, the tile reached from `index` by one of its
/// offsets has the opposite offset among its own.
proof fn lemma_octagon_square_symmetric(t: Tiling, index: TileIndex, i: int)
    requires
        t.kind is OctagonAndSquare,
        0 <= i < neighbors_of(t, index).len(),
        i32::MIN <= index.x + neighbors_of(t, index)[i].0 <= i32::MAX,
        i32::MIN <= index.y + neighbors_of(t, index)[i].1 <= i32::MAX,
    ensures
        touched_back(t, index, i),
{
    let n = neighbors_of(t, index);
    let d = n[i];
    let target = TileIndex { x: (index.x + d.0) as i32, y: (index.y + d.1) as i32 };
    let m = neighbors_of(t, target);
    if (index.x + index.y) % 2 == 0 {
        assert(n == octagon_square_neighbors());
        if i == 0 {
            assert((target.x + target.y) % 2 == 1);
            assert(m == square_neighbors());
            assert(m[5].0 == -d.0 && m[5].1 == -d.1);
        }
        if i == 1 {
            assert((target.x + target.y) % 2 == 1);
            assert(m == square_neighbors());
            assert(m[3].0 == -d.0 && m[3].1 == -d.1);
        }
        if i == 2 {
            assert((target.x + target.y) % 2 == 1);
            assert(m == square_neighbors());
            assert(m[1].0 == -d.0 && m[1].1 == -d.1);
        }
        if i == 3 {
            assert((target.x + target.y) % 2 == 1);
            assert(m == square_neighbors());
            assert(m[7].0 == -d.0 && m[7].1 == -d.1);
        }
    }
    if (index.x + index.y) % 2 == 1 {
        assert(n == square_neighbors());
        if i == 0 {
            assert((target.x + target.y) % 2 == 1);
            assert(m == square_neighbors());
            assert(m[4].0 == -d.0 && m[4].1 == -d.1);
        }
        if i == 1 {
            assert((target.x + target.y) % 2 == 0);
            assert(m == octagon_square_neighbors());
            assert(m[2].0 == -d.0 && m[2].1 == -d.1);
        }
        if i == 2 {
            assert((target.x + target.y) % 2 == 1);
            assert(m == square_neighbors());
            assert(m[6].0 == -d.0 && m[6].1 == -d.1);
        }
        if i == 3 {
            assert((target.x + target.y) % 2 == 0);
            assert(m == octagon_square_neighbors());
            assert(m[1].0 == -d.0 && m[1].1 == -d.1);
        }
        if i == 4 {
            assert((target.x + target.y) % 2 == 1);
            assert(m == square_neighbors());
            assert(m[0].0 == -d.0 && m[0].1 == -d.1);
        }
        if i == 5 {
            assert((target.x + target.y) % 2 == 0);
            assert(m == octagon_square_neighbors());
            assert(m[0].0 == -d.0 && m[0].1 == -d.1);
        }
        if i == 6 {
            assert((target.x + target.y) % 2 == 1);
            assert(m == square_neighbors());
            assert(m[2].0 == -d.0 && m[2].1 == -d.1);
        }
        if i == 7 {
            assert((target.x + target.y) % 2 == 0);
            assert(m == octagon_square_neighbors());
            assert(m[3].0 == -d.0 && m[3].1 == -d.1);
        }
    }
}

/// On the triangular tiling, the tile reached from `index` by one of its offsets has
/// the opposite offset among its own.
proof fn lemma_triangle_symmetric(t: Tiling, index: TileIndex, i: int)
    requires
        t.kind is EquilateralTriangular,
        0 <= i < neighbors_of(t, index).len(),
        i32::MIN <= index.x + neighbors_of(t, index)[i].0 <= i32::MAX,
        i32::MIN <= index.y + neighbors_of(t, index)[i].1 <= i32::MAX,
    ensures
        touched_back(t, index, i),
{
    let n = neighbors_of(t, index);
    let d = n[i];
    let target = TileIndex { x: (index.x + d.0) as i32, y: (index.y + d.1) as i32 };
    let m = neighbors_of(t, target);
    if (index.x + index.y) % 2 == 0 {
        assert(n == triangle_down_neighbors());
        if i == 0 {
            assert((target.x + target.y) % 2 == 1);
            assert(m == triangle_up_neighbors());
            assert(m[11].0 == -d.0 && m[11].1 == -d.1);
        }
        if i == 1 {
            assert((target.x + target.y) % 2 == 0);
            assert(m == triangle_down_neighbors());
            assert(m[11].0 == -d.0 && m[11].1 == -d.1);
        }
        if i == 2 {
            assert((target.x + target.y) % 2 == 1);
            assert(m == triangle_up_neighbors());
            assert(m[9].0 == -d.0 && m[9].1 == -d.1);
        }
        if i == 3 {
            assert((target.x + target.y) % 2 == 0);
            assert(m == triangle_down_neighbors());
            assert(m[9].0 == -d.0 && m[9].1 == -d.1);
        }
        if i == 4 {
            assert((target.x + target.y) % 2 == 1);
            assert(m == triangle_up_neighbors());
            assert(m[7].0 == -d.0 && m[7].1 == -d.1);
        }
        if i == 5 {
            assert((target.x + target.y) % 2 == 0);
            assert(m == triangle_down_neighbors());
            assert(m[8].0 == -d.0 && m[8].1 == -d.1);
        }
        if i == 6 {
            assert((target.x + target.y) % 2 == 1);
            assert(m == triangle_up_neighbors());
            assert(m[5].0 == -d.0 && m[5].1 == -d.1);
        }
        if i == 7 {
            assert((target.x + target.y) % 2 == 1);
            assert(m == triangle_up_neighbors());
            assert(m[4].0 == -d.0 && m[4].1 == -d.1);
        }
        if i == 8 {
            assert((target.x + target.y) % 2 == 0);
            assert(m == triangle_down_neighbors());
            assert(m[5].0 == -d.0 && m[5].1 == -d.1);
        }
        if i == 9 {
            assert((target.x + target.y) % 2 == 0);
            assert(m == triangle_down_neighbors());
            assert(m[3].0 == -d.0 && m[3].1 == -d.1);
        }
        if i == 10 {
            assert((target.x + target.y) % 2 == 1);
            assert(m == triangle_up_neighbors());
            assert(m[1].0 == -d.0 && m[1].1 == -d.1);
        }
        if i == 11 {
            assert((target.x + target.y) % 2 == 0);
            assert(m == triangle_down_neighbors());
            assert(m[1].0 == -d.0 && m[1].1 == -d.1);
        }
    }
    if (index.x + index.y) % 2 == 1 {
        assert(n == triangle_up_neighbors());
        if i == 0 {
            assert((target.x + target.y) % 2 == 1);
            assert(m == triangle_up_neighbors());
            assert(m[10].0 == -d.0 && m[10].1 == -d.1);
        }
        if i == 1 {
            assert((target.x + target.y) % 2 == 0);
            assert(m == triangle_down_neighbors());
            assert(m[10].0 == -d.0 && m[10].1 == -d.1);
        }
        if i == 2 {
            assert((target.x + target.y) % 2 == 1);
            assert(m == triangle_up_neighbors());
            assert(m[8].0 == -d.0 && m[8].1 == -d.1);
        }
        if i == 3 {
            assert((target.x + target.y) % 2 == 1);
            assert(m == triangle_up_neighbors());
            assert(m[6].0 == -d.0 && m[6].1 == -d.1);
        }
        if i == 4 {
            assert((target.x + target.y) % 2 == 0);
            assert(m == triangle_down_neighbors());
            assert(m[7].0 == -d.0 && m[7].1 == -d.1);
        }
        if i == 5 {
            assert((target.x + target.y) % 2 == 0);
            assert(m == triangle_down_neighbors());
            assert(m[6].0 == -d.0 && m[6].1 == -d.1);
        }
        if i == 6 {
            assert((target.x + target.y) % 2 == 1);
            assert(m == triangle_up_neighbors());
            assert(m[3].0 == -d.0 && m[3].1 == -d.1);
        }
        if i == 7 {
            assert((target.x + target.y) % 2 == 0);
            assert(m == triangle_down_neighbors());
            assert(m[4].0 == -d.0 && m[4].1 == -d.1);
        }
        if i == 8 {
            assert((target.x + target.y) % 2 == 1);
            assert(m == triangle_up_neighbors());
            assert(m[2].0 == -d.0 && m[2].1 == -d.1);
        }
        if i == 9 {
            assert((target.x + target.y) % 2 == 0);
            assert(m == triangle_down_neighbors());
            assert(m[2].0 == -d.0 && m[2].1 == -d.1);
        }
        if i == 10 {
            assert((target.x + target.y) % 2 == 1);
            assert(m == triangle_up_neighbors());
            assert(m[0].0 == -d.0 && m[0].1 == -d.1);
        }
        if i == 11 {
            assert((target.x + target.y) % 2 == 0);
            assert(m == triangle_down_neighbors());
            assert(m[0].0 == -d.0 && m[0].1 == -d.1);
        }
    }
}

proof fn lemma_right_triangle_symmetric_zero(t: Tiling, index: TileIndex, i: int)
    requires
        t.kind is RightTriangular,
        right_triangle_rotation(index) == RightTriangleRotation::Zero,
        0 <= i < neighbors_of(t, index).len(),
        i32::MIN <= index.x + neighbors_of(t, index)[i].0 <= i32::MAX,
        i32::MIN <= index.y + neighbors_of(t, index)[i].1 <= i32::MAX,
    ensures
        touched_back(t, index, i),
{
    let n = neighbors_of(t, index);
    let d = n[i];
    let target = TileIndex { x: (index.x + d.0) as i32, y: (index.y + d.1) as i32 };
    let m = neighbors_of(t, target);
    let q = index.x / 2;
    assert(index.x == 2 * q + index.x % 2);
    assert(n == right_triangle_neighbors(RightTriangleRotation::Zero));
    if i == 0 {
        assert(target.x / 2 == q + -1);
        assert(target.x % 2 == 0);
        assert(right_triangle_rotation(target) == RightTriangleRotation::Zero);
        assert(m == right_triangle_neighbors(RightTriangleRotation::Zero));
        assert(m[12].0 == -d.0 && m[12].1 == -d.1);
    }
    if i == 1 {
        assert(target.x / 2 == q + -1);
        assert(target.x % 2 == 1);
        assert(right_triangle_rotation(target) == RightTriangleRotation::Two);
        assert(m == right_triangle_neighbors(RightTriangleRotation::Two));
        assert(m[12].0 == -d.0 && m[12].1 == -d.1);
    }
    if i == 2 {
        assert(target.x / 2 == q + 0);
        assert(target.x % 2 == 0);
        assert(right_triangle_rotation(target) == RightTriangleRotation::One);
        assert(m == right_triangle_neighbors(RightTriangleRotation::One));
        assert(m[12].0 == -d.0 && m[12].1 == -d.1);
    }
    if i == 3 {
        assert(target.x / 2 == q + 0);
        assert(target.x % 2 == 1);
        assert(right_triangle_rotation(target) == RightTriangleRotation::Three);
        assert(m == right_triangle_neighbors(RightTriangleRotation::Three));
        assert(m[11].0 == -d.0 && m[11].1 == -d.1);
    }
    if i == 4 {
        assert(target.x / 2 == q + -1);
        assert(target.x % 2 == 0);
        assert(right_triangle_rotation(target) == RightTriangleRotation::One);
        assert(m == right_triangle_neighbors(RightTriangleRotation::One));
        assert(m[8].0 == -d.0 && m[8].1 == -d.1);
    }
    if i == 5 {
        assert(target.x / 2 == q + -1);
        assert(target.x % 2 == 1);
        assert(right_triangle_rotation(target) == RightTriangleRotation::Three);
        assert(m == right_triangle_neighbors(RightTriangleRotation::Three));
        assert(m[7].0 == -d.0 && m[7].1 == -d.1);
    }
    if i == 6 {
        assert(target.x / 2 == q + 0);
        assert(target.x % 2 == 1);
        assert(right_triangle_rotation(target) == RightTriangleRotation::Two);
        assert(m == right_triangle_neighbors(RightTriangleRotation::Two));
        assert(m[7].0 == -d.0 && m[7].1 == -d.1);
    }
    if i == 7 {
        assert(target.x / 2 == q + 1);
        assert(target.x % 2 == 0);
        assert(right_triangle_rotation(target) == RightTriangleRotation::One);
        assert(m == right_triangle_neighbors(RightTriangleRotation::One));
        assert(m[5].0 == -d.0 && m[5].1 == -d.1);
    }
    if i == 8 {
        assert(target.x / 2 == q + 1);
        assert(target.x % 2 == 1);
        assert(right_triangle_rotation(target) == RightTriangleRotation::Three);
        assert(m == right_triangle_neighbors(RightTriangleRotation::Three));
        assert(m[4].0 == -d.0 && m[4].1 == -d.1);
    }
    if i == 9 {
        assert(target.x / 2 == q + -1);
        assert(target.x % 2 == 1);
        assert(right_triangle_rotation(target) == RightTriangleRotation::Two);
        assert(m == right_triangle_neighbors(RightTriangleRotation::Two));
        assert(m[4].0 == -d.0 && m[4].1 == -d.1);
    }
    if i == 10 {
        assert(target.x / 2 == q + 0);
        assert(target.x % 2 == 0);
        assert(right_triangle_rotation(target) == RightTriangleRotation::One);
        assert(m == right_triangle_neighbors(RightTriangleRotation::One));
        assert(m[1].0 == -d.0 && m[1].1 == -d.1);
    }
    if i == 11 {
        assert(target.x / 2 == q + 0);
        assert(target.x % 2 == 1);
        assert(right_triangle_rotation(target) == RightTriangleRotation::Three);
        assert(m == right_triangle_neighbors(RightTriangleRotation::Three));
        assert(m[0].0 == -d.0 && m[0].1 == -d.1);
    }
    if i == 12 {
        assert(target.x / 2 == q + 1);
        assert(target.x % 2 == 0);
        assert(right_triangle_rotation(target) == RightTriangleRotation::Zero);
        assert(m == right_triangle_neighbors(RightTriangleRotation::Zero));
        assert(m[0].0 == -d.0 && m[0].1 == -d.1);
    }
    if i == 13 {
        assert(target.x / 2 == q + 1);
        assert(target.x % 2 == 1);
        assert(right_triangle_rotation(target) == RightTriangleRotation::Two);
        assert(m == right_triangle_neighbors(RightTriangleRotation::Two));
        assert(m[0].0 == -d.0 && m[0].1 == -d.1);
    }
}

proof fn lemma_right_triangle_symmetric_one(t: Tiling, index: TileIndex, i: int)
    requires
        t.kind is RightTriangular,
        right_triangle_rotation(index) == RightTriangleRotation::One,
        0 <= i < neighbors_of(t, index).len(),
        i32::MIN <= index.x + neighbors_of(t, index)[i].0 <= i32::MAX,
        i32::MIN <= index.y + neighbors_of(t, index)[i].1 <= i32::MAX,
    ensures
        touched_back(t, index, i),
{
    let n = neighbors_of(t, index);
    let d = n[i];
    let target = TileIndex { x: (index.x + d.0) as i32, y: (index.y + d.1) as i32 };
    let m = neighbors_of(t, target);
    let q = index.x / 2;
    assert(index.x == 2 * q + index.x % 2);
    assert(n == right_triangle_neighbors(RightTriangleRotation::One));
    if i == 0 {
        assert(target.x / 2 == q + -1);
        assert(target.x % 2 == 1);
        assert(right_triangle_rotation(target) == RightTriangleRotation::Three);
        assert(m == right_triangle_neighbors(RightTriangleRotation::Three));
        assert(m[13].0 == -d.0 && m[13].1 == -d.1);
    }
    if i == 1 {
        assert(target.x / 2 == q + 0);
        assert(target.x % 2 == 0);
        assert(right_triangle_rotation(target) == RightTriangleRotation::Zero);
        assert(m == right_triangle_neighbors(RightTriangleRotation::Zero));
        assert(m[10].0 == -d.0 && m[10].1 == -d.1);
    }
    if i == 2 {
        assert(target.x / 2 == q + 0);
        assert(target.x % 2 == 1);
        assert(right_triangle_rotation(target) == RightTriangleRotation::Two);
        assert(m == right_triangle_neighbors(RightTriangleRotation::Two));
        assert(m[10].0 == -d.0 && m[10].1 == -d.1);
    }
    if i == 3 {
        assert(target.x / 2 == q + 1);
        assert(target.x % 2 == 0);
        assert(right_triangle_rotation(target) == RightTriangleRotation::One);
        assert(m == right_triangle_neighbors(RightTriangleRotation::One));
        assert(m[10].0 == -d.0 && m[10].1 == -d.1);
    }
    if i == 4 {
        assert(target.x / 2 == q + 1);
        assert(target.x % 2 == 1);
        assert(right_triangle_rotation(target) == RightTriangleRotation::Three);
        assert(m == right_triangle_neighbors(RightTriangleRotation::Three));
        assert(m[9].0 == -d.0 && m[9].1 == -d.1);
    }
    if i == 5 {
        assert(target.x / 2 == q + -1);
        assert(target.x % 2 == 0);
        assert(right_triangle_rotation(target) == RightTriangleRotation::Zero);
        assert(m == right_triangle_neighbors(RightTriangleRotation::Zero));
        assert(m[7].0 == -d.0 && m[7].1 == -d.1);
    }
    if i == 6 {
        assert(target.x / 2 == q + -1);
        assert(target.x % 2 == 1);
        assert(right_triangle_rotation(target) == RightTriangleRotation::Two);
        assert(m == right_triangle_neighbors(RightTriangleRotation::Two));
        assert(m[8].0 == -d.0 && m[8].1 == -d.1);
    }
    if i == 7 {
        assert(target.x / 2 == q + 0);
        assert(target.x % 2 == 1);
        assert(right_triangle_rotation(target) == RightTriangleRotation::Three);
        assert(m == right_triangle_neighbors(RightTriangleRotation::Three));
        assert(m[6].0 == -d.0 && m[6].1 == -d.1);
    }
    if i == 8 {
        assert(target.x / 2 == q + 1);
        assert(target.x % 2 == 0);
        assert(right_triangle_rotation(target) == RightTriangleRotation::Zero);
        assert(m == right_triangle_neighbors(RightTriangleRotation::Zero));
        assert(m[4].0 == -d.0 && m[4].1 == -d.1);
    }
    if i == 9 {
        assert(target.x / 2 == q + 1);
        assert(target.x % 2 == 1);
        assert(right_triangle_rotation(target) == RightTriangleRotation::Two);
        assert(m == right_triangle_neighbors(RightTriangleRotation::Two));
        assert(m[5].0 == -d.0 && m[5].1 == -d.1);
    }
    if i == 10 {
        assert(target.x / 2 == q + -1);
        assert(target.x % 2 == 0);
        assert(right_triangle_rotation(target) == RightTriangleRotation::One);
        assert(m == right_triangle_neighbors(RightTriangleRotation::One));
        assert(m[3].0 == -d.0 && m[3].1 == -d.1);
    }
    if i == 11 {
        assert(target.x / 2 == q + -1);
        assert(target.x % 2 == 1);
        assert(right_triangle_rotation(target) == RightTriangleRotation::Three);
        assert(m == right_triangle_neighbors(RightTriangleRotation::Three));
        assert(m[2].0 == -d.0 && m[2].1 == -d.1);
    }
    if i == 12 {
        assert(target.x / 2 == q + 0);
        assert(target.x % 2 == 0);
        assert(right_triangle_rotation(target) == RightTriangleRotation::Zero);
        assert(m == right_triangle_neighbors(RightTriangleRotation::Zero));
        assert(m[2].0 == -d.0 && m[2].1 == -d.1);
    }
    if i == 13 {
        assert(target.x / 2 == q + 0);
        assert(target.x % 2 == 1);
        assert(right_triangle_rotation(target) == RightTriangleRotation::Two);
        assert(m == right_triangle_neighbors(RightTriangleRotation::Two));
        assert(m[2].0 == -d.0 && m[2].1 == -d.1);
    }
}

proof fn lemma_right_triangle_symmetric_two(t: Tiling, index: TileIndex, i: int)
    requires
        t.kind is RightTriangular,
        right_triangle_rotation(index) == RightTriangleRotation::Two,
        0 <= i < neighbors_of(t, index).len(),
        i32::MIN <= index.x + neighbors_of(t, index)[i].0 <= i32::MAX,
        i32::MIN <= index.y + neighbors_of(t, index)[i].1 <= i32::MAX,
    ensures
        touched_back(t, index, i),
{
    let n = neighbors_of(t, index);
    let d = n[i];
    let target = TileIndex { x: (index.x + d.0) as i32, y: (index.y + d.1) as i32 };
    let m = neighbors_of(t, target);
    let q = index.x / 2;
    assert(index.x == 2 * q + index.x % 2);
    assert(n == right_triangle_neighbors(RightTriangleRotation::Two));
    if i == 0 {
        assert(target.x / 2 == q + -1);
        assert(target.x % 2 == 0);
        assert(right_triangle_rotation(target) == RightTriangleRotation::Zero);
        assert(m == right_triangle_neighbors(RightTriangleRotation::Zero));
        assert(m[13].0 == -d.0 && m[13].1 == -d.1);
    }
    if i == 1 {
        assert(target.x / 2 == q + -1);
        assert(target.x % 2 == 1);
        assert(right_triangle_rotation(target) == RightTriangleRotation::Two);
        assert(m == right_triangle_neighbors(RightTriangleRotation::Two));
        assert(m[13].0 == -d.0 && m[13].1 == -d.1);
    }
    if i == 2 {
        assert(target.x / 2 == q + 0);
        assert(target.x % 2 == 0);
        assert(right_triangle_rotation(target) == RightTriangleRotation::One);
        assert(m == right_triangle_neighbors(RightTriangleRotation::One));
        assert(m[13].0 == -d.0 && m[13].1 == -d.1);
    }
    if i == 3 {
        assert(target.x / 2 == q + 0);
        assert(target.x % 2 == 1);
        assert(right_triangle_rotation(target) == RightTriangleRotation::Three);
        assert(m == right_triangle_neighbors(RightTriangleRotation::Three));
        assert(m[12].0 == -d.0 && m[12].1 == -d.1);
    }
    if i == 4 {
        assert(target.x / 2 == q + 1);
        assert(target.x % 2 == 0);
        assert(right_triangle_rotation(target) == RightTriangleRotation::Zero);
        assert(m == right_triangle_neighbors(RightTriangleRotation::Zero));
        assert(m[9].0 == -d.0 && m[9].1 == -d.1);
    }
    if i == 5 {
        assert(target.x / 2 == q + -1);
        assert(target.x % 2 == 0);
        assert(right_triangle_rotation(target) == RightTriangleRotation::One);
        assert(m == right_triangle_neighbors(RightTriangleRotation::One));
        assert(m[9].0 == -d.0 && m[9].1 == -d.1);
    }
    if i == 6 {
        assert(target.x / 2 == q + -1);
        assert(target.x % 2 == 1);
        assert(right_triangle_rotation(target) == RightTriangleRotation::Three);
        assert(m == right_triangle_neighbors(RightTriangleRotation::Three));
        assert(m[8].0 == -d.0 && m[8].1 == -d.1);
    }
    if i == 7 {
        assert(target.x / 2 == q + 0);
        assert(target.x % 2 == 0);
        assert(right_triangle_rotation(target) == RightTriangleRotation::Zero);
        assert(m == right_triangle_neighbors(RightTriangleRotation::Zero));
        assert(m[6].0 == -d.0 && m[6].1 == -d.1);
    }
    if i == 8 {
        assert(target.x / 2 == q + 1);
        assert(target.x % 2 == 0);
        assert(right_triangle_rotation(target) == RightTriangleRotation::One);
        assert(m == right_triangle_neighbors(RightTriangleRotation::One));
        assert(m[6].0 == -d.0 && m[6].1 == -d.1);
    }
    if i == 9 {
        assert(target.x / 2 == q + 1);
        assert(target.x % 2 == 1);
        assert(right_triangle_rotation(target) == RightTriangleRotation::Three);
        assert(m == right_triangle_neighbors(RightTriangleRotation::Three));
        assert(m[5].0 == -d.0 && m[5].1 == -d.1);
    }
    if i == 10 {
        assert(target.x / 2 == q + 0);
        assert(target.x % 2 == 0);
        assert(right_triangle_rotation(target) == RightTriangleRotation::One);
        assert(m == right_triangle_neighbors(RightTriangleRotation::One));
        assert(m[2].0 == -d.0 && m[2].1 == -d.1);
    }
    if i == 11 {
        assert(target.x / 2 == q + 0);
        assert(target.x % 2 == 1);
        assert(right_triangle_rotation(target) == RightTriangleRotation::Three);
        assert(m == right_triangle_neighbors(RightTriangleRotation::Three));
        assert(m[1].0 == -d.0 && m[1].1 == -d.1);
    }
    if i == 12 {
        assert(target.x / 2 == q + 1);
        assert(target.x % 2 == 0);
        assert(right_triangle_rotation(target) == RightTriangleRotation::Zero);
        assert(m == right_triangle_neighbors(RightTriangleRotation::Zero));
        assert(m[1].0 == -d.0 && m[1].1 == -d.1);
    }
    if i == 13 {
        assert(target.x / 2 == q + 1);
        assert(target.x % 2 == 1);
        assert(right_triangle_rotation(target) == RightTriangleRotation::Two);
        assert(m == right_triangle_neighbors(RightTriangleRotation::Two));
        assert(m[1].0 == -d.0 && m[1].1 == -d.1);
    }
}

proof fn lemma_right_triangle_symmetric_three(t: Tiling, index: TileIndex, i: int)
    requires
        t.kind is RightTriangular,
        right_triangle_rotation(index) == RightTriangleRotation::Three,
        0 <= i < neighbors_of(t, index).len(),
        i32::MIN <= index.x + neighbors_of(t, index)[i].0 <= i32::MAX,
        i32::MIN <= index.y + neighbors_of(t, index)[i].1 <= i32::MAX,
    ensures
        touched_back(t, index, i),
{
    let n = neighbors_of(t, index);
    let d = n[i];
    let target = TileIndex { x: (index.x + d.0) as i32, y: (index.y + d.1) as i32 };
    let m = neighbors_of(t, target);
    let q = index.x / 2;
    assert(index.x == 2 * q + index.x % 2);
    assert(n == right_triangle_neighbors(RightTriangleRotation::Three));
    if i == 0 {
        assert(target.x / 2 == q + 0);
        assert(target.x % 2 == 0);
        assert(right_triangle_rotation(target) == RightTriangleRotation::Zero);
        assert(m == right_triangle_neighbors(RightTriangleRotation::Zero));
        assert(m[11].0 == -d.0 && m[11].1 == -d.1);
    }
    if i == 1 {
        assert(target.x / 2 == q + 0);
        assert(target.x % 2 == 1);
        assert(right_triangle_rotation(target) == RightTriangleRotation::Two);
        assert(m == right_triangle_neighbors(RightTriangleRotation::Two));
        assert(m[11].0 == -d.0 && m[11].1 == -d.1);
    }
    if i == 2 {
        assert(target.x / 2 == q + 1);
        assert(target.x % 2 == 0);
        assert(right_triangle_rotation(target) == RightTriangleRotation::One);
        assert(m == right_triangle_neighbors(RightTriangleRotation::One));
        assert(m[11].0 == -d.0 && m[11].1 == -d.1);
    }
    if i == 3 {
        assert(target.x / 2 == q + 1);
        assert(target.x % 2 == 1);
        assert(right_triangle_rotation(target) == RightTriangleRotation::Three);
        assert(m == right_triangle_neighbors(RightTriangleRotation::Three));
        assert(m[10].0 == -d.0 && m[10].1 == -d.1);
    }
    if i == 4 {
        assert(target.x / 2 == q + -1);
        assert(target.x % 2 == 0);
        assert(right_triangle_rotation(target) == RightTriangleRotation::Zero);
        assert(m == right_triangle_neighbors(RightTriangleRotation::Zero));
        assert(m[8].0 == -d.0 && m[8].1 == -d.1);
    }
    if i == 5 {
        assert(target.x / 2 == q + -1);
        assert(target.x % 2 == 1);
        assert(right_triangle_rotation(target) == RightTriangleRotation::Two);
        assert(m == right_triangle_neighbors(RightTriangleRotation::Two));
        assert(m[9].0 == -d.0 && m[9].1 == -d.1);
    }
    if i == 6 {
        assert(target.x / 2 == q + 0);
        assert(target.x % 2 == 0);
        assert(right_triangle_rotation(target) == RightTriangleRotation::One);
        assert(m == right_triangle_neighbors(RightTriangleRotation::One));
        assert(m[7].0 == -d.0 && m[7].1 == -d.1);
    }
    if i == 7 {
        assert(target.x / 2 == q + 1);
        assert(target.x % 2 == 0);
        assert(right_triangle_rotation(target) == RightTriangleRotation::Zero);
        assert(m == right_triangle_neighbors(RightTriangleRotation::Zero));
        assert(m[5].0 == -d.0 && m[5].1 == -d.1);
    }
    if i == 8 {
        assert(target.x / 2 == q + 1);
        assert(target.x % 2 == 1);
        assert(right_triangle_rotation(target) == RightTriangleRotation::Two);
        assert(m == right_triangle_neighbors(RightTriangleRotation::Two));
        assert(m[6].0 == -d.0 && m[6].1 == -d.1);
    }
    if i == 9 {
        assert(target.x / 2 == q + -1);
        assert(target.x % 2 == 0);
        assert(right_triangle_rotation(target) == RightTriangleRotation::One);
        assert(m == right_triangle_neighbors(RightTriangleRotation::One));
        assert(m[4].0 == -d.0 && m[4].1 == -d.1);
    }
    if i == 10 {
        assert(target.x / 2 == q + -1);
        assert(target.x % 2 == 1);
        assert(right_triangle_rotation(target) == RightTriangleRotation::Three);
        assert(m == right_triangle_neighbors(RightTriangleRotation::Three));
        assert(m[3].0 == -d.0 && m[3].1 == -d.1);
    }
    if i == 11 {
        assert(target.x / 2 == q + 0);
        assert(target.x % 2 == 0);
        assert(right_triangle_rotation(target) == RightTriangleRotation::Zero);
        assert(m == right_triangle_neighbors(RightTriangleRotation::Zero));
        assert(m[3].0 == -d.0 && m[3].1 == -d.1);
    }
    if i == 12 {
        assert(target.x / 2 == q + 0);
        assert(target.x % 2 == 1);
        assert(right_triangle_rotation(target) == RightTriangleRotation::Two);
        assert(m == right_triangle_neighbors(RightTriangleRotation::Two));
        assert(m[3].0 == -d.0 && m[3].1 == -d.1);
    }
    if i == 13 {
        assert(target.x / 2 == q + 1);
        assert(target.x % 2 == 0);
        assert(right_triangle_rotation(target) == RightTriangleRotation::One);
        assert(m == right_triangle_neighbors(RightTriangleRotation::One));
        assert(m[0].0 == -d.0 && m[0].1 == -d.1);
    }
}

/// Touching is symmetric on every tiling: the tile reached from `index` by one of its
/// offsets reaches `index` back by the opposite offset.
pub proof fn law_touching_is_symmetric(t: Tiling, index: TileIndex, i: int)
    requires
        0 <= i < neighbors_of(t, index).len(),
        i32::MIN <= index.x + neighbors_of(t, index)[i].0 <= i32::MAX,
        i32::MIN <= index.y + neighbors_of(t, index)[i].1 <= i32::MAX,
    ensures
        touched_back(t, index, i),
{
    let n = neighbors_of(t, index);
    let d = n[i];
    let target = TileIndex { x: (index.x + d.0) as i32, y: (index.y + d.1) as i32 };
    match t.kind {
        TilingKind::Square | TilingKind::Hexagonal => {
            law_neighbors_are_symmetric(t, index, i);
            assert(neighbors_of(t, target) == n);
            let j = choose|j: int| 0 <= j < n.len() && (#[trigger] n[j]).0 == -d.0 && n[j].1 == -d.1;
            assert(neighbors_of(t, target)[j] == n[j]);
        },
        TilingKind::OctagonAndSquare => lemma_octagon_square_symmetric(t, index, i),
        TilingKind::EquilateralTriangular => lemma_triangle_symmetric(t, index, i),
        TilingKind::RightTriangular => match right_triangle_rotation(index) {
            RightTriangleRotation::Zero => lemma_right_triangle_symmetric_zero(t, index, i),
            RightTriangleRotation::One => lemma_right_triangle_symmetric_one(t, index, i),
            RightTriangleRotation::Two => lemma_right_triangle_symmetric_two(t, index, i),
            RightTriangleRotation::Three => lemma_right_triangle_symmetric_three(t, index, i),
        },
    }
}

/// The dual swaps the shapes of a tiling: taking the dual twice gives back the kind
/// of tiling, and only the square tiling is its own dual (hexagons and triangles
/// swap, and so do octagons-and-squares and right triangles).
pub proof fn law_dual_swaps_kinds(t: Tiling)
    ensures
        dual_of(dual_of(t)).kind == t.kind,
        (dual_of(t).kind == t.kind) == (t.kind is Square),
{
}

/// On a square tiling the dual's tiles are the corners of the tiles: every corner of
/// every tile is a tile of the dual, every tile of the dual is a corner of some tile,
/// and the corners of a dual tile that lie inside the tiling are its tiles.
pub proof fn law_square_dual_tiles_are_corners(t: Tiling, index: TileIndex, k: int, d: TileIndex)
    requires
        t.kind is Square,
        t.max_index.x < i32::MAX,
        t.max_index.y < i32::MAX,
        0 <= k < 4,
    ensures
        index_in_bounds(t, index) ==> index_in_bounds(dual_of(t), square_vertices(index, false)[k]),
        index_in_bounds(dual_of(t), d) && t.max_index.x > 0 && t.max_index.y > 0 ==> exists|c: TileIndex, j: int|
            index_in_bounds(t, c) && 0 <= j < 4 && #[trigger] square_vertices(c, false)[j] == d,
{
    if index_in_bounds(dual_of(t), d) && t.max_index.x > 0 && t.max_index.y > 0 {
        let cx: int = if d.x == t.max_index.x { d.x - 1 } else { d.x as int };
        let cy: int = if d.y == t.max_index.y { d.y - 1 } else { d.y as int };
        let c = TileIndex { x: cx as i32, y: cy as i32 };
        let j: int = if d.x == cx && d.y == cy { 0 } else if d.y == cy { 1 } else if d.x == cx { 3 } else { 2 };
        assert(index_in_bounds(t, c));
        assert(square_vertices(c, false)[j] == d);
    }
}

} // verus!
