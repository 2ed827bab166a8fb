use vstd::prelude::*;

use super::handles::{lemma_popcount_single_bit, popcount};

verus! {

/// How a piece of geometry is placed on a tile: turned by a number of sides, and
/// possibly mirrored.
#[derive(Clone, Copy, PartialEq, Eq, Hash, Debug, Structural)]
pub enum GeomOrientation {
    Standard { rotations: usize },
    Flipped { rotations: usize },
}

impl Default for GeomOrientation {
    fn default() -> (r: Self)
        ensures
            r == (GeomOrientation::Standard { rotations: 0 }),
    {
        GeomOrientation::Standard { rotations: 0 }
    }
}

/// The single bit position that an orientation occupies in an orientation mask:
/// standard orientations count up from the lowest bit, flipped ones down from the
/// highest bit.
pub open spec fn bit_position(o: GeomOrientation) -> int {
    match o {
        GeomOrientation::Standard { rotations } => rotations as int,
        GeomOrientation::Flipped { rotations } => usize::BITS - 1 - rotations,
    }
}

/// The mask with only bit `b` set.
pub open spec fn single_bit(b: usize) -> usize {
    1usize << b
}

/// An orientation fits in a mask when its bit position is inside a `usize`.
pub open spec fn fits_in_mask(o: GeomOrientation) -> bool {
    o.spec_rotations() < usize::BITS
}

/// Euclidean position of `in_index` after applying the orientation to a sequence of
/// `max_index` entries.
pub open spec fn index_in_sequence(o: GeomOrientation, in_index: int, max_index: int, is_corner: bool) -> int {
    match o {
        GeomOrientation::Standard { rotations } => (in_index + rotations) % max_index,
        GeomOrientation::Flipped { rotations } =>
            (4 * max_index - (if is_corner { 1int } else { 2int }) - in_index + rotations) % max_index,
    }
}

/// Whether `get_index_in_sequence` can compute its value without any overflow.
pub open spec fn index_in_sequence_defined(o: GeomOrientation, in_index: int, max_index: int, is_corner: bool) -> bool {
    &&& max_index > 0
    &&& match o {
        GeomOrientation::Standard { rotations } => in_index + rotations <= usize::MAX,
        GeomOrientation::Flipped { rotations } => {
            &&& 4 * max_index <= usize::MAX
            &&& in_index + (if is_corner { 1int } else { 2int }) <= 4 * max_index
            &&& 4 * max_index - (if is_corner { 1int } else { 2int }) - in_index + rotations <= usize::MAX
        },
    }
}

/// The candidates that `from_bits` walks through, in order: first the standard
/// orientations, then the flipped ones.
pub open spec fn candidate(i: int, max_rotations: int) -> GeomOrientation {
    if i < max_rotations {
        GeomOrientation::Standard { rotations: i as usize }
    } else {
        GeomOrientation::Flipped { rotations: (i - max_rotations) as usize }
    }
}

/// The orientations among the first `n` candidates whose bit is set in `bits`.
pub open spec fn orientations_in_bits(bits: usize, max_rotations: int, n: int) -> Seq<GeomOrientation>
    decreases n,
{
    if n <= 0 {
        Seq::empty()
    } else {
        let prev = orientations_in_bits(bits, max_rotations, n - 1);
        let c = candidate(n - 1, max_rotations);
        if c.spec_to_bits() & bits != 0 {
            prev.push(c)
        } else {
            prev
        }
    }
}

pub open spec fn compose_spec(a: GeomOrientation, b: GeomOrientation, max_sides: int) -> GeomOrientation {
    let r = ((a.spec_rotations() + b.spec_rotations()) % max_sides) as usize;
    if a.spec_is_reversed() == b.spec_is_reversed() {
        GeomOrientation::Standard { rotations: r }
    } else {
        GeomOrientation::Flipped { rotations: r }
    }
}

pub open spec fn inverse_spec(o: GeomOrientation, max_sides: int) -> GeomOrientation {
    match o {
        GeomOrientation::Standard { rotations } =>
            GeomOrientation::Standard { rotations: ((max_sides - rotations) % max_sides) as usize },
        GeomOrientation::Flipped { rotations } =>
            GeomOrientation::Flipped { rotations: ((max_sides - rotations) % max_sides) as usize },
    }
}

impl GeomOrientation {
    pub open spec fn spec_rotations(self) -> usize {
        match self {
            GeomOrientation::Standard { rotations } => rotations,
            GeomOrientation::Flipped { rotations } => rotations,
        }
    }

    pub open spec fn spec_is_reversed(self) -> bool {
        self is Flipped
    }

    pub open spec fn spec_to_bits(self) -> usize {
        single_bit(bit_position(self) as usize)
    }

    pub fn get_index_in_sequence(&self, in_index: usize, max_index: usize, is_corner: bool) -> (r: usize)
        requires
            index_in_sequence_defined(*self, in_index as int, max_index as int, is_corner),
        ensures
            r == index_in_sequence(*self, in_index as int, max_index as int, is_corner),
            r < max_index,
    {
        match self {
            GeomOrientation::Standard { rotations } => (in_index + *rotations) % max_index,
            GeomOrientation::Flipped { rotations } => {
                (4 * max_index - if is_corner { 1 } else { 2 } - in_index + *rotations) % max_index
            },
        }
    }

    pub fn is_reversed(&self) -> (r: bool)
        ensures
            r == self.spec_is_reversed(),
    {
        match self {
            GeomOrientation::Standard { .. } => false,
            GeomOrientation::Flipped { .. } => true,
        }
    }

    pub fn rotations(&self) -> (r: usize)
        ensures
            r == self.spec_rotations(),
    {
        match self {
            GeomOrientation::Standard { rotations } => *rotations,
            GeomOrientation::Flipped { rotations } => *rotations,
        }
    }

    pub fn to_bits(self) -> (r: usize)
        requires
            fits_in_mask(self),
        ensures
            r == self.spec_to_bits(),
            r != 0,
    {
        let b: usize = match self {
            GeomOrientation::Standard { rotations } => rotations,
            GeomOrientation::Flipped { rotations } => usize::BITS as usize - 1 - rotations,
        };
        proof {
            lemma_single_bit_nonzero(b);
        }
        1usize << b
    }
}

impl GeomOrientation {
    /// All orientations, standard ones first, whose bit is set in `bits`.
    pub fn from_bits(bits: usize, max_rotations: usize) -> (r: Vec<GeomOrientation>)
        requires
            max_rotations <= usize::BITS,
        ensures
            r@ == orientations_in_bits(bits, max_rotations as int, 2 * max_rotations),
    {
        let mut out: Vec<GeomOrientation> = Vec::new();
        let mut rotation: usize = 0;
        while rotation < 2 * max_rotations
            invariant
                max_rotations <= usize::BITS,
                rotation <= 2 * max_rotations,
                out@ == orientations_in_bits(bits, max_rotations as int, rotation as int),
            decreases 2 * max_rotations - rotation,
        {
            let transform = if rotation < max_rotations {
                GeomOrientation::Standard { rotations: rotation }
            } else {
                GeomOrientation::Flipped { rotations: rotation - max_rotations }
            };
            if transform.to_bits() & bits != 0 {
                out.push(transform);
            }
            rotation = rotation + 1;
        }
        out
    }

    /// The orientation that undoes this one on a shape with `max_sides` sides.
    pub fn inverse(&self, max_sides: usize) -> (r: GeomOrientation)
        requires
            max_sides > 0,
            self.spec_rotations() <= max_sides,
        ensures
            r == inverse_spec(*self, max_sides as int),
    {
        match self {
            GeomOrientation::Standard { rotations } => GeomOrientation::Standard {
                rotations: (max_sides - *rotations) % max_sides,
            },
            GeomOrientation::Flipped { rotations } => GeomOrientation::Flipped {
                rotations: (max_sides - *rotations) % max_sides,
            },
        }
    }

    /// Apply `other` after this orientation on a shape with `max_sides` sides.
    pub fn compose(&self, other: GeomOrientation, max_sides: usize) -> (r: GeomOrientation)
        requires
            max_sides > 0,
            self.spec_rotations() + other.spec_rotations() <= usize::MAX,
        ensures
            r == compose_spec(*self, other, max_sides as int),
    {
        match (self, other) {
            (GeomOrientation::Standard { rotations: rot1 }, GeomOrientation::Standard { rotations: rot2 }) =>
                GeomOrientation::Standard { rotations: (*rot1 + rot2) % max_sides },
            (GeomOrientation::Standard { rotations: rot1 }, GeomOrientation::Flipped { rotations: rot2 }) =>
                GeomOrientation::Flipped { rotations: (*rot1 + rot2) % max_sides },
            (GeomOrientation::Flipped { rotations: rot1 }, GeomOrientation::Flipped { rotations: rot2 }) =>
                GeomOrientation::Standard { rotations: (*rot1 + rot2) % max_sides },
            (GeomOrientation::Flipped { rotations: rot1 }, GeomOrientation::Standard { rotations: rot2 }) =>
                GeomOrientation::Flipped { rotations: (*rot1 + rot2) % max_sides },
        }
    }
}

pub proof fn lemma_single_bit_nonzero(b: usize)
    requires
        b < usize::BITS,
    ensures
        single_bit(b) != 0,
{
    assert(b < usize::BITS ==> (1usize << b) != 0) by (bit_vector);
}

pub proof fn lemma_single_bits_overlap(p: usize, q: usize)
    requires
        p < usize::BITS,
        q < usize::BITS,
    ensures
        (single_bit(p) & single_bit(q) != 0) == (p == q),
{
    assert(p < usize::BITS && q < usize::BITS ==> (((1usize << p) & (1usize << q) != 0) == (p == q))) by (bit_vector);
}

/// Undoing an orientation and then applying it again, in either order, gives the
/// identity orientation.
pub proof fn law_inverse_composes_to_identity(o: GeomOrientation, max_sides: usize)
    requires
        max_sides > 0,
        o.spec_rotations() < max_sides,
    ensures
        compose_spec(inverse_spec(o, max_sides as int), o, max_sides as int)
            == (GeomOrientation::Standard { rotations: 0 }),
        compose_spec(o, inverse_spec(o, max_sides as int), max_sides as int)
            == (GeomOrientation::Standard { rotations: 0 }),
{
    let m = max_sides as int;
    let r = o.spec_rotations() as int;
    vstd::arithmetic::div_mod::lemma_mod_self_0(m);
    let inv = inverse_spec(o, m);
    if r == 0 {
        assert((m - r) % m == 0);
        assert(inv.spec_rotations() == 0);
        vstd::arithmetic::div_mod::lemma_small_mod(0, m as nat);
    } else {
        vstd::arithmetic::div_mod::lemma_small_mod((m - r) as nat, m as nat);
        assert((m - r) % m == m - r);
        assert(inv.spec_rotations() == m - r);
        assert(inv.spec_rotations() + r == m);
        assert(r + inv.spec_rotations() == m);
    }
}

/// Inverting an orientation twice gives the orientation back.
pub proof fn law_inverse_is_involutive(o: GeomOrientation, max_sides: usize)
    requires
        max_sides > 0,
        o.spec_rotations() < max_sides,
    ensures
        inverse_spec(inverse_spec(o, max_sides as int), max_sides as int) == o,
{
    let m = max_sides as int;
    let r = o.spec_rotations() as int;
    vstd::arithmetic::div_mod::lemma_mod_self_0(m);
    vstd::arithmetic::div_mod::lemma_small_mod(r as nat, m as nat);
    if r == 0 {
        assert((m - r) % m == 0);
        assert((m - 0) % m == 0);
    } else {
        vstd::arithmetic::div_mod::lemma_small_mod((m - r) as nat, m as nat);
        assert((m - (m - r)) % m == r);
    }
}

/// Composition of orientations is associative.
pub proof fn law_compose_is_associative(a: GeomOrientation, b: GeomOrientation, c: GeomOrientation, max_sides: usize)
    requires
        max_sides > 0,
    ensures
        compose_spec(compose_spec(a, b, max_sides as int), c, max_sides as int)
            == compose_spec(a, compose_spec(b, c, max_sides as int), max_sides as int),
{
    let m = max_sides as int;
    let (ra, rb, rc) = (a.spec_rotations() as int, b.spec_rotations() as int, c.spec_rotations() as int);
    vstd::arithmetic::div_mod::lemma_add_mod_noop_right(rc, ra + rb, m);
    vstd::arithmetic::div_mod::lemma_add_mod_noop_right(ra, rb + rc, m);
    assert(rc + (ra + rb) == ra + (rb + rc));
    assert((ra + rb) % m + rc == rc + (ra + rb) % m);
    vstd::arithmetic::div_mod::lemma_mod_pos_bound(ra + rb, m);
    vstd::arithmetic::div_mod::lemma_mod_pos_bound(rb + rc, m);
    let ab = compose_spec(a, b, m);
    let bc = compose_spec(b, c, m);
    assert(ab.spec_rotations() == (ra + rb) % m);
    assert(bc.spec_rotations() == (rb + rc) % m);
    assert(compose_spec(ab, c, m).spec_rotations() == compose_spec(a, bc, m).spec_rotations());
}

/// Composition of orientations is commutative.
pub proof fn law_compose_is_commutative(a: GeomOrientation, b: GeomOrientation, max_sides: usize)
    requires
        max_sides > 0,
    ensures
        compose_spec(a, b, max_sides as int) == compose_spec(b, a, max_sides as int),
{
    assert(a.spec_rotations() + b.spec_rotations() == b.spec_rotations() + a.spec_rotations());
}

/// A standard orientation moves sequence positions around, and its inverse moves
/// them back.
pub proof fn law_standard_index_inverse(rotations: usize, i: int, max_index: usize, is_corner: bool)
    requires
        max_index > 0,
        rotations < max_index,
        0 <= i < max_index,
    ensures
        index_in_sequence(
            inverse_spec(GeomOrientation::Standard { rotations }, max_index as int),
            index_in_sequence(GeomOrientation::Standard { rotations }, i, max_index as int, is_corner),
            max_index as int,
            is_corner,
        ) == i,
{
    let m = max_index as int;
    let r = rotations as int;
    let j = (i + r) % m;
    vstd::arithmetic::div_mod::lemma_mod_self_0(m);
    vstd::arithmetic::div_mod::lemma_mod_pos_bound(i + r, m);
    vstd::arithmetic::div_mod::lemma_small_mod(i as nat, m as nat);
    let s = (m - r) % m;
    if r == 0 {
        assert(s == 0);
        vstd::arithmetic::div_mod::lemma_mod_twice(i, m);
    } else {
        vstd::arithmetic::div_mod::lemma_small_mod((m - r) as nat, m as nat);
        vstd::arithmetic::div_mod::lemma_add_mod_noop(i + r, m - r, m);
        vstd::arithmetic::div_mod::lemma_mod_twice(m - r, m);
        vstd::arithmetic::div_mod::lemma_mod_add_multiples_vanish(i, m);
        assert(i + r + (m - r) == i + m);
    }
}

/// A flipped orientation mirrors sequence positions: applying it twice gives every
/// position back.
pub proof fn law_flipped_index_is_involutive(rotations: usize, i: int, max_index: usize, is_corner: bool)
    requires
        max_index > 0,
        0 <= i < max_index,
    ensures
        index_in_sequence(
            GeomOrientation::Flipped { rotations },
            index_in_sequence(GeomOrientation::Flipped { rotations }, i, max_index as int, is_corner),
            max_index as int,
            is_corner,
        ) == i,
{
    let m = max_index as int;
    let r = rotations as int;
    let c: int = if is_corner { 1 } else { 2 };
    let x = 4 * m - c - i + r;
    let j = x % m;
    vstd::arithmetic::div_mod::lemma_fundamental_div_mod(x, m);
    let q = x / m;
    assert(x == m * q + j);
    let y = 4 * m - c - j + r;
    // y == 8m - 2c + 2r - x - ... : y = 4m - c + r - (x - m*q) = i + m*q
    assert(y == i + m * q);
    vstd::arithmetic::div_mod::lemma_mod_multiples_vanish(q, i, m);
    vstd::arithmetic::div_mod::lemma_small_mod(i as nat, m as nat);
    assert(m * q + i == i + m * q);
}

/// Every orientation that fits a mask of `max_rotations` rotations on each side is
/// recovered alone from its own bit.
pub proof fn law_from_bits_recovers_orientation(o: GeomOrientation, max_rotations: usize)
    requires
        2 * max_rotations <= usize::BITS,
        o.spec_rotations() < max_rotations,
    ensures
        orientations_in_bits(o.spec_to_bits(), max_rotations as int, 2 * max_rotations as int) == seq![o],
{
    let m = max_rotations as int;
    let pos: int = if o is Standard { o.spec_rotations() as int } else { m + o.spec_rotations() };
    assert(candidate(pos, m) == o);
    lemma_orientations_in_bits_single(o, m, 2 * m, pos);
}

proof fn lemma_orientations_in_bits_single(o: GeomOrientation, m: int, n: int, pos: int)
    requires
        2 * m <= usize::BITS,
        0 <= pos < 2 * m,
        candidate(pos, m) == o,
        0 <= n <= 2 * m,
    ensures
        orientations_in_bits(o.spec_to_bits(), m, n) == (if n <= pos { Seq::<GeomOrientation>::empty() } else { seq![o] }),
    decreases n,
{
    if n > 0 {
        lemma_orientations_in_bits_single(o, m, n - 1, pos);
        let c = candidate(n - 1, m);
        let pc = bit_position(c);
        let po = bit_position(o);
        assert(0 <= pc < usize::BITS);
        assert(0 <= po < usize::BITS);
        lemma_single_bits_overlap(pc as usize, po as usize);
        if n - 1 == pos {
            assert(c.spec_to_bits() & o.spec_to_bits() != 0);
            assert(Seq::<GeomOrientation>::empty().push(o) == seq![o]);
        } else {
            assert(pc != po);
        }
    }
}

/// An orientation's mask has exactly one bit set; and two orientations whose
/// rotation counts are below half the word size have the same mask only when they
/// are the same orientation.
pub proof fn law_to_bits_is_one_distinct_bit(a: GeomOrientation, b: GeomOrientation)
    requires
        2 * a.spec_rotations() < usize::BITS,
        2 * b.spec_rotations() < usize::BITS,
    ensures
        popcount(a.spec_to_bits()) == 1,
        (a.spec_to_bits() == b.spec_to_bits()) == (a == b),
{
    let pa = bit_position(a) as usize;
    let pb = bit_position(b) as usize;
    assert(pa < usize::BITS && a.spec_to_bits() == single_bit(pa));
    lemma_popcount_single_bit(a.spec_to_bits());
    lemma_single_bits_overlap(pa, pb);
    lemma_single_bits_overlap(pa, pa);
    if a.spec_to_bits() == b.spec_to_bits() {
        assert(pa == pb);
    }
}

/// The orientation that puts back the positions that `o` moves: the inverse of a
/// standard orientation, and a flipped orientation itself.
pub open spec fn sequence_inverse(o: GeomOrientation, max_sides: int) -> GeomOrientation {
    if o is Standard { inverse_spec(o, max_sides) } else { o }
}

/// On a sequence of `n` positions, an orientation with fewer than `n` rotations sends
/// positions `0..n` onto `0..n`, each position to its own place.
pub proof fn law_index_in_sequence_is_bijective(o: GeomOrientation, n: usize, is_corner: bool)
    requires
        n > 0,
        o.spec_rotations() < n,
    ensures
        forall|i: int| 0 <= i < n ==> 0 <= #[trigger] index_in_sequence(o, i, n as int, is_corner) < n,
        forall|i: int, j: int| 0 <= i < n && 0 <= j < n
            && #[trigger] index_in_sequence(o, i, n as int, is_corner) == #[trigger] index_in_sequence(o, j, n as int, is_corner)
            ==> i == j,
        forall|k: int| 0 <= k < n ==> {
            let i = #[trigger] index_in_sequence(sequence_inverse(o, n as int), k, n as int, is_corner);
            0 <= i < n && index_in_sequence(o, i, n as int, is_corner) == k
        },
{
    let m = n as int;
    let back = sequence_inverse(o, m);
    assert forall|i: int| 0 <= i < n implies 0 <= #[trigger] index_in_sequence(o, i, m, is_corner) < n by {
        match o {
            GeomOrientation::Standard { rotations } => {
                vstd::arithmetic::div_mod::lemma_mod_pos_bound(i + rotations, m);
            },
            GeomOrientation::Flipped { rotations } => {
                let c: int = if is_corner { 1 } else { 2 };
                vstd::arithmetic::div_mod::lemma_mod_pos_bound(4 * m - c - i + rotations, m);
            },
        }
    }
    assert forall|i: int| 0 <= i < n implies index_in_sequence(back, #[trigger] index_in_sequence(o, i, m, is_corner), m, is_corner) == i by {
        match o {
            GeomOrientation::Standard { rotations } => law_standard_index_inverse(rotations, i, n, is_corner),
            GeomOrientation::Flipped { rotations } => law_flipped_index_is_involutive(rotations, i, n, is_corner),
        }
    }
    assert forall|k: int| 0 <= k < n implies {
        let i = #[trigger] index_in_sequence(sequence_inverse(o, m), k, m, is_corner);
        0 <= i < n && index_in_sequence(o, i, m, is_corner) == k
    } by {
        match o {
            GeomOrientation::Standard { rotations } => {
                let r = rotations as int;
                let inv = inverse_spec(o, m);
                let s = ((m - r) % m) as usize;
                vstd::arithmetic::div_mod::lemma_mod_pos_bound(m - r, m);
                assert(inv == (GeomOrientation::Standard { rotations: s }));
                law_inverse_is_involutive(o, n);
                assert(inverse_spec(inv, m) == o);
                law_standard_index_inverse(s, k, n, is_corner);
                let i = index_in_sequence(inv, k, m, is_corner);
                vstd::arithmetic::div_mod::lemma_mod_pos_bound(k + s, m);
                assert(index_in_sequence(o, i, m, is_corner) == k);
            },
            GeomOrientation::Flipped { rotations } => {
                law_flipped_index_is_involutive(rotations, k, n, is_corner);
                let i = index_in_sequence(o, k, m, is_corner);
                let c: int = if is_corner { 1 } else { 2 };
                vstd::arithmetic::div_mod::lemma_mod_pos_bound(4 * m - c - k + rotations, m);
                assert(index_in_sequence(o, i, m, is_corner) == k);
            },
        }
    }
}

} // verus!
