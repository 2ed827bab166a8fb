use vstd::prelude::*;

use super::orientations::GeomOrientation;

verus! {

/// The position of a side profile in the list of known side profiles.
#[derive(Clone, Copy, PartialEq, Eq, Hash, Debug, Structural)]
pub struct WallProfileIndex(pub u8);

/// The position of a top or bottom profile in the list of known layer profiles.
#[derive(Clone, Copy, PartialEq, Eq, Hash, Debug, Structural)]
pub struct LayerProfileIndex(pub u8);

/// Whether bit `i` of `bits` is set.
pub open spec fn bit_set(bits: u128, i: int) -> bool {
    (bits >> (i as u128)) & 1u128 == 1u128
}

/// The positions below `n` of the set bits of `bits`, in ascending order.
pub open spec fn bit_positions(bits: u128, n: int) -> Seq<u8>
    decreases n,
{
    if n <= 0 {
        Seq::empty()
    } else if bit_set(bits, n - 1) {
        bit_positions(bits, n - 1).push((n - 1) as u8)
    } else {
        bit_positions(bits, n - 1)
    }
}

/// The side profiles whose bits are set in a mask, in ascending order.
pub open spec fn wall_indices_in_bits(bits: u128) -> Seq<WallProfileIndex> {
    bit_positions(bits, 128).map_values(|i: u8| WallProfileIndex(i))
}

/// The layer profiles whose bits are set in a mask, in ascending order.
pub open spec fn layer_indices_in_bits(bits: u128) -> Seq<LayerProfileIndex> {
    bit_positions(bits, 128).map_values(|i: u8| LayerProfileIndex(i))
}

proof fn lemma_shift_once(bits: u128, p: u128)
    requires
        p < 128,
    ensures
        (bits >> p) >> 1u128 == bits >> ((p + 1) as u128),
        ((bits >> p) & 1u128 != 0) == bit_set(bits, p as int),
        (bits >> p) > 0 || (bits >> p) == 0,
{
    assert(p < 128 ==> (bits >> p) >> 1u128 == bits >> ((p + 1) as u128)) by (bit_vector);
    assert(((bits >> p) & 1u128 != 0) == ((bits >> p) & 1u128 == 1u128)) by (bit_vector);
}

proof fn lemma_no_bits_above(bits: u128, p: int, n: int)
    requires
        0 <= p <= n <= 128,
        p < 128 ==> bits >> (p as u128) == 0,
    ensures
        bit_positions(bits, n) == bit_positions(bits, p),
    decreases n - p,
{
    if n > p {
        lemma_no_bits_above(bits, p, n - 1);
        let q = p as u128;
        let i = (n - 1) as u128;
        assert(q <= i && i < 128 && (bits >> q) == 0 ==> (bits >> i) & 1u128 == 0) by (bit_vector);
    }
}

/// The positions of the set bits of `bits`, lowest first.
fn positions_of(bits: u128) -> (r: Vec<u8>)
    ensures
        r@ == bit_positions(bits, 128),
{
    let mut rest = bits;
    let mut position: u8 = 0;
    let mut out: Vec<u8> = Vec::new();
    proof {
        let b = bits;
        assert(b >> 0u128 == b) by (bit_vector);
    }
    while rest > 0
        invariant
            position <= 128,
            position == 128 ==> rest == 0,
            position < 128 ==> rest == bits >> (position as u128),
            out@ == bit_positions(bits, position as int),
        decreases 128 - position,
    {
        proof {
            lemma_shift_once(bits, position as u128);
        }
        if (rest & 1) != 0 {
            out.push(position);
        }
        rest = rest >> 1;
        position = position + 1;
        proof {
            if position == 128 {
                let b = bits;
                assert((b >> 127u128) >> 1u128 == 0) by (bit_vector);
            }
        }
    }
    proof {
        lemma_no_bits_above(bits, position as int, 128);
    }
    out
}

impl WallProfileIndex {
    /// The index `index`, kept in a byte (larger values wrap).
    pub fn new(index: usize) -> (r: Self)
        ensures
            r.0 == index as u8,
    {
        Self(index as u8)
    }

    pub fn index(&self) -> (r: usize)
        ensures
            r == self.0,
    {
        self.0 as usize
    }

    /// The mask with only this profile's bit set.
    pub fn to_bits(self) -> (r: u128)
        requires
            self.0 < 128,
        ensures
            r == 1u128 << self.0,
    {
        1u128 << self.0
    }

    /// The profiles whose bits are set in `bits`, in ascending order.
    pub fn from_bits(bits: u128) -> (r: Vec<WallProfileIndex>)
        ensures
            r@ == wall_indices_in_bits(bits),
    {
        let positions = positions_of(bits);
        let mut profiles: Vec<WallProfileIndex> = Vec::new();
        let mut i: usize = 0;
        while i < positions.len()
            invariant
                i <= positions@.len(),
                profiles@ == positions@.subrange(0, i as int).map_values(|p: u8| WallProfileIndex(p)),
            decreases positions@.len() - i,
        {
            profiles.push(WallProfileIndex(positions[i]));
            i = i + 1;
            proof {
                assert(positions@.subrange(0, i as int) == positions@.subrange(0, i - 1).push(positions@[i - 1]));
            }
        }
        proof {
            assert(positions@.subrange(0, i as int) == positions@);
        }
        profiles
    }
}

impl LayerProfileIndex {
    /// The index `index`, kept in a byte (larger values wrap).
    pub fn new(index: usize) -> (r: Self)
        ensures
            r.0 == index as u8,
    {
        Self(index as u8)
    }

    /// The mask with only this profile's bit set.
    pub fn to_bits(self) -> (r: u128)
        requires
            self.0 < 128,
        ensures
            r == 1u128 << self.0,
    {
        1u128 << self.0
    }

    /// The profiles whose bits are set in `bits`, in ascending order.
    pub fn from_bits(bits: u128) -> (r: Vec<LayerProfileIndex>)
        ensures
            r@ == layer_indices_in_bits(bits),
    {
        let positions = positions_of(bits);
        let mut profiles: Vec<LayerProfileIndex> = Vec::new();
        let mut i: usize = 0;
        while i < positions.len()
            invariant
                i <= positions@.len(),
                profiles@ == positions@.subrange(0, i as int).map_values(|p: u8| LayerProfileIndex(p)),
            decreases positions@.len() - i,
        {
            profiles.push(LayerProfileIndex(positions[i]));
            i = i + 1;
            proof {
                assert(positions@.subrange(0, i as int) == positions@.subrange(0, i - 1).push(positions@[i - 1]));
            }
        }
        proof {
            assert(positions@.subrange(0, i as int) == positions@);
        }
        profiles
    }
}

/// What the profile analysis found of one piece of geometry: its side count, the
/// profile of each side, its top and bottom layer profiles, and the orientations it
/// may take.
pub struct MeshProfile {
    pub sides: usize,
    pub walls: Vec<WallProfileIndex>,
    pub top: LayerProfileIndex,
    pub bottom: LayerProfileIndex,
    pub orientations: Vec<GeomOrientation>,
}

impl Clone for MeshProfile {
    fn clone(&self) -> (r: Self)
        ensures
            r.sides == self.sides,
            r.walls@ == self.walls@,
            r.top == self.top,
            r.bottom == self.bottom,
            r.orientations@ == self.orientations@,
    {
        let walls = self.walls.clone();
        let orientations = self.orientations.clone();
        proof {
            assert(walls@ == self.walls@);
            assert(orientations@ == self.orientations@);
        }
        MeshProfile { sides: self.sides, walls, top: self.top, bottom: self.bottom, orientations }
    }
}

proof fn lemma_single_bit_positions(k: u8, n: int)
    requires
        k < 128,
        0 <= n <= 128,
    ensures
        bit_positions(1u128 << k, n) == (if n > k { seq![k] } else { Seq::<u8>::empty() }),
    decreases n,
{
    if n > 0 {
        lemma_single_bit_positions(k, n - 1);
        let i = (n - 1) as u128;
        let kk = k as u128;
        assert(kk < 128 && i < 128 ==> ((((1u128 << kk) >> i) & 1u128 == 1u128) == (i == kk))) by (bit_vector);
        assert((1u128 << k) == (1u128 << kk));
    }
}

/// Reading back the mask of a single side profile gives that profile alone.
pub proof fn law_wall_bits_round_trip(p: WallProfileIndex)
    requires
        p.0 < 128,
    ensures
        wall_indices_in_bits(1u128 << p.0) == seq![p],
{
    lemma_single_bit_positions(p.0, 128);
    assert(wall_indices_in_bits(1u128 << p.0) == seq![p.0].map_values(|i: u8| WallProfileIndex(i)));
}

/// Reading back the mask of a single layer profile gives that profile alone.
pub proof fn law_layer_bits_round_trip(p: LayerProfileIndex)
    requires
        p.0 < 128,
    ensures
        layer_indices_in_bits(1u128 << p.0) == seq![p],
{
    lemma_single_bit_positions(p.0, 128);
    assert(layer_indices_in_bits(1u128 << p.0) == seq![p.0].map_values(|i: u8| LayerProfileIndex(i)));
}

/// The mask with the bits of the side profiles `ws`: the union of their `to_bits`.
pub open spec fn walls_mask(ws: Seq<WallProfileIndex>) -> u128
    decreases ws.len(),
{
    if ws.len() == 0 {
        0
    } else {
        walls_mask(ws.drop_last()) | (1u128 << ws.last().0)
    }
}

/// The bits of `bits` below position `n`, gathered one position after another.
spec fn low_bits(bits: u128, n: int) -> u128
    decreases n,
{
    if n <= 0 {
        0
    } else {
        low_bits(bits, n - 1) | if bit_set(bits, n - 1) { 1u128 << ((n - 1) as u128) } else { 0u128 }
    }
}

proof fn lemma_low_bits_step(b: u128, k: u128, k8: u8) by (bit_vector)
    requires
        k < 128,
        k == k8 as u128,
    ensures
        b & !(!0u128 << 0u128) == 0,
        (1u128 << k8) == (1u128 << k),
        k < 127 ==> ((b & !(!0u128 << k)) | (if (b >> k) & 1u128 == 1u128 { 1u128 << k } else { 0u128 }))
            == b & !(!0u128 << ((k + 1) as u128)),
        k == 127 ==> ((b & !(!0u128 << k)) | (if (b >> k) & 1u128 == 1u128 { 1u128 << k } else { 0u128 })) == b,
        0u128 | b == b,
        b | 0u128 == b,
{
}

proof fn lemma_low_bits(bits: u128, n: int)
    requires
        0 <= n <= 128,
    ensures
        n < 128 ==> low_bits(bits, n) == bits & !(!0u128 << (n as u128)),
        n == 128 ==> low_bits(bits, n) == bits,
        walls_mask(bit_positions(bits, n).map_values(|i: u8| WallProfileIndex(i))) == low_bits(bits, n),
        forall|i: int| 0 <= i < bit_positions(bits, n).len() ==> #[trigger] bit_positions(bits, n)[i] < n,
        forall|i: int, j: int| 0 <= i < j < bit_positions(bits, n).len()
            ==> #[trigger] bit_positions(bits, n)[i] < #[trigger] bit_positions(bits, n)[j],
    decreases n,
{
    let ws = bit_positions(bits, n).map_values(|i: u8| WallProfileIndex(i));
    if n == 0 {
        lemma_low_bits_step(bits, 0, 0);
        assert(ws.len() == 0);
    } else {
        lemma_low_bits(bits, n - 1);
        let k = (n - 1) as u128;
        lemma_low_bits_step(bits, k, (n - 1) as u8);
        let prev = bit_positions(bits, n - 1);
        let pws = prev.map_values(|i: u8| WallProfileIndex(i));
        if bit_set(bits, n - 1) {
            assert(bit_positions(bits, n) == prev.push((n - 1) as u8));
            assert(ws.drop_last() =~= pws);
            assert(ws.last() == WallProfileIndex((n - 1) as u8));
        } else {
            assert(bit_positions(bits, n) == prev);
            assert(ws =~= pws);
            assert(low_bits(bits, n) == low_bits(bits, n - 1) | 0u128);
            lemma_low_bits_step(low_bits(bits, n - 1), 0, 0);
        }
    }
}

/// `from_bits` lists the side profiles of a mask in strictly increasing order, and
/// the union of their `to_bits` masks is the mask again.
pub proof fn law_wall_mask_round_trip(bits: u128)
    ensures
        forall|i: int, j: int| 0 <= i < j < wall_indices_in_bits(bits).len()
            ==> (#[trigger] wall_indices_in_bits(bits)[i]).0 < (#[trigger] wall_indices_in_bits(bits)[j]).0,
        forall|i: int| 0 <= i < wall_indices_in_bits(bits).len() ==> (#[trigger] wall_indices_in_bits(bits)[i]).0 < 128,
        walls_mask(wall_indices_in_bits(bits)) == bits,
{
    lemma_low_bits(bits, 128);
    let pos = bit_positions(bits, 128);
    assert forall|i: int, j: int| 0 <= i < j < wall_indices_in_bits(bits).len()
        implies (#[trigger] wall_indices_in_bits(bits)[i]).0 < (#[trigger] wall_indices_in_bits(bits)[j]).0 by {
        assert(pos[i] < pos[j]);
    }
    assert forall|i: int| 0 <= i < wall_indices_in_bits(bits).len() implies (#[trigger] wall_indices_in_bits(bits)[i]).0 < 128 by {
        assert(pos[i] < 128);
    }
}

} // verus!
