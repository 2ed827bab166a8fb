use vstd::prelude::*;

verus! {

/// A rotation of the sides of a tile, possibly followed by a mirroring.
#[derive(Clone, Copy, PartialEq, Eq, Hash, Debug, Structural)]
pub enum GeomTransformation {
    Standard { rotations: usize },
    Flipped { rotations: usize },
}

/// Where position `in_index` of a sequence of `max_index` entries goes under the
/// transformation.
pub open spec fn transformed_index(t: GeomTransformation, in_index: int, max_index: int) -> int {
    match t {
        GeomTransformation::Standard { rotations } => (in_index + rotations) % max_index,
        GeomTransformation::Flipped { rotations } => max_index - 1 - ((in_index + rotations) % max_index),
    }
}

impl GeomTransformation {
    pub open spec fn spec_rotations(self) -> usize {
        match self {
            GeomTransformation::Standard { rotations } => rotations,
            GeomTransformation::Flipped { rotations } => rotations,
        }
    }

    pub fn get_index_in_sequence(&self, in_index: usize, max_index: usize) -> (r: usize)
        requires
            max_index > 0,
            in_index + self.spec_rotations() <= usize::MAX,
        ensures
            r == transformed_index(*self, in_index as int, max_index as int),
            r < max_index,
    {
        match self {
            GeomTransformation::Standard { rotations } => (in_index + *rotations) % max_index,
            GeomTransformation::Flipped { rotations } => {
                max_index - 1 - ((in_index + *rotations) % max_index)
            },
        }
    }

    pub fn is_reversed(&self) -> (r: bool)
        ensures
            r == (*self is Flipped),
    {
        match self {
            GeomTransformation::Standard { .. } => false,
            GeomTransformation::Flipped { .. } => true,
        }
    }
}

/// A transformation sends the positions of a sequence to distinct positions: it
/// permutes the sequence.
pub proof fn law_transformed_index_is_injective(t: GeomTransformation, i: int, j: int, max_index: int)
    requires
        max_index > 0,
        0 <= i < max_index,
        0 <= j < max_index,
        transformed_index(t, i, max_index) == transformed_index(t, j, max_index),
    ensures
        i == j,
{
    let r = t.spec_rotations() as int;
    assert((i + r) % max_index == (j + r) % max_index);
    vstd::arithmetic::div_mod::lemma_fundamental_div_mod(i + r, max_index);
    vstd::arithmetic::div_mod::lemma_fundamental_div_mod(j + r, max_index);
    let qi = (i + r) / max_index;
    let qj = (j + r) / max_index;
    assert(i == j) by (nonlinear_arith)
        requires
            i + r == max_index * qi + (i + r) % max_index,
            j + r == max_index * qj + (j + r) % max_index,
            (i + r) % max_index == (j + r) % max_index,
            0 <= i < max_index,
            0 <= j < max_index,
    {
        assert(i - j == max_index * (qi - qj));
        if qi > qj {
            assert(max_index * (qi - qj) >= max_index);
        } else if qi < qj {
            assert(max_index * (qj - qi) >= max_index);
        }
    }
}

} // verus!
