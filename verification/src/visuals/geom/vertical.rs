use vstd::prelude::*;

use super::orientations::{index_in_sequence, index_in_sequence_defined, GeomOrientation};

verus! {

/// What the top or bottom face of a piece of geometry offers at one corner.
#[derive(Clone, Copy, PartialEq, Eq, Debug, Hash, Structural)]
pub enum VerticalProfile {
    Empty,
    Stackable,
    Full,
}

#[derive(Clone, Copy, PartialEq, Eq, Debug, Structural)]
pub enum VerticalProfileParseError {
    InvalidVerticalPattern,
}

/// Width in bits of one profile inside an indicator.
pub const VERTICAL_PROFILE_LEN: usize = 2;

/// The one-letter label of a profile.
pub open spec fn vertical_label(p: VerticalProfile) -> Seq<char> {
    match p {
        VerticalProfile::Empty => "e"@,
        VerticalProfile::Stackable => "s"@,
        VerticalProfile::Full => "f"@,
    }
}

/// The two-bit code of a profile inside an indicator; never zero.
pub open spec fn vertical_value(p: VerticalProfile) -> usize {
    match p {
        VerticalProfile::Empty => 1,
        VerticalProfile::Stackable => 2,
        VerticalProfile::Full => 3,
    }
}

/// The labels of a sequence of profiles, one after another.
pub open spec fn labels_text(s: Seq<VerticalProfile>) -> Seq<char>
    decreases s.len(),
{
    if s.len() == 0 {
        Seq::empty()
    } else {
        labels_text(s.drop_last()) + vertical_label(s.last())
    }
}

/// The profile of the lowest two bits of `x`, if they name one.
pub open spec fn low_profile(x: usize) -> Seq<VerticalProfile> {
    if x & 3 == 1 {
        seq![VerticalProfile::Empty]
    } else if x & 3 == 2 {
        seq![VerticalProfile::Stackable]
    } else if x & 3 == 3 {
        seq![VerticalProfile::Full]
    } else {
        Seq::empty()
    }
}

/// The profiles an indicator holds, from its lowest two bits up; a pair of zero bits
/// is skipped.
pub open spec fn profiles_from_bits(x: usize) -> Seq<VerticalProfile>
    decreases x,
{
    if x == 0 {
        Seq::empty()
    } else {
        proof {
            assert(x > 0 ==> (x >> 2usize) < x) by (bit_vector);
        }
        low_profile(x) + profiles_from_bits(x >> 2usize)
    }
}

/// Whether a character is the label of a profile.
pub open spec fn is_vertical_char(c: char) -> bool {
    c == 's' || c == 'e' || c == 'f'
}

/// The profile that a label character names.
pub open spec fn char_profile(c: char) -> VerticalProfile {
    if c == 's' {
        VerticalProfile::Stackable
    } else if c == 'e' {
        VerticalProfile::Empty
    } else {
        VerticalProfile::Full
    }
}

/// Whether every character of a pattern names a profile.
pub open spec fn valid_pattern(s: Seq<char>) -> bool {
    forall|i: int| 0 <= i < s.len() ==> is_vertical_char(#[trigger] s[i])
}

/// The profiles that a valid pattern names, in order.
pub open spec fn parsed_pattern(s: Seq<char>) -> Seq<VerticalProfile> {
    s.map_values(|c: char| char_profile(c))
}

/// Whether `compute_indicator` can run on a sequence of `len` profiles in the given
/// orientation: every position is looked up without overflow, and every code fits
/// in a `usize`.
pub open spec fn indicator_defined(len: int, rotation: GeomOrientation) -> bool {
    &&& VERTICAL_PROFILE_LEN * len <= usize::BITS
    &&& forall|i: int| 0 <= i < len ==> #[trigger] index_in_sequence_defined(rotation, i, len, true)
}

/// The profile that lands at position `i` once the sequence is oriented.
pub open spec fn oriented_profile(s: Seq<VerticalProfile>, rotation: GeomOrientation, i: int) -> VerticalProfile {
    s[index_in_sequence(rotation, i, s.len() as int, true)]
}

/// The codes of the first `n` oriented positions, position `i` at bits `2i` and `2i + 1`.
pub open spec fn indicator_of(s: Seq<VerticalProfile>, rotation: GeomOrientation, n: int) -> usize
    decreases n,
{
    if n <= 0 {
        0
    } else {
        indicator_of(s, rotation, n - 1) | (vertical_value(oriented_profile(s, rotation, n - 1))
            << ((VERTICAL_PROFILE_LEN * (n - 1)) as usize))
    }
}

/// The identity orientation.
pub open spec fn unturned() -> GeomOrientation {
    GeomOrientation::Standard { rotations: 0 }
}

proof fn lemma_code_bits(v: usize)
    requires
        1 <= v <= 3,
    ensures
        ((0usize | (v << 0usize)) & 3usize) == v,
        ((0usize | (v << 0usize)) >> 2usize) == 0,
{
    assert(1 <= v <= 3 ==> ((0usize | (v << 0usize)) & 3usize) == v) by (bit_vector);
    assert(1 <= v <= 3 ==> ((0usize | (v << 0usize)) >> 2usize) == 0) by (bit_vector);
}

proof fn lemma_shift_step(a: usize, v: usize, k: usize)
    requires
        v < 4,
        2 <= k,
        k + 2 <= usize::BITS,
    ensures
        ((a | (v << k)) >> 2usize) == ((a >> 2usize) | (v << ((k - 2) as usize))),
        ((a | (v << k)) & 3usize) == (a & 3usize),
{
    assert(v < 4 && 2 <= k && k + 2 <= usize::BITS ==> ((a | (v << k)) >> 2usize) == ((a >> 2usize) | (v
        << ((k - 2) as usize)))) by (bit_vector);
    assert(v < 4 && 2 <= k && k + 2 <= usize::BITS ==> ((a | (v << k)) & 3usize) == (a & 3usize)) by (bit_vector);
}

proof fn lemma_unturned_position(s: Seq<VerticalProfile>, i: int)
    requires
        0 <= i < s.len(),
    ensures
        oriented_profile(s, unturned(), i) == s[i],
{
    vstd::arithmetic::div_mod::lemma_small_mod(i as nat, s.len());
}

proof fn lemma_indicator_shift(s: Seq<VerticalProfile>, n: int)
    requires
        1 <= n <= s.len(),
        VERTICAL_PROFILE_LEN * s.len() <= usize::BITS,
    ensures
        indicator_of(s, unturned(), n) & 3usize == vertical_value(s[0]),
        indicator_of(s, unturned(), n) >> 2usize == indicator_of(s.drop_first(), unturned(), n - 1),
    decreases n,
{
    let t = s.drop_first();
    lemma_unturned_position(s, n - 1);
    if n == 1 {
        lemma_code_bits(vertical_value(s[0]));
        assert(indicator_of(s, unturned(), 0) == 0);
        assert(indicator_of(t, unturned(), 0) == 0);
    } else {
        lemma_indicator_shift(s, n - 1);
        let a = indicator_of(s, unturned(), n - 1);
        let v = vertical_value(s[n - 1]);
        let k = (VERTICAL_PROFILE_LEN * (n - 1)) as usize;
        lemma_shift_step(a, v, k);
        lemma_unturned_position(t, n - 2);
        assert(t[n - 2] == s[n - 1]);
        assert(((k - 2) as usize) == ((VERTICAL_PROFILE_LEN * (n - 2)) as usize));
    }
}

/// Reading back, with `from_bits`, the indicator that `compute_indicator` packs for a
/// sequence in the orientation `Standard { rotations: 0 }` gives the sequence again
/// (for at most `usize::BITS / 2` profiles); the indicator 0 reads back as no profile.
pub proof fn law_from_bits_recovers_sequence(s: Seq<VerticalProfile>)
    requires
        VERTICAL_PROFILE_LEN * s.len() <= usize::BITS,
    ensures
        profiles_from_bits(indicator_of(s, unturned(), s.len() as int)) == s,
        profiles_from_bits(0) == Seq::<VerticalProfile>::empty(),
    decreases s.len(),
{
    if s.len() == 0 {
        assert(indicator_of(s, unturned(), 0) == 0);
        assert(profiles_from_bits(0) == Seq::<VerticalProfile>::empty());
    } else {
        let x = indicator_of(s, unturned(), s.len() as int);
        let t = s.drop_first();
        lemma_indicator_shift(s, s.len() as int);
        law_from_bits_recovers_sequence(t);
        assert(x != 0) by {
            if x == 0 {
                assert(0usize & 3usize == 0) by (bit_vector);
            }
        }
        assert(low_profile(x) == seq![s[0]]);
        assert(s == seq![s[0]] + t);
    }
}

impl VerticalProfile {
    pub fn label(self) -> (r: &'static str)
        ensures
            r@ == vertical_label(self),
    {
        match self {
            VerticalProfile::Empty => "e",
            VerticalProfile::Stackable => "s",
            VerticalProfile::Full => "f",
        }
    }

    /// The labels of `profiles`, one after another.
    pub fn label_string(profiles: &Vec<VerticalProfile>) -> (r: String)
        ensures
            r@ == labels_text(profiles@),
    {
        let mut label = String::new();
        let mut i: usize = 0;
        while i < profiles.len()
            invariant
                i <= profiles.len(),
                label@ == labels_text(profiles@.subrange(0, i as int)),
            decreases profiles.len() - i,
        {
            label.append(profiles[i].label());
            i = i + 1;
            proof {
                assert(profiles@.subrange(0, i as int).drop_last() == profiles@.subrange(0, i - 1));
            }
        }
        proof {
            assert(profiles@.subrange(0, i as int) == profiles@);
        }
        label
    }

    /// The profiles an indicator holds, from its lowest bits up.
    pub fn from_bits(indicator: usize) -> (r: Vec<VerticalProfile>)
        ensures
            r@ == profiles_from_bits(indicator),
    {
        let mut rest = indicator;
        let mut profiles: Vec<VerticalProfile> = Vec::new();
        while rest > 0
            invariant
                profiles@ + profiles_from_bits(rest) == profiles_from_bits(indicator),
            decreases rest,
        {
            let ghost before = profiles@;
            let low = rest & 3;
            if low == 1 {
                profiles.push(VerticalProfile::Empty);
            } else if low == 2 {
                profiles.push(VerticalProfile::Stackable);
            } else if low == 3 {
                profiles.push(VerticalProfile::Full);
            }
            proof {
                assert(profiles@ == before + low_profile(rest));
                assert(rest > 0 ==> (rest >> 2usize) < rest) by (bit_vector);
                assert(before + (low_profile(rest) + profiles_from_bits(rest >> 2usize))
                    == (before + low_profile(rest)) + profiles_from_bits(rest >> 2usize));
            }
            rest = rest >> 2;
        }
        profiles
    }

    /// The labels of the profiles an indicator holds.
    pub fn create_label_string(indicator: usize) -> (r: String)
        ensures
            r@ == labels_text(profiles_from_bits(indicator)),
    {
        Self::label_string(&Self::from_bits(indicator))
    }

    pub fn value(self) -> (r: usize)
        ensures
            r == vertical_value(self),
    {
        match self {
            VerticalProfile::Empty => 1,
            VerticalProfile::Stackable => 2,
            VerticalProfile::Full => 3,
        }
    }

    /// Reads a pattern such as `"ffss"`, one profile per character.
    pub fn parse_from(pattern: String) -> (r: Result<Vec<Self>, VerticalProfileParseError>)
        ensures
            match r {
                Ok(v) => valid_pattern(pattern@) && v@ == parsed_pattern(pattern@),
                Err(e) => !valid_pattern(pattern@) && e == VerticalProfileParseError::InvalidVerticalPattern,
            },
    {
        let s = pattern.as_str();
        let len = s.unicode_len();
        let mut sequence: Vec<VerticalProfile> = Vec::new();
        let mut i: usize = 0;
        while i < len
            invariant
                len == s@.len(),
                s@ == pattern@,
                i <= len,
                valid_pattern(s@.subrange(0, i as int)),
                sequence@ == parsed_pattern(s@.subrange(0, i as int)),
            decreases len - i,
        {
            let c = s.get_char(i);
            let p = if c == 's' {
                VerticalProfile::Stackable
            } else if c == 'e' {
                VerticalProfile::Empty
            } else if c == 'f' {
                VerticalProfile::Full
            } else {
                proof {
                    assert(!is_vertical_char(s@[i as int]));
                }
                return Err(VerticalProfileParseError::InvalidVerticalPattern);
            };
            sequence.push(p);
            i = i + 1;
            proof {
                let prefix = s@.subrange(0, i as int);
                assert(prefix == s@.subrange(0, i - 1).push(c));
                assert forall|k: int| 0 <= k < prefix.len() implies is_vertical_char(#[trigger] prefix[k]) by {
                    if k < i - 1 {
                        assert(prefix[k] == s@.subrange(0, i - 1)[k]);
                    }
                }
                assert(sequence@ == parsed_pattern(prefix));
            }
        }
        proof {
            assert(s@.subrange(0, len as int) == s@);
        }
        Ok(sequence)
    }

    /// Packs the profiles, read in the given orientation, two bits each from the
    /// lowest bits up.
    pub fn compute_indicator(sequence: &Vec<VerticalProfile>, rotation: GeomOrientation) -> (r: usize)
        requires
            indicator_defined(sequence@.len() as int, rotation),
        ensures
            r == indicator_of(sequence@, rotation, sequence@.len() as int),
    {
        let mut indicator: usize = 0;
        let len = sequence.len();
        let mut i: usize = 0;
        while i < len
            invariant
                len == sequence@.len(),
                i <= len,
                indicator_defined(len as int, rotation),
                indicator == indicator_of(sequence@, rotation, i as int),
            decreases len - i,
        {
            proof {
                assert(index_in_sequence_defined(rotation, i as int, len as int, true));
            }
            let index = rotation.get_index_in_sequence(i, len, true);
            indicator = indicator | (sequence[index].value() << (i * VERTICAL_PROFILE_LEN));
            i = i + 1;
        }
        indicator
    }
}

/// Writing out the labels of a pattern that `parse_from` reads gives the pattern back.
pub proof fn law_labels_invert_parsing(s: Seq<char>)
    requires
        valid_pattern(s),
    ensures
        labels_text(parsed_pattern(s)) == s,
    decreases s.len(),
{
    if s.len() > 0 {
        let prefix = s.drop_last();
        assert(valid_pattern(prefix)) by {
            assert forall|i: int| 0 <= i < prefix.len() implies is_vertical_char(#[trigger] prefix[i]) by {
                assert(prefix[i] == s[i]);
            }
        }
        law_labels_invert_parsing(prefix);
        let p = parsed_pattern(s);
        assert(p.drop_last() =~= parsed_pattern(prefix));
        let c = s.last();
        assert(is_vertical_char(s[s.len() - 1]));
        reveal_strlit("e");
        reveal_strlit("s");
        reveal_strlit("f");
        assert(vertical_label(char_profile(c)) =~= seq![c]);
        assert(s =~= prefix + seq![c]);
    } else {
        assert(labels_text(parsed_pattern(s)) =~= s);
    }
}

/// Packing a sequence turned by `k` rotations gives what packing, unturned, the
/// sequence whose position `i` holds the profile at `(i + k) % n` gives.
pub proof fn law_indicator_of_rotation(s: Seq<VerticalProfile>, k: usize, turned: Seq<VerticalProfile>)
    requires
        s.len() > 0,
        turned.len() == s.len(),
        forall|i: int| 0 <= i < s.len() ==> #[trigger] turned[i] == s[(i + k) % (s.len() as int)],
    ensures
        indicator_of(s, GeomOrientation::Standard { rotations: k }, s.len() as int) == indicator_of(turned, unturned(), s.len() as int),
{
    lemma_indicator_of_rotation(s, k, turned, s.len() as int);
}

proof fn lemma_indicator_of_rotation(s: Seq<VerticalProfile>, k: usize, turned: Seq<VerticalProfile>, m: int)
    requires
        s.len() > 0,
        turned.len() == s.len(),
        forall|i: int| 0 <= i < s.len() ==> #[trigger] turned[i] == s[(i + k) % (s.len() as int)],
        0 <= m <= s.len(),
    ensures
        indicator_of(s, GeomOrientation::Standard { rotations: k }, m) == indicator_of(turned, unturned(), m),
    decreases m,
{
    if m > 0 {
        lemma_indicator_of_rotation(s, k, turned, m - 1);
        let n = s.len() as int;
        vstd::arithmetic::div_mod::lemma_small_mod((m - 1) as nat, n as nat);
        assert(oriented_profile(turned, unturned(), m - 1) == turned[m - 1]);
        assert(oriented_profile(s, GeomOrientation::Standard { rotations: k }, m - 1) == s[(m - 1 + k) % n]);
    }
}

} // verus!
