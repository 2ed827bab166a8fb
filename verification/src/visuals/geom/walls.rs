use vstd::prelude::*;

verus! {

/// The shape of one side of a square piece of geometry.
#[derive(Clone, Copy, PartialEq, Eq, Hash, Debug, Structural)]
pub enum WallProfile {
    Empty,
    Ramp,
    Pmar,
    Wall,
    Llaw,
    Bottom,
    Top,
}

/// The bit pattern of each profile. `Bottom` and `Top` share bits with the others.
pub open spec fn wall_bits(p: WallProfile) -> usize {
    match p {
        WallProfile::Empty => 0x01,
        WallProfile::Ramp => 0x02,
        WallProfile::Pmar => 0x04,
        WallProfile::Wall => 0x08,
        WallProfile::Llaw => 0x10,
        WallProfile::Bottom => 0x11,
        WallProfile::Top => 0x12,
    }
}

/// The mask of the profiles that may sit below a profile.
pub open spec fn wall_compatible_below(p: WallProfile) -> usize {
    match p {
        WallProfile::Empty => wall_bits(WallProfile::Empty) | wall_bits(WallProfile::Top),
        WallProfile::Bottom => wall_bits(WallProfile::Empty) | wall_bits(WallProfile::Top),
        _ => wall_bits(WallProfile::Empty),
    }
}

/// The mask of the profiles that may sit above a profile.
pub open spec fn wall_compatible_above(p: WallProfile) -> usize {
    match p {
        WallProfile::Empty => wall_bits(WallProfile::Empty) | wall_bits(WallProfile::Bottom),
        WallProfile::Top => wall_bits(WallProfile::Empty) | wall_bits(WallProfile::Bottom),
        _ => wall_bits(WallProfile::Empty),
    }
}

/// The mask of the profiles that may face a profile across a shared side.
pub open spec fn wall_compatible_across(p: WallProfile) -> usize {
    match p {
        WallProfile::Empty => wall_bits(WallProfile::Empty) | wall_bits(WallProfile::Bottom)
            | wall_bits(WallProfile::Top),
        WallProfile::Ramp => wall_bits(WallProfile::Pmar),
        WallProfile::Pmar => wall_bits(WallProfile::Ramp),
        WallProfile::Wall => wall_bits(WallProfile::Llaw),
        WallProfile::Llaw => wall_bits(WallProfile::Wall),
        WallProfile::Bottom => wall_bits(WallProfile::Empty) | wall_bits(WallProfile::Bottom),
        WallProfile::Top => wall_bits(WallProfile::Empty) | wall_bits(WallProfile::Top),
    }
}

/// The profile seen from the other side: ramps and walls swap with their mirror
/// images, the others stay.
pub open spec fn wall_reverse(p: WallProfile) -> WallProfile {
    match p {
        WallProfile::Empty => WallProfile::Empty,
        WallProfile::Ramp => WallProfile::Pmar,
        WallProfile::Pmar => WallProfile::Ramp,
        WallProfile::Wall => WallProfile::Llaw,
        WallProfile::Llaw => WallProfile::Wall,
        WallProfile::Bottom => WallProfile::Bottom,
        WallProfile::Top => WallProfile::Top,
    }
}

/// The name of a profile as it appears in resource names.
pub open spec fn wall_label(p: WallProfile) -> Seq<char> {
    match p {
        WallProfile::Empty => "empty"@,
        WallProfile::Ramp => "ramp"@,
        WallProfile::Pmar => "pmar"@,
        WallProfile::Wall => "wall"@,
        WallProfile::Llaw => "llaw"@,
        WallProfile::Bottom => "bottom"@,
        WallProfile::Top => "top"@,
    }
}

/// The profiles that `from_bits` tries, in order. `Wall` stands twice and `Llaw`
/// not at all.
pub open spec fn wall_candidates() -> Seq<WallProfile> {
    seq![
        WallProfile::Empty,
        WallProfile::Ramp,
        WallProfile::Pmar,
        WallProfile::Wall,
        WallProfile::Wall,
        WallProfile::Bottom,
        WallProfile::Top,
    ]
}

/// The first `n` candidates whose bits meet `value`, in order.
pub open spec fn walls_in_bits(value: usize, n: int) -> Seq<WallProfile>
    decreases n,
{
    if n <= 0 {
        Seq::empty()
    } else {
        let prev = walls_in_bits(value, n - 1);
        let c = wall_candidates()[n - 1];
        if wall_bits(c) & value != 0 {
            prev.push(c)
        } else {
            prev
        }
    }
}

impl WallProfile {
    pub fn compatible_below(self) -> (r: usize)
        ensures
            r == wall_compatible_below(self),
    {
        match self {
            WallProfile::Empty => WallProfile::Empty.to_bits() | WallProfile::Top.to_bits(),
            WallProfile::Ramp => WallProfile::Empty.to_bits(),
            WallProfile::Pmar => WallProfile::Empty.to_bits(),
            WallProfile::Wall => WallProfile::Empty.to_bits(),
            WallProfile::Llaw => WallProfile::Empty.to_bits(),
            WallProfile::Bottom => WallProfile::Empty.to_bits() | WallProfile::Top.to_bits(),
            WallProfile::Top => WallProfile::Empty.to_bits(),
        }
    }

    pub fn compatible_above(self) -> (r: usize)
        ensures
            r == wall_compatible_above(self),
    {
        match self {
            WallProfile::Empty => WallProfile::Empty.to_bits() | WallProfile::Bottom.to_bits(),
            WallProfile::Ramp => WallProfile::Empty.to_bits(),
            WallProfile::Pmar => WallProfile::Empty.to_bits(),
            WallProfile::Wall => WallProfile::Empty.to_bits(),
            WallProfile::Llaw => WallProfile::Empty.to_bits(),
            WallProfile::Bottom => WallProfile::Empty.to_bits(),
            WallProfile::Top => WallProfile::Empty.to_bits() | WallProfile::Bottom.to_bits(),
        }
    }

    pub fn compatible_across(self) -> (r: usize)
        ensures
            r == wall_compatible_across(self),
    {
        match self {
            WallProfile::Empty => WallProfile::Empty.to_bits() | WallProfile::Bottom.to_bits()
                | WallProfile::Top.to_bits(),
            WallProfile::Ramp => WallProfile::Pmar.to_bits(),
            WallProfile::Pmar => WallProfile::Ramp.to_bits(),
            WallProfile::Wall => WallProfile::Llaw.to_bits(),
            WallProfile::Llaw => WallProfile::Wall.to_bits(),
            WallProfile::Bottom => WallProfile::Empty.to_bits() | WallProfile::Bottom.to_bits(),
            WallProfile::Top => WallProfile::Empty.to_bits() | WallProfile::Top.to_bits(),
        }
    }

    pub fn reverse(self) -> (r: WallProfile)
        ensures
            r == wall_reverse(self),
    {
        match self {
            WallProfile::Empty => WallProfile::Empty,
            WallProfile::Ramp => WallProfile::Pmar,
            WallProfile::Pmar => WallProfile::Ramp,
            WallProfile::Wall => WallProfile::Llaw,
            WallProfile::Llaw => WallProfile::Wall,
            WallProfile::Bottom => WallProfile::Bottom,
            WallProfile::Top => WallProfile::Top,
        }
    }

    pub fn label(self) -> (r: &'static str)
        ensures
            r@ == wall_label(self),
    {
        match self {
            WallProfile::Empty => "empty",
            WallProfile::Ramp => "ramp",
            WallProfile::Pmar => "pmar",
            WallProfile::Wall => "wall",
            WallProfile::Llaw => "llaw",
            WallProfile::Bottom => "bottom",
            WallProfile::Top => "top",
        }
    }

    pub fn to_bits(self) -> (r: usize)
        ensures
            r == wall_bits(self),
    {
        match self {
            WallProfile::Empty => 0x01,
            WallProfile::Ramp => 0x02,
            WallProfile::Pmar => 0x04,
            WallProfile::Wall => 0x08,
            WallProfile::Llaw => 0x10,
            WallProfile::Bottom => 0x11,
            WallProfile::Top => 0x12,
        }
    }

    /// The candidate profiles whose bits meet `value`, in candidate order.
    pub fn from_bits(value: usize) -> (r: Vec<WallProfile>)
        ensures
            r@ == walls_in_bits(value, 7),
    {
        let candidates: [WallProfile; 7] = [
            WallProfile::Empty,
            WallProfile::Ramp,
            WallProfile::Pmar,
            WallProfile::Wall,
            WallProfile::Wall,
            WallProfile::Bottom,
            WallProfile::Top,
        ];
        proof {
            assert(candidates@ == wall_candidates());
        }
        let mut out: Vec<WallProfile> = Vec::new();
        let mut i: usize = 0;
        while i < 7
            invariant
                i <= 7,
                candidates@ == wall_candidates(),
                out@ == walls_in_bits(value, i as int),
            decreases 7 - i,
        {
            let c = candidates[i];
            if c.to_bits() & value != 0 {
                out.push(c);
            }
            i = i + 1;
        }
        out
    }
}

/// Seen from the other side twice, a profile is itself again.
pub proof fn law_reverse_is_involutive(p: WallProfile)
    ensures
        wall_reverse(wall_reverse(p)) == p,
{
}

/// Across a shared side, a ramp meets its mirror image and a wall meets its mirror
/// image: a profile other than the flat ones is compatible across exactly with its
/// reverse.
pub proof fn law_across_is_reverse_for_slopes(p: WallProfile)
    requires
        p is Ramp || p is Pmar || p is Wall || p is Llaw,
    ensures
        wall_compatible_across(p) == wall_bits(wall_reverse(p)),
{
}

} // verus!
