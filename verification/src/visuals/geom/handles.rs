use vstd::prelude::*;

use super::orientations::{
    bit_position, fits_in_mask, lemma_single_bit_nonzero, lemma_single_bits_overlap, orientations_in_bits, single_bit,
    GeomOrientation,
};
use crate::text::{decimal, push_decimal, push_str, string_from_chars};

verus! {

/// A piece of geometry (by its index in the storage) placed in some orientation.
#[derive(Clone, Copy, PartialEq, Eq, Hash, Debug, Structural)]
pub struct GeometryHandle {
    pub index: usize,
    pub orientation: GeomOrientation,
}

/// The text of an orientation: the rotation count, preceded by `r` when flipped.
pub open spec fn orientation_text(o: GeomOrientation) -> Seq<char> {
    match o {
        GeomOrientation::Standard { rotations } => decimal(rotations as nat),
        GeomOrientation::Flipped { rotations } => seq!['r'] + decimal(rotations as nat),
    }
}

/// The text of a handle: `[index@orientation]`.
pub open spec fn handle_text(h: GeometryHandle) -> Seq<char> {
    seq!['['] + decimal(h.index as nat) + seq!['@'] + orientation_text(h.orientation) + seq![']']
}

/// The text of an optional handle, `[null]` when there is none.
pub open spec fn optional_handle_text(h: Option<GeometryHandle>) -> Seq<char> {
    match h {
        Some(h) => handle_text(h),
        None => seq!['[', 'n', 'u', 'l', 'l', ']'],
    }
}

fn push_orientation(out: &mut Vec<char>, o: GeomOrientation)
    ensures
        final(out)@ == old(out)@ + orientation_text(o),
{
    match o {
        GeomOrientation::Standard { rotations } => push_decimal(out, rotations),
        GeomOrientation::Flipped { rotations } => {
            out.push('r');
            push_decimal(out, rotations);
            proof {
                assert(final(out)@ =~= old(out)@ + orientation_text(o));
            }
        },
    }
}

impl GeometryHandle {
    fn push_text(&self, out: &mut Vec<char>)
        ensures
            final(out)@ == old(out)@ + handle_text(*self),
    {
        let ghost start = out@;
        out.push('[');
        push_decimal(out, self.index);
        out.push('@');
        push_orientation(out, self.orientation);
        out.push(']');
        proof {
            assert(out@ =~= start + handle_text(*self));
        }
    }

    /// The text of this handle, `[index@rotations]` or `[index@rrotations]`.
    pub fn to_text(&self) -> (r: String)
        ensures
            r@ == handle_text(*self),
    {
        let mut out: Vec<char> = Vec::new();
        self.push_text(&mut out);
        proof {
            assert(out@ =~= handle_text(*self));
        }
        string_from_chars(&out)
    }

    pub fn pretty_string(value: Option<Self>) -> (r: String)
        ensures
            r@ == optional_handle_text(value),
    {
        match value {
            Some(value) => value.to_text(),
            None => {
                let mut out: Vec<char> = Vec::new();
                push_str(&mut out, "[null]");
                proof {
                    reveal_strlit("[null]");
                    assert(out@ =~= optional_handle_text(value));
                }
                string_from_chars(&out)
            },
        }
    }
}

/// One index of a handle set with the mask of the orientations present for it.
#[derive(Clone, Copy, PartialEq, Eq, Debug, Structural)]
pub struct GeometryHandleSetEntry {
    pub index: usize,
    pub orientations: usize,
}

/// A set of geometry handles, stored as entries sorted by geometry index, each with
/// a mask of orientations.
pub struct GeometryHandleSet {
    entries: Vec<GeometryHandleSetEntry>,
    max_rotations: usize,
    length: usize,
}

/// Number of set bits of `x`.
pub open spec fn popcount(x: usize) -> nat
    decreases x,
{
    if x == 0 {
        0
    } else {
        (x % 2) as nat + popcount(x / 2)
    }
}

/// Total number of orientation bits over a sequence of entries.
pub open spec fn total_popcount(s: Seq<GeometryHandleSetEntry>) -> nat
    decreases s.len(),
{
    if s.len() == 0 {
        0
    } else {
        total_popcount(s.drop_last()) + popcount(s.last().orientations)
    }
}

/// Entries sorted strictly by index.
pub open spec fn strictly_sorted(s: Seq<GeometryHandleSetEntry>) -> bool {
    forall|i: int, j: int| 0 <= i < j < s.len() ==> s[i].index < s[j].index
}

/// Every entry carries at least one orientation.
pub open spec fn all_nonzero(s: Seq<GeometryHandleSetEntry>) -> bool {
    forall|i: int| 0 <= i < s.len() ==> s[i].orientations != 0
}

/// The map from geometry index to orientation mask that a sequence of entries
/// describes.
pub open spec fn entries_map(s: Seq<GeometryHandleSetEntry>) -> Map<usize, usize>
    decreases s.len(),
{
    if s.len() == 0 {
        Map::empty()
    } else {
        entries_map(s.drop_last()).insert(s.last().index, s.last().orientations)
    }
}

/// The orientation mask stored for `index`, or an empty mask.
pub open spec fn mask_at(m: Map<usize, usize>, index: usize) -> usize {
    if m.contains_key(index) {
        m[index]
    } else {
        0
    }
}

/// Orientation texts separated by commas.
pub open spec fn join_orientations(os: Seq<GeomOrientation>) -> Seq<char>
    decreases os.len(),
{
    if os.len() == 0 {
        Seq::empty()
    } else if os.len() == 1 {
        orientation_text(os[0])
    } else {
        join_orientations(os.drop_last()) + seq![','] + orientation_text(os.last())
    }
}

/// The orientations of a mask, in the order `from_bits` lists them.
pub open spec fn mask_orientations(bits: usize, max_rotations: usize) -> Seq<GeomOrientation> {
    orientations_in_bits(bits, max_rotations as int, 2 * max_rotations as int)
}

/// The text of an entry: `[index@o,o,..]`.
pub open spec fn entry_text(e: GeometryHandleSetEntry, max_rotations: usize) -> Seq<char> {
    seq!['['] + decimal(e.index as nat) + seq!['@'] + join_orientations(mask_orientations(e.orientations, max_rotations))
        + seq![']']
}

/// Entry texts separated by commas.
pub open spec fn entries_text(s: Seq<GeometryHandleSetEntry>, max_rotations: usize) -> Seq<char>
    decreases s.len(),
{
    if s.len() == 0 {
        Seq::empty()
    } else if s.len() == 1 {
        entry_text(s[0], max_rotations)
    } else {
        entries_text(s.drop_last(), max_rotations) + seq![','] + entry_text(s.last(), max_rotations)
    }
}

/// The handles of one entry, in the order of its orientations.
pub open spec fn entry_handles(e: GeometryHandleSetEntry, max_rotations: usize) -> Seq<GeometryHandle> {
    mask_orientations(e.orientations, max_rotations).map_values(
        |o: GeomOrientation| GeometryHandle { index: e.index, orientation: o },
    )
}

/// The handles of a sequence of entries, entry by entry.
pub open spec fn handles_of(s: Seq<GeometryHandleSetEntry>, max_rotations: usize) -> Seq<GeometryHandle>
    decreases s.len(),
{
    if s.len() == 0 {
        Seq::empty()
    } else {
        handles_of(s.drop_last(), max_rotations) + entry_handles(s.last(), max_rotations)
    }
}

/// Whether a mask map holds a handle.
pub open spec fn map_holds(m: Map<usize, usize>, handle: GeometryHandle) -> bool {
    mask_at(m, handle.index) & handle.orientation.spec_to_bits() != 0
}

/// The mask map once `handle` is added: its orientation's bit joins the mask of its
/// index.
pub open spec fn with_handle(m: Map<usize, usize>, handle: GeometryHandle) -> Map<usize, usize> {
    m.insert(handle.index, mask_at(m, handle.index) | handle.orientation.spec_to_bits())
}

/// `after` is `before` with `handle` inserted: the handle joins the map, the length
/// grows by one unless the handle was already held, and the rotation limit stays.
pub open spec fn inserted(before: GeometryHandleSet, after: GeometryHandleSet, handle: GeometryHandle) -> bool {
    &&& after.wf()
    &&& after@ == with_handle(before@, handle)
    &&& after.spec_length() == before.spec_length() + (if map_holds(before@, handle) { 0int } else { 1int })
    &&& after.spec_max_rotations() == before.spec_max_rotations()
}

/// A handle whose orientation's bit no other orientation shares: its rotation count
/// is below half the word size.
pub open spec fn distinct_bits(h: GeometryHandle) -> bool {
    2 * h.orientation.spec_rotations() < usize::BITS
}

impl Clone for GeometryHandleSet {
    fn clone(&self) -> (r: Self)
        ensures
            r.spec_entries() == self.spec_entries(),
            r.spec_max_rotations() == self.spec_max_rotations(),
            r.spec_length() == self.spec_length(),
            r@ == self@,
            r.wf() == self.wf(),
    {
        GeometryHandleSet { entries: self.entries.clone(), max_rotations: self.max_rotations, length: self.length }
    }
}

impl View for GeometryHandleSet {
    type V = Map<usize, usize>;

    closed spec fn view(&self) -> Map<usize, usize> {
        entries_map(self.entries@)
    }
}

impl GeometryHandleSet {
    /// The internal consistency of a set: sorted unique indices, no empty masks, and a
    /// cached length equal to the number of handles.
    pub closed spec fn wf(&self) -> bool {
        &&& strictly_sorted(self.entries@)
        &&& all_nonzero(self.entries@)
        &&& self.length == total_popcount(self.entries@)
    }

    pub closed spec fn spec_entries(&self) -> Seq<GeometryHandleSetEntry> {
        self.entries@
    }

    pub closed spec fn spec_max_rotations(&self) -> usize {
        self.max_rotations
    }

    pub closed spec fn spec_length(&self) -> usize {
        self.length
    }

    pub proof fn lemma_wf_view(&self)
        requires
            self.wf(),
        ensures
            self@ == entries_map(self.spec_entries()),
            strictly_sorted(self.spec_entries()),
            all_nonzero(self.spec_entries()),
            self.spec_length() == total_popcount(self.spec_entries()),
    {
    }

    pub fn new(max_rotations: usize) -> (r: Self)
        ensures
            r.wf(),
            r@ == Map::<usize, usize>::empty(),
            r.spec_entries() == Seq::<GeometryHandleSetEntry>::empty(),
            r.spec_max_rotations() == max_rotations,
            r.spec_length() == 0,
    {
        Self { entries: Vec::new(), max_rotations, length: 0 }
    }

    pub fn get_max_rotations(&self) -> (r: usize)
        ensures
            r == self.spec_max_rotations(),
    {
        self.max_rotations
    }

    pub fn length(&self) -> (r: usize)
        ensures
            r == self.spec_length(),
    {
        self.length
    }

    /// The entries, sorted by geometry index.
    pub fn entries(&self) -> (r: &Vec<GeometryHandleSetEntry>)
        ensures
            r@ == self.spec_entries(),
    {
        &self.entries
    }

    /// Whether the set holds no handle at all.
    pub fn empty(&self) -> (r: bool)
        requires
            self.wf(),
        ensures
            r == (self@ == Map::<usize, usize>::empty()),
            r == (self.spec_entries().len() == 0),
    {
        proof {
            lemma_entries_map_keys(self.entries@);
            if self.entries@.len() > 0 {
                assert(self@.contains_key(self.entries@[0].index));
            }
        }
        self.entries.len() == 0
    }

    /// Position of the entry for `index`, or the position where it would be inserted.
    fn find(&self, index: usize) -> (r: Result<usize, usize>)
        requires
            strictly_sorted(self.entries@),
        ensures
            match r {
                Ok(p) => p < self.entries@.len() && self.entries@[p as int].index == index,
                Err(p) => p <= self.entries@.len()
                    && (forall|j: int| 0 <= j < p ==> self.entries@[j].index < index)
                    && (forall|j: int| p <= j < self.entries@.len() ==> self.entries@[j].index > index),
            },
    {
        let mut lo: usize = 0;
        let mut hi: usize = self.entries.len();
        while lo < hi
            invariant
                strictly_sorted(self.entries@),
                lo <= hi <= self.entries@.len(),
                forall|j: int| 0 <= j < lo ==> self.entries@[j].index < index,
                forall|j: int| hi <= j < self.entries@.len() ==> self.entries@[j].index > index,
            decreases hi - lo,
        {
            let mid = lo + (hi - lo) / 2;
            let at = self.entries[mid].index;
            if at < index {
                lo = mid + 1;
            } else if at > index {
                hi = mid;
            } else {
                return Ok(mid);
            }
        }
        Err(lo)
    }

    /// Whether the set holds `handle`.
    pub fn contains(&self, handle: GeometryHandle) -> (r: bool)
        requires
            self.wf(),
            fits_in_mask(handle.orientation),
        ensures
            r == map_holds(self@, handle),
    {
        proof {
            lemma_entries_map_keys(self.entries@);
        }
        match self.find(handle.index) {
            Ok(entry_index) => {
                proof {
                    lemma_entries_map_value(self.entries@, entry_index as int);
                }
                self.entries[entry_index].orientations & handle.orientation.to_bits() != 0
            },
            Err(_) => {
                proof {
                    assert(!self@.contains_key(handle.index));
                    assert(0usize & handle.orientation.spec_to_bits() == 0) by (bit_vector);
                }
                false
            },
        }
    }
}

impl GeometryHandleSet {
    /// Add a handle to the set.
    pub fn insert(&mut self, handle: GeometryHandle)
        requires
            old(self).wf(),
            fits_in_mask(handle.orientation),
            old(self).spec_length() < usize::MAX,
        ensures
            inserted(*old(self), *final(self), handle),
    {
        let ghost old_entries = self.entries@;
        proof {
            lemma_entries_map_keys(old_entries);
        }
        let new_orientation = handle.orientation.to_bits();
        proof {
            lemma_popcount_or_single_bit_all(new_orientation);
        }
        match self.find(handle.index) {
            Ok(entry_index) => {
                let old_orientations = self.entries[entry_index].orientations;
                proof {
                    lemma_entries_map_value(old_entries, entry_index as int);
                    lemma_or_nonzero(old_orientations, new_orientation);
                }
                let entry = GeometryHandleSetEntry {
                    index: handle.index,
                    orientations: old_orientations | new_orientation,
                };
                self.entries.set(entry_index, entry);
                proof {
                    lemma_update_entry(old_entries, entry_index as int, entry);
                }
                if (old_orientations & new_orientation) == 0 {
                    self.length = self.length + 1;
                }
            },
            Err(insert_index) => {
                let entry = GeometryHandleSetEntry { index: handle.index, orientations: new_orientation };
                self.entries.insert(insert_index, entry);
                proof {
                    lemma_insert_entry(old_entries, insert_index as int, entry);
                    assert(!old(self)@.contains_key(handle.index));
                    assert(0usize | new_orientation == new_orientation) by (bit_vector);
                    assert(0usize & new_orientation == 0) by (bit_vector);
                    lemma_popcount_single_bit(new_orientation);
                }
                self.length = self.length + 1;
            },
        }
    }
}

/// `popcount` unfolds on every value, zero included.
pub proof fn lemma_popcount_unfold(x: usize)
    ensures
        popcount(x) == (x % 2) as nat + popcount(x / 2),
{
    if x == 0 {
        assert(0usize / 2 == 0);
    }
}

proof fn lemma_popcount_or_bit(x: usize, b: usize)
    requires
        b < usize::BITS,
        x & single_bit(b) == 0,
    ensures
        popcount(x | single_bit(b)) == popcount(x) + 1,
    decreases b,
{
    let y = x | single_bit(b);
    lemma_popcount_unfold(x);
    lemma_popcount_unfold(y);
    if b == 0 {
        assert(x & (1usize << 0usize) == 0 ==> (x | (1usize << 0usize)) % 2 == 1 && (x | (1usize << 0usize)) / 2 == x / 2 && x % 2 == 0) by (bit_vector);
    } else {
        let b1 = (b - 1) as usize;
        assert(0 < b && b < usize::BITS && x & (1usize << b) == 0 ==> (x | (1usize << b)) % 2 == x % 2
            && (x | (1usize << b)) / 2 == (x / 2) | (1usize << b1) && (x / 2) & (1usize << b1) == 0) by (bit_vector)
            requires b1 == b - 1;
        lemma_popcount_or_bit(x / 2, b1);
    }
}

/// Adding a bit that a mask lacks raises its population count by one; adding one it
/// has leaves it unchanged.
pub proof fn lemma_popcount_or_single_bit_all(bit: usize)
    requires
        exists|b: usize| b < usize::BITS && bit == single_bit(b),
    ensures
        forall|x: usize| x & bit == 0 ==> #[trigger] popcount(x | bit) == popcount(x) + 1,
        forall|x: usize| x & bit != 0 ==> #[trigger] (x | bit) == x,
{
    let b = choose|b: usize| b < usize::BITS && bit == single_bit(b);
    assert forall|x: usize| x & bit == 0 implies #[trigger] popcount(x | bit) == popcount(x) + 1 by {
        lemma_popcount_or_bit(x, b);
    }
    assert forall|x: usize| x & bit != 0 implies #[trigger] (x | bit) == x by {
        assert(b < usize::BITS && x & (1usize << b) != 0 ==> (x | (1usize << b)) == x) by (bit_vector);
    }
}

pub proof fn lemma_popcount_single_bit(bit: usize)
    requires
        exists|b: usize| b < usize::BITS && bit == single_bit(b),
    ensures
        popcount(bit) == 1,
{
    let b = choose|b: usize| b < usize::BITS && bit == single_bit(b);
    assert(0usize & (1usize << b) == 0 && 0usize | (1usize << b) == (1usize << b)) by (bit_vector);
    lemma_popcount_or_bit(0, b);
    assert(popcount(0) == 0);
}

pub proof fn lemma_or_nonzero(a: usize, b: usize) by (bit_vector)
    ensures
        a != 0 ==> a | b != 0,
        b != 0 ==> a | b != 0,
{
}

pub proof fn lemma_total_popcount_split(s: Seq<GeometryHandleSetEntry>, p: int)
    requires
        0 <= p <= s.len(),
    ensures
        total_popcount(s) == total_popcount(s.subrange(0, p)) + total_popcount(s.subrange(p, s.len() as int)),
    decreases s.len(),
{
    if p < s.len() {
        lemma_total_popcount_split(s.drop_last(), p);
        assert(s.drop_last().subrange(0, p) == s.subrange(0, p));
        assert(s.subrange(p, s.len() as int).drop_last() == s.drop_last().subrange(p, s.len() - 1));
    } else {
        assert(s.subrange(0, p) == s);
        assert(total_popcount(s.subrange(p, s.len() as int)) == 0);
    }
}

pub proof fn lemma_update_entry(s: Seq<GeometryHandleSetEntry>, p: int, e: GeometryHandleSetEntry)
    requires
        strictly_sorted(s),
        0 <= p < s.len(),
        s[p].index == e.index,
    ensures
        strictly_sorted(s.update(p, e)),
        entries_map(s.update(p, e)) == entries_map(s).insert(e.index, e.orientations),
        total_popcount(s.update(p, e)) + popcount(s[p].orientations) == total_popcount(s) + popcount(e.orientations),
    decreases s.len(),
{
    let t = s.update(p, e);
    if p == s.len() - 1 {
        assert(t.drop_last() == s.drop_last());
    } else {
        lemma_update_entry(s.drop_last(), p, e);
        assert(t.drop_last() == s.drop_last().update(p, e));
        assert(t.last() == s.last());
        assert(s[p].index < s.last().index);
        assert(entries_map(t) =~= entries_map(s).insert(e.index, e.orientations));
    }
}

pub proof fn lemma_insert_entry(s: Seq<GeometryHandleSetEntry>, p: int, e: GeometryHandleSetEntry)
    requires
        strictly_sorted(s),
        0 <= p <= s.len(),
        forall|j: int| 0 <= j < p ==> s[j].index < e.index,
        forall|j: int| p <= j < s.len() ==> s[j].index > e.index,
    ensures
        strictly_sorted(s.insert(p, e)),
        entries_map(s.insert(p, e)) == entries_map(s).insert(e.index, e.orientations),
        total_popcount(s.insert(p, e)) == total_popcount(s) + popcount(e.orientations),
    decreases s.len(),
{
    let t = s.insert(p, e);
    if p == s.len() {
        assert(t.drop_last() == s);
    } else {
        lemma_insert_entry(s.drop_last(), p, e);
        assert(t.drop_last() == s.drop_last().insert(p, e));
        assert(t.last() == s.last());
        assert(entries_map(t) =~= entries_map(s).insert(e.index, e.orientations));
    }
}

/// The views of a slice of sets.
pub open spec fn set_views(sets: Seq<&GeometryHandleSet>) -> Seq<Map<usize, usize>> {
    Seq::new(sets.len(), |i: int| sets[i]@)
}

pub open spec fn all_wf(sets: Seq<&GeometryHandleSet>) -> bool {
    forall|i: int| 0 <= i < sets.len() ==> #[trigger] sets[i].wf()
}

/// The union of the masks stored for `k` in the first `n` views.
pub open spec fn union_mask(views: Seq<Map<usize, usize>>, n: int, k: usize) -> usize
    decreases n,
{
    if n <= 0 {
        0
    } else {
        union_mask(views, n - 1, k) | mask_at(views[n - 1], k)
    }
}

/// The map of a union of sets: every index below `usize::MAX` that some set holds,
/// with the union of its masks.
pub open spec fn union_map(views: Seq<Map<usize, usize>>) -> Map<usize, usize> {
    Map::new(
        |k: usize| k < usize::MAX && union_mask(views, views.len() as int, k) != 0,
        |k: usize| union_mask(views, views.len() as int, k),
    )
}

/// The largest `max_rotations` among the first `n` sets, or 0.
pub open spec fn max_rotations_of(sets: Seq<&GeometryHandleSet>, n: int) -> usize
    decreases n,
{
    if n <= 0 {
        0
    } else {
        let prev = max_rotations_of(sets, n - 1);
        let cur = sets[n - 1].spec_max_rotations();
        if prev < cur { cur } else { prev }
    }
}

/// The sum of the lengths of the first `n` sets.
pub open spec fn total_length(sets: Seq<&GeometryHandleSet>, n: int) -> int
    decreases n,
{
    if n <= 0 {
        0
    } else {
        total_length(sets, n - 1) + sets[n - 1].spec_length()
    }
}

/// Population count of the entries whose index is below `floor`.
pub open spec fn popcount_below(s: Seq<GeometryHandleSetEntry>, floor: int) -> nat
    decreases s.len(),
{
    if s.len() == 0 {
        0
    } else {
        popcount_below(s.drop_last(), floor) + if s.last().index < floor { popcount(s.last().orientations) } else { 0 }
    }
}

pub open spec fn sum_below(sets: Seq<&GeometryHandleSet>, floor: int, n: int) -> int
    decreases n,
{
    if n <= 0 {
        0
    } else {
        sum_below(sets, floor, n - 1) + popcount_below(sets[n - 1].spec_entries(), floor)
    }
}

pub open spec fn sum_mask_popcount(views: Seq<Map<usize, usize>>, k: usize, n: int) -> int
    decreases n,
{
    if n <= 0 {
        0
    } else {
        sum_mask_popcount(views, k, n - 1) + popcount(mask_at(views[n - 1], k))
    }
}

/// The union of the masks of the entries at the cursors `locs` whose index is `k`,
/// over the first `n` sets.
pub open spec fn head_fold(sets: Seq<&GeometryHandleSet>, locs: Seq<usize>, k: usize, n: int) -> usize
    decreases n,
{
    if n <= 0 {
        0
    } else {
        head_fold(sets, locs, k, n - 1) | head_mask(sets[n - 1], locs[n - 1] as int, k)
    }
}

pub open spec fn head_mask(s: &GeometryHandleSet, loc: int, k: usize) -> usize {
    if loc < s.spec_entries().len() && s.spec_entries()[loc].index == k {
        s.spec_entries()[loc].orientations
    } else {
        0
    }
}

/// The entries of `s` before the cursor `loc` lie below `floor`, the ones after it
/// at `floor` or above.
pub open spec fn cursor_at(s: &GeometryHandleSet, loc: int, floor: int) -> bool {
    &&& 0 <= loc <= s.spec_entries().len()
    &&& forall|j: int| 0 <= j < loc ==> #[trigger] s.spec_entries()[j].index < floor
    &&& forall|j: int| loc <= j < s.spec_entries().len() ==> #[trigger] s.spec_entries()[j].index >= floor
}

impl GeometryHandleSet {
    /// The union of a number of sets.
    pub fn union(sets: &[&GeometryHandleSet]) -> (r: GeometryHandleSet)
        requires
            all_wf(sets@),
            total_length(sets@, sets@.len() as int) <= usize::MAX,
        ensures
            r.wf(),
            r@ == union_map(set_views(sets@)),
            r.spec_max_rotations() == max_rotations_of(sets@, sets@.len() as int),
    {
        let ghost views = set_views(sets@);
        let ghost n = sets@.len() as int;
        let mut new_entries: Vec<GeometryHandleSetEntry> = Vec::new();
        let mut max_rotations: usize = 0;
        let mut last_min_index: Option<usize> = None;
        let mut locations_at: Vec<usize> = Vec::new();
        let mut length: usize = 0;
        let ghost mut floor: int = 0;
        while locations_at.len() < sets.len()
            invariant
                locations_at@.len() <= sets@.len(),
                forall|i: int| 0 <= i < locations_at@.len() ==> locations_at@[i] == 0,
            decreases sets@.len() - locations_at@.len(),
        {
            locations_at.push(0);
        }
        proof {
            lemma_sum_below_bound(sets@, 0, n);
            lemma_sum_below_zero(sets@, n);
            assert forall|i: int| 0 <= i < n implies cursor_at(sets@[i], locations_at@[i] as int, 0) by {
                lemma_sorted_index_bound(sets@[i]);
            }
        }
        loop
            invariant
                n == sets@.len(),
                views == set_views(sets@),
                all_wf(sets@),
                total_length(sets@, n) <= usize::MAX,
                locations_at@.len() == n,
                0 <= floor <= usize::MAX,
                last_min_index is None ==> floor == 0,
                last_min_index matches Some(m) ==> floor == m + 1,
                forall|i: int| 0 <= i < n ==> {
                    ||| cursor_at(#[trigger] sets@[i], locations_at@[i] as int, floor)
                    ||| (last_min_index is Some && cursor_at(sets@[i], locations_at@[i] as int, floor - 1)
                        && head_mask(sets@[i], locations_at@[i] as int, (floor - 1) as usize) != 0)
                },
                strictly_sorted(new_entries@),
                all_nonzero(new_entries@),
                forall|j: int| 0 <= j < new_entries@.len() ==> #[trigger] new_entries@[j].index < floor,
                entries_map(new_entries@) =~= Map::new(
                    |k: usize| k < floor && union_mask(views, n, k) != 0,
                    |k: usize| union_mask(views, n, k),
                ),
                length == total_popcount(new_entries@),
                length <= sum_below(sets@, floor, n),
                sum_below(sets@, floor, n) <= total_length(sets@, n),
                max_rotations == 0 || max_rotations == max_rotations_of(sets@, n),
            decreases usize::MAX - floor,
        {
            let mut min_index: usize = usize::MAX;
            let mut min_index_orientations: usize = 0;
            let mut i: usize = 0;
            let ghost prev_max = max_rotations;
            while i < sets.len()
                invariant
                    n == sets@.len(),
                    views == set_views(sets@),
                    all_wf(sets@),
                    locations_at@.len() == n,
                    0 <= floor <= usize::MAX,
                    last_min_index is None ==> floor == 0,
                    last_min_index matches Some(m) ==> floor == m + 1,
                    0 <= i <= n,
                    forall|j: int| 0 <= j < i ==> cursor_at(#[trigger] sets@[j], locations_at@[j] as int, floor),
                    forall|j: int| i <= j < n ==> {
                        ||| cursor_at(#[trigger] sets@[j], locations_at@[j] as int, floor)
                        ||| (last_min_index is Some && cursor_at(sets@[j], locations_at@[j] as int, floor - 1)
                            && head_mask(sets@[j], locations_at@[j] as int, (floor - 1) as usize) != 0)
                    },
                    forall|j: int| 0 <= j < i && #[trigger] locations_at@[j] < sets@[j].spec_entries().len()
                        ==> sets@[j].spec_entries()[locations_at@[j] as int].index >= min_index,
                    min_index_orientations == head_fold(sets@, locations_at@, min_index, i as int),
                    min_index >= floor,
                    min_index < usize::MAX ==> min_index_orientations != 0,
                    sum_below(sets@, floor, n) <= total_length(sets@, n),
                    prev_max == 0 || prev_max == max_rotations_of(sets@, n),
                    max_rotations == if prev_max < max_rotations_of(sets@, i as int) { max_rotations_of(sets@, i as int) } else { prev_max },
                decreases n - i,
            {
                let set = sets[i];
                if max_rotations < set.max_rotations {
                    max_rotations = set.max_rotations;
                }
                let ghost locs_before = locations_at@;
                if locations_at[i] < set.entries.len() {
                    if Some(set.entries[locations_at[i]].index) == last_min_index {
                        let next = locations_at[i] + 1;
                        locations_at.set(i, next);
                        proof {
                            lemma_sorted_index_bound(set);
                            assert(cursor_at(sets@[i as int], locations_at@[i as int] as int, floor));
                        }
                    } else {
                        proof {
                            assert(cursor_at(sets@[i as int], locations_at@[i as int] as int, floor));
                        }
                    }
                } else {
                    proof {
                        assert(cursor_at(sets@[i as int], locations_at@[i as int] as int, floor));
                    }
                }
                proof {
                    lemma_head_fold_frame(sets@, locs_before, locations_at@, min_index, i as int);
                }
                if locations_at[i] < set.entries.len() {
                    let entry = set.entries[locations_at[i]];
                    if entry.index < min_index {
                        proof {
                            lemma_sorted_index_bound(set);
                            lemma_head_fold_absent(sets@, locations_at@, entry.index, i as int);
                            assert(0usize | entry.orientations == entry.orientations) by (bit_vector);
                        }
                        min_index = entry.index;
                        min_index_orientations = entry.orientations;
                    } else if entry.index == min_index {
                        proof {
                            lemma_or_nonzero(min_index_orientations, entry.orientations);
                        }
                        min_index_orientations = min_index_orientations | entry.orientations;
                    } else {
                        proof {
                            assert(min_index_orientations | 0usize == min_index_orientations) by (bit_vector);
                        }
                    }
                } else {
                    proof {
                        assert(min_index_orientations | 0usize == min_index_orientations) by (bit_vector);
                    }
                }
                i = i + 1;
            }
            if min_index != usize::MAX {
                proof {
                    lemma_head_fold_is_union(sets@, locations_at@, floor, min_index, n);
                    lemma_sum_below_step(sets@, locations_at@, floor, min_index, n);
                    lemma_popcount_union_bound(views, min_index, n);
                    lemma_sum_below_bound(sets@, min_index + 1, n);
                    lemma_union_zero_between(sets@, locations_at@, floor, min_index, n);
                }
                let entry = GeometryHandleSetEntry { index: min_index, orientations: min_index_orientations };
                let count = count_ones(min_index_orientations);
                let ghost old_new_entries = new_entries@;
                new_entries.push(entry);
                proof {
                    assert(new_entries@.drop_last() == old_new_entries);
                    assert(strictly_sorted(new_entries@));
                    assert(entries_map(new_entries@) =~= Map::new(
                        |k: usize| k < min_index + 1 && union_mask(views, n, k) != 0,
                        |k: usize| union_mask(views, n, k),
                    ));
                }
                length = length + count;
                last_min_index = Some(min_index);
                proof {
                    floor = min_index + 1;
                    assert forall|j: int| 0 <= j < n implies {
                        ||| cursor_at(#[trigger] sets@[j], locations_at@[j] as int, floor)
                        ||| (last_min_index is Some && cursor_at(sets@[j], locations_at@[j] as int, floor - 1)
                            && head_mask(sets@[j], locations_at@[j] as int, (floor - 1) as usize) != 0)
                    } by {
                        lemma_sorted_index_bound(sets@[j]);
                        if head_mask(sets@[j], locations_at@[j] as int, min_index) == 0 {
                            assert(cursor_at(sets@[j], locations_at@[j] as int, floor));
                        }
                    }
                }
            } else {
                proof {
                    lemma_union_done(sets@, locations_at@, floor, n);
                    assert(max_rotations == max_rotations_of(sets@, n));
                    assert(entries_map(new_entries@) =~= union_map(views));
                }
                return GeometryHandleSet { entries: new_entries, max_rotations, length };
            }
        }
    }
}

pub proof fn lemma_map_values_nonzero(s: &GeometryHandleSet)
    requires
        s.wf(),
    ensures
        forall|k: usize| s@.contains_key(k) ==> #[trigger] s@[k] != 0,
{
    let e = s.spec_entries();
    lemma_entries_map_keys(e);
    assert forall|k: usize| s@.contains_key(k) implies #[trigger] s@[k] != 0 by {
        let i = choose|i: int| 0 <= i < e.len() && e[i].index == k;
        lemma_entries_map_value(e, i);
    }
}

pub proof fn lemma_sorted_index_bound(s: &GeometryHandleSet)
    requires
        s.wf(),
    ensures
        strictly_sorted(s.spec_entries()),
        all_nonzero(s.spec_entries()),
        s.spec_length() == total_popcount(s.spec_entries()),
        s@ == entries_map(s.spec_entries()),
{
}

proof fn lemma_popcount_below_le_total(s: Seq<GeometryHandleSetEntry>, f: int)
    ensures
        popcount_below(s, f) <= total_popcount(s),
    decreases s.len(),
{
    if s.len() > 0 {
        lemma_popcount_below_le_total(s.drop_last(), f);
    }
}

proof fn lemma_popcount_below_zero(s: Seq<GeometryHandleSetEntry>)
    ensures
        popcount_below(s, 0) == 0,
    decreases s.len(),
{
    if s.len() > 0 {
        lemma_popcount_below_zero(s.drop_last());
    }
}

proof fn lemma_sum_below_bound(sets: Seq<&GeometryHandleSet>, f: int, n: int)
    requires
        all_wf(sets),
        n <= sets.len(),
    ensures
        sum_below(sets, f, n) <= total_length(sets, n),
    decreases n,
{
    if n > 0 {
        lemma_sum_below_bound(sets, f, n - 1);
        assert(sets[n - 1].wf());
        lemma_popcount_below_le_total(sets[n - 1].spec_entries(), f);
        lemma_sorted_index_bound(sets[n - 1]);
    }
}

proof fn lemma_sum_below_zero(sets: Seq<&GeometryHandleSet>, n: int)
    ensures
        sum_below(sets, 0, n) == 0,
    decreases n,
{
    if n > 0 {
        lemma_sum_below_zero(sets, n - 1);
        lemma_popcount_below_zero(sets[n - 1].spec_entries());
    }
}

proof fn lemma_head_fold_frame(sets: Seq<&GeometryHandleSet>, a: Seq<usize>, b: Seq<usize>, k: usize, i: int)
    requires
        a.len() == b.len(),
        i <= a.len(),
        forall|j: int| 0 <= j < i ==> a[j] == b[j],
    ensures
        head_fold(sets, a, k, i) == head_fold(sets, b, k, i),
    decreases i,
{
    if i > 0 {
        lemma_head_fold_frame(sets, a, b, k, i - 1);
    }
}

proof fn lemma_head_fold_absent(sets: Seq<&GeometryHandleSet>, locs: Seq<usize>, k: usize, i: int)
    requires
        i <= locs.len(),
        forall|j: int| 0 <= j < i && locs[j] < sets[j].spec_entries().len()
            ==> sets[j].spec_entries()[locs[j] as int].index > k,
    ensures
        head_fold(sets, locs, k, i) == 0,
    decreases i,
{
    if i > 0 {
        lemma_head_fold_absent(sets, locs, k, i - 1);
        assert(0usize | 0usize == 0usize) by (bit_vector);
    }
}

/// Behind a cursor placed at `floor`, with the head at or above `k >= floor`, the
/// mask of `k` is the head's mask when the head is at `k`, and empty otherwise.
proof fn lemma_mask_at_head(s: &GeometryHandleSet, loc: int, floor: int, k: usize)
    requires
        s.wf(),
        cursor_at(s, loc, floor),
        k >= floor,
        loc < s.spec_entries().len() ==> s.spec_entries()[loc].index >= k,
    ensures
        mask_at(s@, k) == head_mask(s, loc, k),
{
    let e = s.spec_entries();
    lemma_entries_map_keys(e);
    if loc < e.len() && e[loc].index == k {
        lemma_entries_map_value(e, loc);
    } else {
        if s@.contains_key(k) {
            let j = choose|j: int| 0 <= j < e.len() && e[j].index == k;
            if j < loc {
                assert(e[j].index < floor);
            } else if j > loc {
                assert(e[loc].index < e[j].index);
            }
        }
    }
}

proof fn lemma_head_fold_is_union(sets: Seq<&GeometryHandleSet>, locs: Seq<usize>, floor: int, k: usize, n: int)
    requires
        all_wf(sets),
        n == sets.len(),
        locs.len() == n,
        k >= floor,
        forall|j: int| 0 <= j < n ==> cursor_at(#[trigger] sets[j], locs[j] as int, floor),
        forall|j: int| 0 <= j < n && #[trigger] locs[j] < sets[j].spec_entries().len()
            ==> sets[j].spec_entries()[locs[j] as int].index >= k,
    ensures
        head_fold(sets, locs, k, n) == union_mask(set_views(sets), n, k),
{
    lemma_head_fold_is_union_prefix(sets, locs, floor, k, n);
}

proof fn lemma_head_fold_is_union_prefix(sets: Seq<&GeometryHandleSet>, locs: Seq<usize>, floor: int, k: usize, i: int)
    requires
        all_wf(sets),
        locs.len() == sets.len(),
        0 <= i <= sets.len(),
        k >= floor,
        forall|j: int| 0 <= j < sets.len() ==> cursor_at(#[trigger] sets[j], locs[j] as int, floor),
        forall|j: int| 0 <= j < sets.len() && #[trigger] locs[j] < sets[j].spec_entries().len()
            ==> sets[j].spec_entries()[locs[j] as int].index >= k,
    ensures
        head_fold(sets, locs, k, i) == union_mask(set_views(sets), i, k),
    decreases i,
{
    if i > 0 {
        lemma_head_fold_is_union_prefix(sets, locs, floor, k, i - 1);
        assert(sets[i - 1].wf());
        assert(cursor_at(sets[i - 1], locs[i - 1] as int, floor));
        lemma_mask_at_head(sets[i - 1], locs[i - 1] as int, floor, k);
        assert(set_views(sets)[i - 1] == sets[i - 1]@);
    }
}

proof fn lemma_popcount_below_step(s: &GeometryHandleSet, loc: int, floor: int, k: usize)
    requires
        s.wf(),
        cursor_at(s, loc, floor),
        k >= floor,
        loc < s.spec_entries().len() ==> s.spec_entries()[loc].index >= k,
    ensures
        popcount_below(s.spec_entries(), k + 1) == popcount_below(s.spec_entries(), floor) + popcount(mask_at(s@, k)),
{
    lemma_mask_at_head(s, loc, floor, k);
    lemma_popcount_below_prefix(s.spec_entries(), loc, floor, k);
}

proof fn lemma_popcount_below_prefix(e: Seq<GeometryHandleSetEntry>, loc: int, floor: int, k: usize)
    requires
        strictly_sorted(e),
        0 <= loc <= e.len(),
        forall|j: int| 0 <= j < loc ==> #[trigger] e[j].index < floor,
        forall|j: int| loc <= j < e.len() ==> #[trigger] e[j].index >= floor,
        k >= floor,
        loc < e.len() ==> e[loc].index >= k,
    ensures
        popcount_below(e, k + 1) == popcount_below(e, floor) + (if loc < e.len() && e[loc].index == k {
            popcount(e[loc].orientations)
        } else {
            0
        }),
    decreases e.len(),
{
    if e.len() > 0 {
        let d = e.drop_last();
        if loc == e.len() {
            lemma_popcount_below_prefix(d, loc - 1, floor, k);
            if loc - 1 < d.len() && d[loc - 1].index == k {
                assert(d[loc - 1].index < floor);
            }
        } else if loc == e.len() - 1 {
            lemma_popcount_below_prefix(d, loc, floor, k);
        } else {
            assert(e[loc].index < e.last().index);
            lemma_popcount_below_prefix(d, loc, floor, k);
            assert(d[loc] == e[loc]);
        }
    }
}

proof fn lemma_sum_below_step(sets: Seq<&GeometryHandleSet>, locs: Seq<usize>, floor: int, k: usize, n: int)
    requires
        all_wf(sets),
        n <= sets.len(),
        locs.len() == sets.len(),
        k >= floor,
        forall|j: int| 0 <= j < sets.len() ==> cursor_at(#[trigger] sets[j], locs[j] as int, floor),
        forall|j: int| 0 <= j < sets.len() && #[trigger] locs[j] < sets[j].spec_entries().len()
            ==> sets[j].spec_entries()[locs[j] as int].index >= k,
    ensures
        sum_below(sets, k + 1, n) == sum_below(sets, floor, n) + sum_mask_popcount(set_views(sets), k, n),
    decreases n,
{
    if n > 0 {
        lemma_sum_below_step(sets, locs, floor, k, n - 1);
        assert(sets[n - 1].wf());
        assert(cursor_at(sets[n - 1], locs[n - 1] as int, floor));
        lemma_popcount_below_step(sets[n - 1], locs[n - 1] as int, floor, k);
        assert(set_views(sets)[n - 1] == sets[n - 1]@);
    }
}

proof fn lemma_popcount_or_le(a: usize, b: usize)
    ensures
        popcount(a | b) <= popcount(a) + popcount(b),
    decreases a,
{
    lemma_popcount_unfold(a);
    lemma_popcount_unfold(b);
    lemma_popcount_unfold(a | b);
    if a != 0 {
        assert((a | b) % 2 <= a % 2 + b % 2 && (a | b) / 2 == (a / 2) | (b / 2)) by (bit_vector);
        lemma_popcount_or_le(a / 2, b / 2);
    } else {
        assert(0usize | b == b) by (bit_vector);
    }
}

proof fn lemma_popcount_union_bound(views: Seq<Map<usize, usize>>, k: usize, n: int)
    ensures
        popcount(union_mask(views, n, k)) <= sum_mask_popcount(views, k, n),
    decreases n,
{
    if n > 0 {
        lemma_popcount_union_bound(views, k, n - 1);
        lemma_popcount_or_le(union_mask(views, n - 1, k), mask_at(views[n - 1], k));
    } else {
        assert(popcount(0) == 0);
    }
}

proof fn lemma_union_zero_at(views: Seq<Map<usize, usize>>, k: usize, n: int)
    requires
        n <= views.len(),
        forall|j: int| 0 <= j < n ==> mask_at(#[trigger] views[j], k) == 0,
    ensures
        union_mask(views, n, k) == 0,
    decreases n,
{
    if n > 0 {
        lemma_union_zero_at(views, k, n - 1);
        assert(0usize | 0usize == 0usize) by (bit_vector);
    }
}

/// With every cursor at or past `floor` and every head at or above `m`, no set holds
/// an index in `[floor, m)`.
proof fn lemma_union_zero_between(sets: Seq<&GeometryHandleSet>, locs: Seq<usize>, floor: int, m: usize, n: int)
    requires
        all_wf(sets),
        n == sets.len(),
        locs.len() == n,
        forall|j: int| 0 <= j < n ==> cursor_at(#[trigger] sets[j], locs[j] as int, floor),
        forall|j: int| 0 <= j < n && #[trigger] locs[j] < sets[j].spec_entries().len()
            ==> sets[j].spec_entries()[locs[j] as int].index >= m,
    ensures
        forall|k: usize| floor <= k < m ==> #[trigger] union_mask(set_views(sets), n, k) == 0,
{
    assert forall|k: usize| floor <= k < m implies #[trigger] union_mask(set_views(sets), n, k) == 0 by {
        assert forall|j: int| 0 <= j < n implies mask_at(#[trigger] set_views(sets)[j], k) == 0 by {
            assert(sets[j].wf());
            assert(cursor_at(sets[j], locs[j] as int, floor));
            lemma_mask_at_head(sets[j], locs[j] as int, floor, k);
        }
        lemma_union_zero_at(set_views(sets), k, n);
    }
}

proof fn lemma_union_done(sets: Seq<&GeometryHandleSet>, locs: Seq<usize>, floor: int, n: int)
    requires
        all_wf(sets),
        n == sets.len(),
        locs.len() == n,
        forall|j: int| 0 <= j < n ==> cursor_at(#[trigger] sets[j], locs[j] as int, floor),
        forall|j: int| 0 <= j < n && #[trigger] locs[j] < sets[j].spec_entries().len()
            ==> sets[j].spec_entries()[locs[j] as int].index >= usize::MAX,
    ensures
        forall|k: usize| floor <= k < usize::MAX ==> #[trigger] union_mask(set_views(sets), n, k) == 0,
{
    lemma_union_zero_between(sets, locs, floor, usize::MAX, n);
}

/// The intersection of the masks stored for `k` in the views `lo..hi`; the full mask
/// when the range is empty.
pub open spec fn and_range(views: Seq<Map<usize, usize>>, lo: int, hi: int, k: usize) -> usize
    decreases hi - lo,
{
    if hi <= lo {
        !0usize
    } else {
        and_range(views, lo, hi - 1, k) & mask_at(views[hi - 1], k)
    }
}

/// The intersection of the masks stored for `k` in all views; empty when there is
/// no view.
pub open spec fn intersection_mask(views: Seq<Map<usize, usize>>, k: usize) -> usize {
    if views.len() == 0 {
        0
    } else {
        and_range(views, 0, views.len() as int, k)
    }
}

/// The map of an intersection of sets: every index that all sets hold with a common
/// orientation, with the intersection of its masks.
pub open spec fn intersection_map(views: Seq<Map<usize, usize>>) -> Map<usize, usize> {
    Map::new(|k: usize| intersection_mask(views, k) != 0, |k: usize| intersection_mask(views, k))
}

/// The position in `0..n` of the `t`-th set of a window starting at `start`.
pub open spec fn window_index(start: int, t: int, n: int) -> int {
    if start + t < n { start + t } else { start + t - n }
}

/// Whether set `j` belongs to the window of `w` sets starting at `start`.
pub open spec fn in_window(j: int, start: int, w: int, n: int) -> bool {
    (start <= j < start + w) || (j < start + w - n)
}

/// The intersection of the masks for `k` over a window of `w` sets that starts at
/// `start` and wraps around.
pub open spec fn window_and(views: Seq<Map<usize, usize>>, start: int, w: int, k: usize) -> usize
    decreases w,
{
    if w <= 0 {
        !0usize
    } else {
        window_and(views, start, w - 1, k) & mask_at(views[window_index(start, w - 1, views.len() as int)], k)
    }
}

/// The largest `max_rotations` among the first `t` sets visited in the order
/// `1, 2, .., n - 1, 0, 1, ..`.
pub open spec fn cyclic_max_rotations(sets: Seq<&GeometryHandleSet>, t: int) -> usize
    decreases t,
{
    if t <= 0 || sets.len() == 0 {
        0
    } else {
        let prev = cyclic_max_rotations(sets, t - 1);
        let cur = sets[(t % sets.len() as int)].spec_max_rotations();
        if prev < cur { cur } else { prev }
    }
}

pub proof fn lemma_and_facts(a: usize, b: usize, c: usize) by (bit_vector)
    ensures
        a & b == b & a,
        (a & b) & c == a & (b & c),
        a & !0usize == a,
        !0usize & a == a,
        0usize & a == 0,
        a & 0usize == 0,
        a & a == a,
{
}

proof fn lemma_and_range_split(views: Seq<Map<usize, usize>>, lo: int, mid: int, hi: int, k: usize)
    requires
        lo <= mid <= hi,
    ensures
        and_range(views, lo, hi, k) == and_range(views, lo, mid, k) & and_range(views, mid, hi, k),
    decreases hi - mid,
{
    if hi == mid {
        lemma_and_facts(and_range(views, lo, mid, k), 0, 0);
    } else {
        lemma_and_range_split(views, lo, mid, hi - 1, k);
        lemma_and_facts(and_range(views, lo, mid, k), and_range(views, mid, hi - 1, k), mask_at(views[hi - 1], k));
    }
}

proof fn lemma_window_and_ranges(views: Seq<Map<usize, usize>>, start: int, w: int, k: usize)
    requires
        0 <= start < views.len(),
        0 <= w <= views.len(),
    ensures
        window_and(views, start, w, k) == if start + w <= views.len() {
            and_range(views, start, start + w, k)
        } else {
            and_range(views, start, views.len() as int, k) & and_range(views, 0, start + w - views.len(), k)
        },
    decreases w,
{
    let n = views.len() as int;
    if w > 0 {
        lemma_window_and_ranges(views, start, w - 1, k);
        let m = mask_at(views[window_index(start, w - 1, n)], k);
        if start + w <= n {
        } else if start + w - 1 == n {
            lemma_and_facts(and_range(views, start, n, k), m, 0);
            lemma_and_facts(m, 0, 0);
            assert(and_range(views, 0, 0, k) == !0usize);
            assert(and_range(views, 0, 1, k) == !0usize & m);
        } else {
            lemma_and_facts(and_range(views, start, n, k), and_range(views, 0, start + w - 1 - n, k), m);
        }
    }
}

/// A full window, wherever it starts, intersects all sets.
proof fn lemma_full_window(views: Seq<Map<usize, usize>>, start: int, k: usize)
    requires
        0 <= start < views.len(),
    ensures
        window_and(views, start, views.len() as int, k) == intersection_mask(views, k),
{
    let n = views.len() as int;
    lemma_window_and_ranges(views, start, n, k);
    if start > 0 {
        lemma_and_range_split(views, 0, start, n, k);
        lemma_and_facts(and_range(views, start, n, k), and_range(views, 0, start, k), 0);
    }
}

proof fn lemma_window_zero_grows(views: Seq<Map<usize, usize>>, start: int, w: int, w2: int, k: usize)
    requires
        0 <= w <= w2,
        window_and(views, start, w, k) == 0,
    ensures
        window_and(views, start, w2, k) == 0,
    decreases w2 - w,
{
    if w2 > w {
        lemma_window_zero_grows(views, start, w, w2 - 1, k);
        lemma_and_facts(mask_at(views[window_index(start, w2 - 1, views.len() as int)], k), 0, 0);
    }
}

proof fn lemma_and_range_zero(views: Seq<Map<usize, usize>>, lo: int, hi: int, j: int, k: usize)
    requires
        lo <= j < hi,
        mask_at(views[j], k) == 0,
    ensures
        and_range(views, lo, hi, k) == 0,
    decreases hi - lo,
{
    if hi - 1 == j {
        lemma_and_facts(and_range(views, lo, hi - 1, k), 0, 0);
    } else {
        lemma_and_range_zero(views, lo, hi - 1, j, k);
        lemma_and_facts(mask_at(views[hi - 1], k), 0, 0);
    }
}

/// Some set without `k` keeps `k` out of the intersection.
proof fn lemma_intersection_absent(views: Seq<Map<usize, usize>>, j: int, k: usize)
    requires
        0 <= j < views.len(),
        mask_at(views[j], k) == 0,
    ensures
        intersection_mask(views, k) == 0,
{
    lemma_and_range_zero(views, 0, views.len() as int, j, k);
}

proof fn lemma_cyclic_max_bound(sets: Seq<&GeometryHandleSet>, t: int)
    requires
        sets.len() > 0,
    ensures
        cyclic_max_rotations(sets, t) <= max_rotations_of(sets, sets.len() as int),
    decreases t,
{
    if t > 0 {
        lemma_cyclic_max_bound(sets, t - 1);
        let j = t % sets.len() as int;
        lemma_max_rotations_of_ge(sets, j, sets.len() as int);
    }
}

proof fn lemma_max_rotations_of_ge(sets: Seq<&GeometryHandleSet>, j: int, n: int)
    requires
        0 <= j < n,
    ensures
        sets[j].spec_max_rotations() <= max_rotations_of(sets, n),
    decreases n,
{
    if j < n - 1 {
        lemma_max_rotations_of_ge(sets, j, n - 1);
    }
}

impl GeometryHandleSet {
    /// The intersection of a number of sets.
    ///
    /// The `max_rotations` of the result is the largest one among the sets that the
    /// walk over the sets visited before it ended; the walk visits the sets in the
    /// order `1, 2, .., n - 1, 0, 1, ..`.
    pub fn intersection(sets: &[&GeometryHandleSet]) -> (r: GeometryHandleSet)
        requires
            all_wf(sets@),
        ensures
            r.wf(),
            r@ == intersection_map(set_views(sets@)),
            sets@.len() == 1 ==> r.spec_entries() == sets@[0].spec_entries()
                && r.spec_max_rotations() == sets@[0].spec_max_rotations(),
            sets@.len() == 0 || (sets@.len() > 1 && sets@[0].spec_entries().len() == 0) ==> r.spec_max_rotations() == 0,
            sets@.len() > 1 && sets@[0].spec_entries().len() > 0 ==> exists|t: int|
                1 <= t && r.spec_max_rotations() == #[trigger] cyclic_max_rotations(sets@, t),
            r.spec_max_rotations() <= max_rotations_of(sets@, sets@.len() as int),
    {
        let ghost views = set_views(sets@);
        if sets.len() == 1 {
            let only = sets[0];
            proof {
                lemma_sorted_index_bound(only);
                assert forall|k: usize| #[trigger] intersection_mask(views, k) == mask_at(only@, k) by {
                    lemma_and_facts(mask_at(only@, k), 0, 0);
                    assert(and_range(views, 0, 0, k) == !0usize);
                    assert(views[0] == only@);
                }
                lemma_map_values_nonzero(only);
                assert(only@ =~= intersection_map(views));
                lemma_max_rotations_of_ge(sets@, 0, 1);
            }
            return GeometryHandleSet {
                entries: only.entries.clone(),
                max_rotations: only.max_rotations,
                length: only.length,
            };
        }
        let mut new_entries: Vec<GeometryHandleSetEntry> = Vec::new();
        let mut max_rotations: usize = 0;
        let mut length: usize = 0;
        if sets.len() == 0 {
            proof {
                assert(entries_map(new_entries@) =~= intersection_map(views));
            }
            return GeometryHandleSet { entries: new_entries, max_rotations, length };
        }
        if sets[0].entries.len() == 0 {
            proof {
                assert forall|k: usize| #[trigger] intersection_mask(views, k) == 0 by {
                    lemma_entries_map_keys(sets@[0].spec_entries());
                    assert(views[0] == sets@[0]@);
                    lemma_intersection_absent(views, 0, k);
                }
                assert(entries_map(new_entries@) =~= intersection_map(views));
            }
            return GeometryHandleSet { entries: new_entries, max_rotations, length };
        }
        let ghost n = sets@.len() as int;
        let first = sets[0];
        proof {
            lemma_sorted_index_bound(first);
            lemma_entries_map_value(first.spec_entries(), 0);
            assert(views[0] == first@);
            lemma_and_facts(first.spec_entries()[0].orientations, 0, 0);
        }
        let mut current_index = first.entries[0].index;
        let mut current_index_orientations = first.entries[0].orientations;
        let mut last_incremented_at: usize = 0;
        let mut at: usize = 1;
        let ghost mut w: int = 1;
        let ghost mut t: int = 0;
        let mut locations: Vec<usize> = Vec::new();
        while locations.len() < sets.len()
            invariant
                locations@.len() <= sets@.len(),
                forall|i: int| 0 <= i < locations@.len() ==> locations@[i] == 0,
            decreases sets@.len() - locations@.len(),
        {
            locations.push(0);
        }
        proof {
            assert forall|k: usize| k < current_index implies #[trigger] intersection_mask(views, k) == 0 by {
                lemma_gap_absent(first, 0, k);
                lemma_intersection_absent(views, 0, k);
            }
            assert(entries_map(new_entries@) =~= Map::new(
                |k: usize| k < current_index && intersection_mask(views, k) != 0,
                |k: usize| intersection_mask(views, k),
            ));
            vstd::arithmetic::div_mod::lemma_small_mod(1, n as nat);
            assert(window_index(0, 0, n) == 0);
            assert(window_and(views, 0, 0, current_index) == !0usize);
            assert(window_and(views, 0, 1, current_index) == !0usize & mask_at(views[0], current_index));
        }
        loop
            invariant
                n == sets@.len(),
                n >= 2,
                views == set_views(sets@),
                all_wf(sets@),
                locations@.len() == n,
                0 <= last_incremented_at < n,
                0 <= at < n,
                1 <= w <= n,
                at == window_index(last_incremented_at as int, w, n),
                t >= 0,
                at as int == (1 + t) % n,
                max_rotations == cyclic_max_rotations(sets@, t),
                forall|j: int| 0 <= j < n ==> #[trigger] locations@[j] <= sets@[j].spec_entries().len(),
                forall|j: int, e: int| 0 <= j < n && 0 <= e < locations@[j]
                    ==> #[trigger] sets@[j].spec_entries()[e].index < current_index,
                forall|j: int| 0 <= j < n && in_window(j, last_incremented_at as int, w, n)
                    ==> #[trigger] locations@[j] < sets@[j].spec_entries().len()
                        && sets@[j].spec_entries()[locations@[j] as int].index == current_index,
                current_index_orientations == window_and(views, last_incremented_at as int, w, current_index),
                current_index_orientations != 0,
                strictly_sorted(new_entries@),
                all_nonzero(new_entries@),
                forall|j: int| 0 <= j < new_entries@.len() ==> #[trigger] new_entries@[j].index < current_index,
                entries_map(new_entries@) =~= Map::new(
                    |k: usize| k < current_index && intersection_mask(views, k) != 0,
                    |k: usize| intersection_mask(views, k),
                ),
                length == total_popcount(new_entries@),
                length <= popcount_below(sets@[0].spec_entries(), current_index as int),
                sets@[0].spec_entries().len() > 0,
            decreases
                remaining_entries(sets@, locations@, n),
                usize::MAX - current_index,
                n - w,
        {
            let set = sets[at];
            proof {
                lemma_sorted_index_bound(set);
            }
            if max_rotations < set.max_rotations {
                max_rotations = set.max_rotations;
            }
            let ghost mut fresh = false;
            let ghost start_rem = remaining_entries(sets@, locations@, n);
            let ghost start_current = current_index;
            let ghost start_w = w;
            if last_incremented_at == at {
                // every set holds `current_index`: record it
                proof {
                    assert(w == n);
                    lemma_full_window(views, last_incremented_at as int, current_index);
                    lemma_popcount_le(current_index_orientations);
                }
                let ghost old_new_entries = new_entries@;
                new_entries.push(GeometryHandleSetEntry { index: current_index, orientations: current_index_orientations });
                let count = count_ones(current_index_orientations);
                proof {
                    assert(new_entries@.drop_last() == old_new_entries);
                    let s0 = sets@[0];
                    assert(s0.wf());
                    assert(in_window(0, last_incremented_at as int, w, n));
                    assert(cursor_at(s0, locations@[0] as int, current_index as int)) by {
                        lemma_sorted_index_bound(s0);
                    }
                    lemma_popcount_below_step(s0, locations@[0] as int, current_index as int, current_index);
                    lemma_intersection_popcount_first(views, current_index);
                    assert(views[0] == s0@);
                    lemma_popcount_below_le_total(s0.spec_entries(), current_index + 1);
                    lemma_sorted_index_bound(s0);
                }
                length = length + count;
                let set_len = set.entries.len();
                proof {
                    assert(in_window(at as int, last_incremented_at as int, w, n));
                    assert(locations@[at as int] < set_len);
                }
                let next = locations[at] + 1;
                let ghost prev_locations = locations@;
                locations.set(at, next);
                proof {
                    lemma_remaining_entries_dec(sets@, prev_locations, locations@, at as int, n);
                }
                if locations[at] < set.entries.len() {
                    proof {
                        assert(set.spec_entries()[next - 1].index < set.spec_entries()[next as int].index);
                        assert forall|k: usize| current_index < k < set.spec_entries()[next as int].index
                            implies #[trigger] intersection_mask(views, k) == 0 by {
                            lemma_gap_absent(set, next as int, k);
                            assert(views[at as int] == set@);
                            lemma_intersection_absent(views, at as int, k);
                        }
                        assert(entries_map(new_entries@) =~= Map::new(
                            |k: usize| k < set.spec_entries()[next as int].index && intersection_mask(views, k) != 0,
                            |k: usize| intersection_mask(views, k),
                        ));
                        w = 0;
                        fresh = true;
                        lemma_popcount_below_monotone(sets@[0].spec_entries(), current_index + 1, set.spec_entries()[next as int].index as int);
                        lemma_entries_map_value(set.spec_entries(), next as int);
                        lemma_and_facts(set.spec_entries()[next as int].orientations, 0, 0);
                    }
                    current_index = set.entries[locations[at]].index;
                    current_index_orientations = set.entries[locations[at]].orientations;
                } else {
                    proof {
                        assert forall|k: usize| current_index < k implies #[trigger] intersection_mask(views, k) == 0 by {
                            lemma_gap_absent(set, next as int, k);
                            assert(views[at as int] == set@);
                            lemma_intersection_absent(views, at as int, k);
                        }
                        assert(entries_map(new_entries@) =~= intersection_map(views));
                        assert(cyclic_max_rotations(sets@, t + 1) == max_rotations);
                        lemma_cyclic_max_bound(sets@, t + 1);
                    }
                    return GeometryHandleSet { entries: new_entries, max_rotations, length };
                }
            }
            // bring this set up to `current_index`
            let ghost entry_locations = locations@;
            let ghost mut outcome: int = 0;
            while locations[at] < set.entries.len()
                invariant_except_break
                    outcome == 0,
                invariant
                    n == sets@.len(),
                    n >= 2,
                    views == set_views(sets@),
                    all_wf(sets@),
                    set == sets@[at as int],
                    fresh ==> w == 0 && last_incremented_at == at && locations@[at as int] == entry_locations[at as int]
                        && locations@[at as int] < set.spec_entries().len()
                        && set.spec_entries()[locations@[at as int] as int].index == current_index
                        && current_index_orientations == set.spec_entries()[locations@[at as int] as int].orientations,
                    !fresh ==> start_rem == remaining_entries(sets@, entry_locations, n) && start_w == w,
                    fresh ==> start_rem > remaining_entries(sets@, entry_locations, n),
                    current_index >= start_current,
                    outcome == 2 ==> current_index > start_current,
                    !fresh && outcome != 2 ==> current_index == start_current,
                    current_index_orientations == 0 ==> locations@[at as int] > 0
                        && set.spec_entries()[locations@[at as int] - 1].index == current_index,
                    set.wf(),
                    sets@[0].spec_entries().len() > 0,
                    locations@.len() == n,
                    entry_locations.len() == n,
                    0 <= last_incremented_at < n,
                    0 <= at < n,
                    0 <= w < n,
                    0 <= outcome <= 2,
                    outcome != 2 ==> at == window_index(last_incremented_at as int, w, n),
                    outcome == 2 ==> last_incremented_at == at,
                    forall|j: int| 0 <= j < n ==> #[trigger] locations@[j] <= sets@[j].spec_entries().len(),
                    forall|j: int, e: int| 0 <= j < n && j != at && 0 <= e < locations@[j]
                        ==> #[trigger] sets@[j].spec_entries()[e].index < current_index,
                    forall|e: int| 0 <= e < locations@[at as int] ==> #[trigger] set.spec_entries()[e].index <= current_index,
                    outcome != 0 || current_index_orientations != 0 ==> forall|e: int| 0 <= e < locations@[at as int]
                        ==> #[trigger] set.spec_entries()[e].index < current_index,
                    outcome == 0 && current_index_orientations == 0 ==> intersection_mask(views, current_index) == 0,
                    outcome == 0 && current_index_orientations != 0 && !fresh ==> current_index_orientations
                        == window_and(views, last_incremented_at as int, w, current_index),
                    outcome == 1 ==> current_index_orientations
                        == window_and(views, last_incremented_at as int, w + 1, current_index),
                    outcome == 2 ==> current_index_orientations
                        == window_and(views, last_incremented_at as int, 1, current_index),
                    outcome != 0 ==> current_index_orientations != 0
                        && locations@[at as int] < set.spec_entries().len()
                        && set.spec_entries()[locations@[at as int] as int].index == current_index,
                    outcome != 2 ==> forall|j: int| 0 <= j < n && in_window(j, last_incremented_at as int, w, n)
                        ==> #[trigger] locations@[j] < sets@[j].spec_entries().len()
                            && sets@[j].spec_entries()[locations@[j] as int].index == current_index,
                    forall|j: int| 0 <= j < n && j != at ==> #[trigger] locations@[j] == entry_locations[j],
                    locations@[at as int] >= entry_locations[at as int],
                    strictly_sorted(new_entries@),
                    all_nonzero(new_entries@),
                    forall|j: int| 0 <= j < new_entries@.len() ==> #[trigger] new_entries@[j].index < current_index,
                    entries_map(new_entries@) =~= Map::new(
                        |k: usize| k < current_index && intersection_mask(views, k) != 0,
                        |k: usize| intersection_mask(views, k),
                    ),
                    length == total_popcount(new_entries@),
                    length <= popcount_below(sets@[0].spec_entries(), current_index as int),
                ensures
                    outcome == 0 ==> locations@[at as int] >= set.spec_entries().len(),
                decreases set.spec_entries().len() - locations@[at as int],
            {
                let entry = set.entries[locations[at]];
                proof {
                    lemma_sorted_index_bound(set);
                    lemma_entries_map_value(set.spec_entries(), locations@[at as int] as int);
                    assert(views[at as int] == set@);
                }
                if entry.index < current_index {
                    let next = locations[at] + 1;
                    locations.set(at, next);
                } else if entry.index == current_index {
                    proof {
                        lemma_and_facts(current_index_orientations, entry.orientations, 0);
                    }
                    proof {
                        assert(window_index(last_incremented_at as int, w, n) == at);
                        assert(mask_at(views[at as int], current_index) == entry.orientations);
                        if fresh {
                            assert(window_and(views, last_incremented_at as int, 0, current_index) == !0usize);
                            lemma_and_facts(entry.orientations, 0, 0);
                            assert(current_index_orientations & entry.orientations == entry.orientations);
                            assert(window_and(views, last_incremented_at as int, w + 1, current_index) == entry.orientations);
                        } else {
                            assert(current_index_orientations != 0 ==>
                                window_and(views, last_incremented_at as int, w + 1, current_index)
                                    == current_index_orientations & entry.orientations);
                        }
                    }
                    if current_index_orientations & entry.orientations == 0 {
                        proof {
                            if current_index_orientations == 0 {
                                assert(set.spec_entries()[locations@[at as int] - 1].index < entry.index);
                            }
                            if current_index_orientations != 0 {
                                assert(window_and(views, last_incremented_at as int, w + 1, current_index) == 0);
                                lemma_window_zero_grows(views, last_incremented_at as int, w + 1, n, current_index);
                                lemma_full_window(views, last_incremented_at as int, current_index);
                            }
                        }
                        current_index_orientations = 0;
                        let next = locations[at] + 1;
                        locations.set(at, next);
                    } else {
                        current_index_orientations = current_index_orientations & entry.orientations;
                        proof {
                            outcome = 1;
                        }
                        break;
                    }
                } else {
                    proof {
                        assert forall|k: usize| current_index <= k < entry.index
                            implies #[trigger] intersection_mask(views, k) == 0 by {
                            if current_index_orientations != 0 || k != current_index {
                                lemma_gap_absent(set, locations@[at as int] as int, k);
                                lemma_intersection_absent(views, at as int, k);
                            }
                        }
                        assert(entries_map(new_entries@) =~= Map::new(
                            |k: usize| k < entry.index && intersection_mask(views, k) != 0,
                            |k: usize| intersection_mask(views, k),
                        ));
                        lemma_and_facts(entry.orientations, 0, 0);
                        lemma_popcount_below_monotone(sets@[0].spec_entries(), current_index as int, entry.index as int);
                        assert(window_index(at as int, 0, n) == at);
                        assert(window_and(views, at as int, 0, entry.index) == !0usize);
                        assert(window_and(views, at as int, 1, entry.index) == !0usize & mask_at(views[at as int], entry.index));
                    }
                    current_index = entry.index;
                    current_index_orientations = entry.orientations;
                    last_incremented_at = at;
                    proof {
                        outcome = 2;
                    }
                    break;
                }
            }
            if locations[at] >= set.entries.len() {
                proof {
                    assert forall|k: usize| current_index <= k implies #[trigger] intersection_mask(views, k) == 0 by {
                        if current_index_orientations != 0 || k != current_index {
                            lemma_gap_absent(set, locations@[at as int] as int, k);
                            assert(views[at as int] == set@);
                            lemma_intersection_absent(views, at as int, k);
                        }
                    }
                    assert(entries_map(new_entries@) =~= intersection_map(views));
                    assert(cyclic_max_rotations(sets@, t + 1) == max_rotations);
                    lemma_cyclic_max_bound(sets@, t + 1);
                }
                return GeometryHandleSet { entries: new_entries, max_rotations, length };
            }
            proof {
                lemma_remaining_entries_le(sets@, entry_locations, locations@, at as int, n);
                if outcome == 1 {
                    assert(at == window_index(last_incremented_at as int, w, n));
                    w = w + 1;
                } else {
                    w = 1;
                }
                t = t + 1;
            }
            let ghost old_at = at as int;
            at = at + 1;
            at = at % sets.len();
            proof {
                if old_at + 1 < n {
                    vstd::arithmetic::div_mod::lemma_small_mod((old_at + 1) as nat, n as nat);
                } else {
                    vstd::arithmetic::div_mod::lemma_mod_self_0(n);
                }
                vstd::arithmetic::div_mod::lemma_add_mod_noop(1 + (t - 1), 1, n);
                vstd::arithmetic::div_mod::lemma_small_mod(1, n as nat);
                assert(old_at == window_index(last_incremented_at as int, w - 1, n));
                assert(at == window_index(last_incremented_at as int, w, n));
                lemma_remaining_nonneg(sets@, locations@, n);
                assert(remaining_entries(sets@, locations@, n) < start_rem
                    || (remaining_entries(sets@, locations@, n) == start_rem && (current_index > start_current
                        || (current_index == start_current && w > start_w))));
            }
        }
    }
}

/// The number of entries that the cursors have still to pass, over the first `n` sets.
pub open spec fn remaining_entries(sets: Seq<&GeometryHandleSet>, locs: Seq<usize>, n: int) -> int
    decreases n,
{
    if n <= 0 {
        0
    } else {
        remaining_entries(sets, locs, n - 1) + (sets[n - 1].spec_entries().len() - locs[n - 1])
    }
}

proof fn lemma_remaining_nonneg(sets: Seq<&GeometryHandleSet>, locs: Seq<usize>, n: int)
    requires
        n <= sets.len(),
        n <= locs.len(),
        forall|j: int| 0 <= j < n ==> #[trigger] locs[j] <= sets[j].spec_entries().len(),
    ensures
        remaining_entries(sets, locs, n) >= 0,
    decreases n,
{
    if n > 0 {
        lemma_remaining_nonneg(sets, locs, n - 1);
    }
}

proof fn lemma_remaining_entries_dec(sets: Seq<&GeometryHandleSet>, a: Seq<usize>, b: Seq<usize>, at: int, n: int)
    requires
        0 <= at < n,
        a.len() >= n,
        b.len() >= n,
        forall|j: int| 0 <= j < n && j != at ==> a[j] == b[j],
        b[at] == a[at] + 1,
    ensures
        remaining_entries(sets, b, n) == remaining_entries(sets, a, n) - 1,
    decreases n,
{
    if n - 1 != at {
        lemma_remaining_entries_dec(sets, a, b, at, n - 1);
    } else {
        lemma_remaining_entries_same(sets, a, b, n - 1);
    }
}

proof fn lemma_remaining_entries_same(sets: Seq<&GeometryHandleSet>, a: Seq<usize>, b: Seq<usize>, n: int)
    requires
        a.len() >= n,
        b.len() >= n,
        forall|j: int| 0 <= j < n ==> a[j] == b[j],
    ensures
        remaining_entries(sets, b, n) == remaining_entries(sets, a, n),
    decreases n,
{
    if n > 0 {
        lemma_remaining_entries_same(sets, a, b, n - 1);
    }
}

proof fn lemma_remaining_entries_le(sets: Seq<&GeometryHandleSet>, a: Seq<usize>, b: Seq<usize>, at: int, n: int)
    requires
        0 <= at < n,
        a.len() >= n,
        b.len() >= n,
        forall|j: int| 0 <= j < n && j != at ==> a[j] == b[j],
        b[at] >= a[at],
    ensures
        remaining_entries(sets, b, n) <= remaining_entries(sets, a, n),
        b[at] > a[at] ==> remaining_entries(sets, b, n) < remaining_entries(sets, a, n),
    decreases n,
{
    if n - 1 != at {
        lemma_remaining_entries_le(sets, a, b, at, n - 1);
    } else {
        lemma_remaining_entries_same(sets, a, b, n - 1);
    }
}

/// A sorted set holds no index strictly between its entries `p - 1` and `p` (or
/// beyond its last entry when `p` is its length).
proof fn lemma_gap_absent(s: &GeometryHandleSet, p: int, k: usize)
    requires
        s.wf(),
        0 <= p <= s.spec_entries().len(),
        p > 0 ==> s.spec_entries()[p - 1].index <= k,
        p < s.spec_entries().len() ==> k < s.spec_entries()[p].index,
        p > 0 && s.spec_entries()[p - 1].index == k ==> false,
    ensures
        mask_at(s@, k) == 0,
{
    let e = s.spec_entries();
    lemma_entries_map_keys(e);
    if s@.contains_key(k) {
        let j = choose|j: int| 0 <= j < e.len() && e[j].index == k;
        if j < p - 1 {
            assert(e[j].index < e[p - 1].index);
        } else if j > p {
            assert(e[p].index < e[j].index);
        }
    }
}

proof fn lemma_popcount_and_le(a: usize, b: usize)
    ensures
        popcount(a & b) <= popcount(a),
    decreases a,
{
    lemma_popcount_unfold(a);
    lemma_popcount_unfold(a & b);
    if a != 0 {
        assert((a & b) % 2 <= a % 2 && (a & b) / 2 == (a / 2) & (b / 2)) by (bit_vector);
        lemma_popcount_and_le(a / 2, b / 2);
    } else {
        assert(0usize & b == 0) by (bit_vector);
    }
}

proof fn lemma_popcount_below_monotone(s: Seq<GeometryHandleSetEntry>, f1: int, f2: int)
    requires
        f1 <= f2,
    ensures
        popcount_below(s, f1) <= popcount_below(s, f2),
    decreases s.len(),
{
    if s.len() > 0 {
        lemma_popcount_below_monotone(s.drop_last(), f1, f2);
    }
}

/// At a key that every set holds, the intersection has no more bits than the first
/// set's mask.
proof fn lemma_intersection_popcount_first(views: Seq<Map<usize, usize>>, k: usize)
    requires
        views.len() >= 1,
    ensures
        popcount(intersection_mask(views, k)) <= popcount(mask_at(views[0], k)),
{
    let n = views.len() as int;
    lemma_and_range_split(views, 0, 1, n, k);
    lemma_and_facts(mask_at(views[0], k), 0, 0);
    assert(and_range(views, 0, 0, k) == !0usize);
    lemma_popcount_and_le(mask_at(views[0], k), and_range(views, 1, n, k));
}

impl GeometryHandleSet {
    /// A readable listing of the set: `[index@o,o,..],[index@..]`, where each
    /// orientation is its rotation count, preceded by `r` when flipped.
    pub fn data_string(&self) -> (r: String)
        requires
            self.spec_entries().len() == 0 || self.spec_max_rotations() <= usize::BITS,
        ensures
            r@ == entries_text(self.spec_entries(), self.spec_max_rotations()),
    {
        let mut data: Vec<char> = Vec::new();
        let mut is_first = true;
        let mut i: usize = 0;
        while i < self.entries.len()
            invariant
                self.entries@.len() == 0 || self.max_rotations <= usize::BITS,
                i <= self.entries@.len(),
                is_first == (i == 0),
                data@ == entries_text(self.entries@.subrange(0, i as int), self.max_rotations),
            decreases self.entries@.len() - i,
        {
            let entry = self.entries[i];
            let ghost before = data@;
            if !is_first {
                data.push(',');
            }
            is_first = false;
            data.push('[');
            push_decimal(&mut data, entry.index);
            data.push('@');
            let orientations = GeomOrientation::from_bits(entry.orientations, self.max_rotations);
            let ghost mid = data@;
            let mut is_first_orientation = true;
            let mut j: usize = 0;
            while j < orientations.len()
                invariant
                    j <= orientations@.len(),
                    is_first_orientation == (j == 0),
                    data@ == mid + join_orientations(orientations@.subrange(0, j as int)),
                decreases orientations@.len() - j,
            {
                if !is_first_orientation {
                    data.push(',');
                }
                is_first_orientation = false;
                push_orientation(&mut data, orientations[j]);
                j = j + 1;
                proof {
                    let sub = orientations@.subrange(0, j as int);
                    assert(sub.drop_last() == orientations@.subrange(0, j - 1));
                    if j == 1 {
                        assert(join_orientations(orientations@.subrange(0, 0)) == Seq::<char>::empty());
                    }
                    assert(data@ =~= mid + join_orientations(sub));
                }
            }
            data.push(']');
            i = i + 1;
            proof {
                assert(orientations@.subrange(0, j as int) == orientations@);
                let sub = self.entries@.subrange(0, i as int);
                assert(sub.drop_last() == self.entries@.subrange(0, i - 1));
                assert(sub.last() == entry);
                if i == 1 {
                    assert(entries_text(self.entries@.subrange(0, 0), self.max_rotations) == Seq::<char>::empty());
                }
                assert(data@ =~= entries_text(sub, self.max_rotations));
            }
        }
        proof {
            assert(self.entries@.subrange(0, i as int) == self.entries@);
        }
        string_from_chars(&data)
    }

    /// All handles of the set, entry by entry, standard orientations before flipped ones.
    pub fn handles(&self) -> (r: Vec<GeometryHandle>)
        requires
            self.spec_entries().len() == 0 || self.spec_max_rotations() <= usize::BITS,
        ensures
            r@ == handles_of(self.spec_entries(), self.spec_max_rotations()),
    {
        let mut out: Vec<GeometryHandle> = Vec::new();
        let mut i: usize = 0;
        while i < self.entries.len()
            invariant
                self.entries@.len() == 0 || self.max_rotations <= usize::BITS,
                i <= self.entries@.len(),
                out@ == handles_of(self.entries@.subrange(0, i as int), self.max_rotations),
            decreases self.entries@.len() - i,
        {
            let entry = self.entries[i];
            let orientations = GeomOrientation::from_bits(entry.orientations, self.max_rotations);
            let ghost mid = out@;
            let mut j: usize = 0;
            while j < orientations.len()
                invariant
                    j <= orientations@.len(),
                    out@ == mid + orientations@.subrange(0, j as int).map_values(
                        |o: GeomOrientation| GeometryHandle { index: entry.index, orientation: o },
                    ),
                decreases orientations@.len() - j,
            {
                out.push(GeometryHandle { index: entry.index, orientation: orientations[j] });
                j = j + 1;
                proof {
                    assert(orientations@.subrange(0, j as int).map_values(
                        |o: GeomOrientation| GeometryHandle { index: entry.index, orientation: o },
                    ) =~= orientations@.subrange(0, j - 1).map_values(
                        |o: GeomOrientation| GeometryHandle { index: entry.index, orientation: o },
                    ).push(GeometryHandle { index: entry.index, orientation: orientations@[j - 1] }));
                }
            }
            i = i + 1;
            proof {
                assert(orientations@.subrange(0, j as int) == orientations@);
                let sub = self.entries@.subrange(0, i as int);
                assert(sub.drop_last() == self.entries@.subrange(0, i - 1));
                assert(sub.last() == entry);
                assert(out@ =~= handles_of(sub, self.max_rotations));
            }
        }
        proof {
            assert(self.entries@.subrange(0, i as int) == self.entries@);
        }
        out
    }
}


pub proof fn lemma_mask_bits(a: usize, b: usize, x: usize) by (bit_vector)
    ensures
        ((a | b) & x != 0) == (a & x != 0 || b & x != 0),
        (a | b) | b == a | b,
        x & x == x,
        0usize & x == 0,
        a & x == x & a,
{
}

proof fn lemma_single_mask_bits(a: usize, b: usize, p: usize) by (bit_vector)
    requires
        p < usize::BITS,
    ensures
        ((a & b) & (1usize << p) != 0) == (a & (1usize << p) != 0 && b & (1usize << p) != 0),
        !0usize & (1usize << p) != 0,
{
}

proof fn lemma_halve_bits(v: usize, p: usize) by (bit_vector)
    requires
        p < usize::BITS,
    ensures
        v % 2 == 1 ==> v & (1usize << 0usize) != 0,
        v % 2 == 0 ==> v & (1usize << 0usize) == 0,
        p + 1 < usize::BITS ==> ((v & (1usize << ((p + 1) as usize)) != 0) == ((v / 2) & (1usize << p) != 0)),
        p + 1 == usize::BITS ==> (v / 2) & (1usize << p) == 0,
{
}

/// A nonzero mask has a bit set inside the word.
proof fn lemma_some_bit(v: usize)
    requires
        v != 0,
    ensures
        exists|p: usize| p < usize::BITS && #[trigger] (v & single_bit(p)) != 0,
    decreases v,
{
    if v % 2 == 1 {
        lemma_halve_bits(v, 0);
        assert(v & single_bit(0) != 0);
    } else {
        assert(v / 2 != 0);
        lemma_some_bit(v / 2);
        let p = choose|p: usize| p < usize::BITS && #[trigger] ((v / 2) & single_bit(p)) != 0;
        lemma_halve_bits(v, p);
        let q = (p + 1) as usize;
        assert(v & single_bit(q) != 0);
    }
}

proof fn lemma_popcount_positive(x: usize)
    requires
        x != 0,
    ensures
        popcount(x) > 0,
    decreases x,
{
    lemma_popcount_unfold(x);
    if x % 2 == 0 {
        lemma_popcount_positive(x / 2);
    }
}

/// Two orientations held apart by `distinct_bits` use the same bit only when they
/// are the same orientation.
proof fn lemma_distinct_bits(a: GeometryHandle, b: GeometryHandle)
    requires
        distinct_bits(a),
        distinct_bits(b),
    ensures
        (a.orientation.spec_to_bits() & b.orientation.spec_to_bits() != 0) == (a.orientation == b.orientation),
{
    let pa = bit_position(a.orientation);
    let pb = bit_position(b.orientation);
    lemma_single_bits_overlap(pa as usize, pb as usize);
}

/// After inserting `h` the set holds `h`; every other handle whose bit is its own is
/// held exactly when it was held before; and inserting `h` a second time changes
/// nothing.
pub proof fn law_insert_holds(m: Map<usize, usize>, h: GeometryHandle, other: GeometryHandle)
    requires
        distinct_bits(h),
        distinct_bits(other),
    ensures
        map_holds(with_handle(m, h), h),
        other != h ==> map_holds(with_handle(m, h), other) == map_holds(m, other),
        with_handle(with_handle(m, h), h) == with_handle(m, h),
{
    let bh = h.orientation.spec_to_bits();
    let bo = other.orientation.spec_to_bits();
    let mh = mask_at(m, h.index);
    lemma_single_bit_nonzero(bit_position(h.orientation) as usize);
    lemma_mask_bits(mh, bh, bh);
    lemma_mask_bits(mh, bh, bo);
    lemma_distinct_bits(h, other);
    assert(mask_at(with_handle(m, h), h.index) == mh | bh);
    assert(with_handle(with_handle(m, h), h) =~= with_handle(m, h));
}

/// Inserting handles one after another keeps the rotation limit that the set was
/// made with.
pub proof fn law_inserts_keep_limit(states: Seq<GeometryHandleSet>, handles: Seq<GeometryHandle>)
    requires
        states.len() == handles.len() + 1,
        forall|i: int| 0 <= i < handles.len() ==> #[trigger] inserted(states[i], states[i + 1], handles[i]),
    ensures
        forall|i: int| 0 <= i < states.len() ==> #[trigger] states[i].spec_max_rotations() == states[0].spec_max_rotations(),
    decreases handles.len(),
{
    if handles.len() > 0 {
        let n = handles.len() - 1;
        law_inserts_keep_limit(states.drop_last(), handles.drop_last());
        assert(inserted(states[n], states[n + 1], handles[n]));
        assert forall|i: int| 0 <= i < states.len() implies #[trigger] states[i].spec_max_rotations() == states[0].spec_max_rotations() by {
            if i < states.len() - 1 {
                assert(states.drop_last()[i] == states[i]);
            } else {
                assert(states.drop_last()[n] == states[n]);
                assert(states.drop_last()[0] == states[0]);
            }
        }
    }
}

impl GeometryHandleSet {
    /// A set is empty exactly when it holds no handle, and exactly when its length is
    /// 0.
    pub proof fn law_empty_iff_no_handle(&self)
        requires
            self.wf(),
        ensures
            (self@ == Map::<usize, usize>::empty()) == (forall|h: GeometryHandle| fits_in_mask(h.orientation) ==> !#[trigger] map_holds(self@, h)),
            (self@ == Map::<usize, usize>::empty()) == (self.spec_length() == 0),
    {
        lemma_entries_map_keys(self.spec_entries());
        let e = self.spec_entries();
        if e.len() == 0 {
            assert(self@ =~= Map::<usize, usize>::empty());
            assert forall|h: GeometryHandle| fits_in_mask(h.orientation) implies !#[trigger] map_holds(self@, h) by {
                lemma_mask_bits(0, 0, h.orientation.spec_to_bits());
            }
        } else {
            let last = e.last();
            lemma_entries_map_value(e, e.len() - 1);
            assert(self@.contains_key(last.index));
            assert(last.orientations != 0);
            lemma_some_bit(last.orientations);
            let p = choose|p: usize| p < usize::BITS && #[trigger] (last.orientations & single_bit(p)) != 0;
            let h = GeometryHandle { index: last.index, orientation: GeomOrientation::Standard { rotations: p } };
            assert(map_holds(self@, h));
            lemma_popcount_positive(last.orientations);
            assert(total_popcount(e) == total_popcount(e.drop_last()) + popcount(e.last().orientations));
        }
    }
}

/// A union holds a handle exactly when one of its sets holds it (for any index
/// below `usize::MAX`, which the union leaves out).
pub proof fn law_union_holds(sets: Seq<&GeometryHandleSet>, h: GeometryHandle)
    requires
        fits_in_mask(h.orientation),
        h.index < usize::MAX,
    ensures
        map_holds(union_map(set_views(sets)), h) == exists|i: int| 0 <= i < sets.len() && #[trigger] map_holds(sets[i]@, h),
{
    let views = set_views(sets);
    law_union_map_holds(views, h);
    if map_holds(union_map(views), h) {
        let i = choose|i: int| 0 <= i < views.len() && #[trigger] map_holds(views[i], h);
        assert(map_holds(sets[i]@, h));
    }
    if exists|i: int| 0 <= i < sets.len() && #[trigger] map_holds(sets[i]@, h) {
        let i = choose|i: int| 0 <= i < sets.len() && #[trigger] map_holds(sets[i]@, h);
        assert(map_holds(views[i], h));
    }
}

/// The union of some mask maps holds a handle exactly when one of them holds it (for
/// any index below `usize::MAX`, which the union leaves out).
pub proof fn law_union_map_holds(views: Seq<Map<usize, usize>>, h: GeometryHandle)
    requires
        h.index < usize::MAX,
    ensures
        map_holds(union_map(views), h) == exists|i: int| 0 <= i < views.len() && #[trigger] map_holds(views[i], h),
{
    lemma_union_mask_holds(views, views.len() as int, h);
    assert(mask_at(union_map(views), h.index) == union_mask(views, views.len() as int, h.index));
}

proof fn lemma_union_mask_holds(views: Seq<Map<usize, usize>>, n: int, h: GeometryHandle)
    requires
        0 <= n <= views.len(),
    ensures
        (union_mask(views, n, h.index) & h.orientation.spec_to_bits() != 0)
            == exists|i: int| 0 <= i < n && #[trigger] map_holds(views[i], h),
    decreases n,
{
    let b = h.orientation.spec_to_bits();
    if n == 0 {
        lemma_mask_bits(0, 0, b);
    } else {
        lemma_union_mask_holds(views, n - 1, h);
        lemma_mask_bits(union_mask(views, n - 1, h.index), mask_at(views[n - 1], h.index), b);
        if union_mask(views, n, h.index) & b != 0 && !map_holds(views[n - 1], h) {
            let i = choose|i: int| 0 <= i < n - 1 && #[trigger] map_holds(views[i], h);
            assert(0 <= i < n);
        }
        if exists|i: int| 0 <= i < n && #[trigger] map_holds(views[i], h) {
            let i = choose|i: int| 0 <= i < n && #[trigger] map_holds(views[i], h);
            if i < n - 1 {
                assert(exists|j: int| 0 <= j < n - 1 && #[trigger] map_holds(views[j], h));
            }
        }
    }
}

/// An intersection holds a handle exactly when there is at least one set and every
/// set holds it.
pub proof fn law_intersection_holds(sets: Seq<&GeometryHandleSet>, h: GeometryHandle)
    requires
        fits_in_mask(h.orientation),
    ensures
        map_holds(intersection_map(set_views(sets)), h)
            == (sets.len() > 0 && forall|i: int| 0 <= i < sets.len() ==> #[trigger] map_holds(sets[i]@, h)),
{
    let views = set_views(sets);
    let b = h.orientation.spec_to_bits();
    assert(mask_at(intersection_map(views), h.index) == intersection_mask(views, h.index));
    if views.len() == 0 {
        lemma_mask_bits(0, 0, b);
    } else {
        lemma_and_range_holds(views, views.len() as int, h);
        if map_holds(intersection_map(views), h) {
            assert forall|i: int| 0 <= i < sets.len() implies #[trigger] map_holds(sets[i]@, h) by {
                assert(map_holds(views[i], h));
            }
        }
        if forall|i: int| 0 <= i < sets.len() ==> #[trigger] map_holds(sets[i]@, h) {
            assert forall|i: int| 0 <= i < views.len() implies #[trigger] map_holds(views[i], h) by {
                assert(map_holds(sets[i]@, h));
            }
        }
    }
}

proof fn lemma_and_range_holds(views: Seq<Map<usize, usize>>, n: int, h: GeometryHandle)
    requires
        0 <= n <= views.len(),
        fits_in_mask(h.orientation),
    ensures
        (and_range(views, 0, n, h.index) & h.orientation.spec_to_bits() != 0)
            == forall|i: int| 0 <= i < n ==> #[trigger] map_holds(views[i], h),
    decreases n,
{
    let p = bit_position(h.orientation) as usize;
    if n == 0 {
        lemma_single_mask_bits(0, 0, p);
    } else {
        lemma_and_range_holds(views, n - 1, h);
        lemma_single_mask_bits(and_range(views, 0, n - 1, h.index), mask_at(views[n - 1], h.index), p);
        if forall|i: int| 0 <= i < n ==> #[trigger] map_holds(views[i], h) {
            assert(map_holds(views[n - 1], h));
        }
    }
}

/// Population count of a mask, computed bit by bit.
pub fn count_ones(x: usize) -> (r: usize)
    ensures
        r == popcount(x),
{
    let mut rest = x;
    let mut count: usize = 0;
    proof {
        lemma_popcount_le(x);
    }
    while rest != 0
        invariant
            count + popcount(rest) == popcount(x),
            popcount(x) <= x,
        decreases rest,
    {
        proof {
            lemma_popcount_unfold(rest);
            lemma_popcount_le(rest / 2);
        }
        count = count + rest % 2;
        rest = rest / 2;
    }
    count
}

pub proof fn lemma_popcount_le(x: usize)
    ensures
        popcount(x) <= x,
    decreases x,
{
    if x != 0 {
        lemma_popcount_le(x / 2);
        lemma_popcount_unfold(x);
    }
}

pub proof fn lemma_entries_map_keys(s: Seq<GeometryHandleSetEntry>)
    ensures
        forall|k: usize| entries_map(s).contains_key(k) <==> exists|i: int| 0 <= i < s.len() && s[i].index == k,
    decreases s.len(),
{
    if s.len() > 0 {
        lemma_entries_map_keys(s.drop_last());
        assert forall|k: usize| entries_map(s).contains_key(k) <==> exists|i: int| 0 <= i < s.len() && s[i].index == k by {
            if entries_map(s).contains_key(k) {
                if k == s.last().index {
                    assert(s[s.len() - 1].index == k);
                } else {
                    assert(entries_map(s.drop_last()).contains_key(k));
                    let i = choose|i: int| 0 <= i < s.drop_last().len() && s.drop_last()[i].index == k;
                    assert(s[i].index == k);
                }
            }
            if exists|i: int| 0 <= i < s.len() && s[i].index == k {
                let i = choose|i: int| 0 <= i < s.len() && s[i].index == k;
                if i < s.len() - 1 {
                    assert(s.drop_last()[i].index == k);
                    assert(entries_map(s.drop_last()).contains_key(k));
                }
            }
        }
    }
}

pub proof fn lemma_entries_map_value(s: Seq<GeometryHandleSetEntry>, p: int)
    requires
        strictly_sorted(s),
        0 <= p < s.len(),
    ensures
        entries_map(s).contains_key(s[p].index),
        entries_map(s)[s[p].index] == s[p].orientations,
    decreases s.len(),
{
    if p < s.len() - 1 {
        lemma_entries_map_value(s.drop_last(), p);
        assert(s.drop_last()[p] == s[p]);
        assert(s[p].index < s.last().index);
    }
}

/// Sorted entries are determined by the map they describe.
pub proof fn lemma_entries_determined(a: Seq<GeometryHandleSetEntry>, b: Seq<GeometryHandleSetEntry>)
    requires
        strictly_sorted(a),
        strictly_sorted(b),
        entries_map(a) == entries_map(b),
    ensures
        a == b,
    decreases a.len() + b.len(),
{
    lemma_entries_map_keys(a);
    lemma_entries_map_keys(b);
    if a.len() == 0 {
        if b.len() > 0 {
            assert(entries_map(b).contains_key(b[0].index));
        }
        assert(a =~= b);
    } else if b.len() == 0 {
        assert(entries_map(a).contains_key(a[0].index));
    } else {
        let la = a.last();
        let lb = b.last();
        assert(entries_map(b).contains_key(la.index));
        let j = choose|j: int| 0 <= j < b.len() && b[j].index == la.index;
        assert(b[j].index <= lb.index);
        assert(entries_map(a).contains_key(lb.index));
        let i = choose|i: int| 0 <= i < a.len() && a[i].index == lb.index;
        assert(a[i].index <= la.index);
        assert(la.index == lb.index);
        lemma_entries_map_value(a, a.len() - 1);
        lemma_entries_map_value(b, b.len() - 1);
        assert(la == lb);
        let a0 = a.drop_last();
        let b0 = b.drop_last();
        lemma_entries_map_keys(a0);
        lemma_entries_map_keys(b0);
        assert(!entries_map(a0).contains_key(la.index)) by {
            if entries_map(a0).contains_key(la.index) {
                let k = choose|k: int| 0 <= k < a0.len() && a0[k].index == la.index;
                assert(a[k].index < a[a.len() - 1].index);
            }
        }
        assert(!entries_map(b0).contains_key(lb.index)) by {
            if entries_map(b0).contains_key(lb.index) {
                let k = choose|k: int| 0 <= k < b0.len() && b0[k].index == lb.index;
                assert(b[k].index < b[b.len() - 1].index);
            }
        }
        assert(entries_map(a0) =~= entries_map(a).remove(la.index));
        assert(entries_map(b0) =~= entries_map(b).remove(lb.index));
        lemma_entries_determined(a0, b0);
        assert(a =~= b) by {
            assert forall|k: int| 0 <= k < a.len() implies a[k] == b[k] by {
                if k < a.len() - 1 {
                    assert(a[k] == a0[k]);
                    assert(b[k] == b0[k]);
                }
            }
        }
    }
}

impl GeometryHandleSet {
    /// Two well-formed sets that hold the same handles store the same entries and
    /// have the same length.
    pub proof fn law_same_handles_same_entries(&self, other: &GeometryHandleSet)
        requires
            self.wf(),
            other.wf(),
            self@ == other@,
        ensures
            self.spec_entries() == other.spec_entries(),
            self.spec_length() == other.spec_length(),
    {
        lemma_entries_determined(self.entries@, other.entries@);
    }
}

/// Walks the handles of a set one by one, in the order `handles` lists them.
pub struct GeometryHandleSetIterator {
    handles: Vec<GeometryHandle>,
    position: usize,
}

impl GeometryHandleSetIterator {
    /// The handles walked over.
    pub closed spec fn spec_handles(&self) -> Seq<GeometryHandle> {
        self.handles@
    }

    /// How many handles were handed out.
    pub closed spec fn spec_position(&self) -> int {
        self.position as int
    }

    /// The next handle, if any is left.
    pub fn next(&mut self) -> (r: Option<GeometryHandle>)
        ensures
            final(self).spec_handles() == old(self).spec_handles(),
            old(self).spec_position() < old(self).spec_handles().len() ==> r == Some(old(self).spec_handles()[old(self).spec_position()])
                && final(self).spec_position() == old(self).spec_position() + 1,
            old(self).spec_position() >= old(self).spec_handles().len() ==> r is None
                && final(self).spec_position() == old(self).spec_position(),
    {
        if self.position < self.handles.len() {
            let h = self.handles[self.position];
            self.position = self.position + 1;
            Some(h)
        } else {
            None
        }
    }
}

impl GeometryHandleSet {
    /// A walk over the handles of the set from its first one.
    pub fn iter(&self) -> (r: GeometryHandleSetIterator)
        requires
            self.spec_entries().len() == 0 || self.spec_max_rotations() <= usize::BITS,
        ensures
            r.spec_handles() == handles_of(self.spec_entries(), self.spec_max_rotations()),
            r.spec_position() == 0,
    {
        GeometryHandleSetIterator { handles: self.handles(), position: 0 }
    }
}

/// The orientations among the first `n` candidates are those candidates whose bit is
/// set, each once.
proof fn lemma_orientations_in_bits_listed(bits: usize, m: int, n: int)
    requires
        0 <= n <= 2 * m,
        2 * m <= usize::BITS,
    ensures
        forall|o: GeomOrientation| #[trigger] orientations_in_bits(bits, m, n).contains(o)
            <==> exists|i: int| 0 <= i < n && candidate_at(i, m, o) && o.spec_to_bits() & bits != 0,
        orientations_in_bits(bits, m, n).no_duplicates(),
    decreases n,
{
    if n > 0 {
        lemma_orientations_in_bits_listed(bits, m, n - 1);
        let prev = orientations_in_bits(bits, m, n - 1);
        let c = super::orientations::candidate(n - 1, m);
        assert(candidate_at(n - 1, m, c));
        assert forall|o: GeomOrientation| #[trigger] orientations_in_bits(bits, m, n).contains(o)
            <==> exists|i: int| 0 <= i < n && candidate_at(i, m, o) && o.spec_to_bits() & bits != 0 by {
            assert(prev.contains(o) == exists|i: int| 0 <= i < n - 1 && candidate_at(i, m, o) && o.spec_to_bits() & bits != 0);
            if prev.contains(o) {
                let i = choose|i: int| 0 <= i < n - 1 && candidate_at(i, m, o) && o.spec_to_bits() & bits != 0;
                assert(0 <= i < n && candidate_at(i, m, o) && o.spec_to_bits() & bits != 0);
            }
            if c.spec_to_bits() & bits != 0 {
                assert(orientations_in_bits(bits, m, n) == prev.push(c));
                if prev.push(c).contains(o) && o != c {
                    let k = choose|k: int| 0 <= k < prev.push(c).len() && prev.push(c)[k] == o;
                    assert(prev[k] == o);
                }
                if o == c {
                    assert(prev.push(c)[prev.len() as int] == o);
                } else if exists|i: int| 0 <= i < n && candidate_at(i, m, o) && o.spec_to_bits() & bits != 0 {
                    let i = choose|i: int| 0 <= i < n && candidate_at(i, m, o) && o.spec_to_bits() & bits != 0;
                    assert(i != n - 1);
                    assert(prev.contains(o));
                    let k = choose|k: int| 0 <= k < prev.len() && prev[k] == o;
                    assert(prev.push(c)[k] == o);
                }
            } else {
                assert(orientations_in_bits(bits, m, n) == prev);
                if exists|i: int| 0 <= i < n && candidate_at(i, m, o) && o.spec_to_bits() & bits != 0 {
                    let i = choose|i: int| 0 <= i < n && candidate_at(i, m, o) && o.spec_to_bits() & bits != 0;
                    if i == n - 1 {
                        assert(o == c);
                    } else {
                        assert(0 <= i < n - 1 && candidate_at(i, m, o) && o.spec_to_bits() & bits != 0);
                    }
                }
            }
        }
        if c.spec_to_bits() & bits != 0 {
            assert(!prev.contains(c)) by {
                if prev.contains(c) {
                    let i = choose|i: int| 0 <= i < n - 1 && candidate_at(i, m, c) && c.spec_to_bits() & bits != 0;
                }
            }
            assert forall|a: int, b: int| 0 <= a < b < prev.push(c).len() implies prev.push(c)[a] != prev.push(c)[b] by {
                if b == prev.len() {
                    assert(prev.contains(prev[a]));
                }
            }
        }
    }
}

/// `o` is candidate `i` of `from_bits`.
pub open spec fn candidate_at(i: int, m: int, o: GeomOrientation) -> bool {
    super::orientations::candidate(i, m) == o
}

/// Each handle is listed by the entries at most once, and exactly the handles that
/// the entries hold with a rotation count below `m` are listed.
proof fn lemma_handles_of_listed(s: Seq<GeometryHandleSetEntry>, m: usize)
    requires
        strictly_sorted(s),
        2 * m <= usize::BITS,
    ensures
        forall|h: GeometryHandle| #[trigger] handles_of(s, m).contains(h)
            <==> (map_holds(entries_map(s), h) && h.orientation.spec_rotations() < m),
        handles_of(s, m).no_duplicates(),
    decreases s.len(),
{
    lemma_entries_map_keys(s);
    if s.len() == 0 {
        assert forall|h: GeometryHandle| !map_holds(entries_map(s), h) by {
            lemma_mask_bits(0, 0, h.orientation.spec_to_bits());
        }
    } else {
        let rest = s.drop_last();
        let e = s.last();
        assert(strictly_sorted(rest));
        lemma_handles_of_listed(rest, m);
        lemma_entries_map_keys(rest);
        let mi = m as int;
        lemma_orientations_in_bits_listed(e.orientations, mi, 2 * mi);
        let os = mask_orientations(e.orientations, m);
        let eh = entry_handles(e, m);
        let before = handles_of(rest, m);
        assert(handles_of(s, m) == before + eh);
        assert forall|h: GeometryHandle| #[trigger] eh.contains(h)
            <==> (h.index == e.index && os.contains(h.orientation)) by {
            if eh.contains(h) {
                let k = choose|k: int| 0 <= k < eh.len() && eh[k] == h;
                assert(os[k] == h.orientation);
            }
            if h.index == e.index && os.contains(h.orientation) {
                let k = choose|k: int| 0 <= k < os.len() && os[k] == h.orientation;
                assert(eh[k] == h);
            }
        }
        assert forall|h: GeometryHandle| #[trigger] before.contains(h) implies h.index < e.index by {
            {
                assert(map_holds(entries_map(rest), h));
                if !entries_map(rest).contains_key(h.index) {
                    lemma_mask_bits(0, 0, h.orientation.spec_to_bits());
                }
                let i = choose|i: int| 0 <= i < rest.len() && rest[i].index == h.index;
                assert(rest[i] == s[i]);
            }
        }
        assert forall|h: GeometryHandle| #[trigger] handles_of(s, m).contains(h)
            <==> (map_holds(entries_map(s), h) && h.orientation.spec_rotations() < m) by {
            let b = h.orientation.spec_to_bits();
            assert(entries_map(s) == entries_map(rest).insert(e.index, e.orientations));
            if h.index == e.index {
                assert(mask_at(entries_map(s), h.index) == e.orientations);
                assert(!before.contains(h));
                if (before + eh).contains(h) {
                    let k = choose|k: int| 0 <= k < (before + eh).len() && (before + eh)[k] == h;
                    if k < before.len() {
                        assert(before[k] == h);
                    } else {
                        assert(eh[k - before.len()] == h);
                    }
                }
                if os.contains(h.orientation) {
                    let i = choose|i: int| 0 <= i < 2 * mi && candidate_at(i, mi, h.orientation) && h.orientation.spec_to_bits() & e.orientations != 0;
                    lemma_mask_bits(e.orientations, 0, h.orientation.spec_to_bits());
                    assert(h.orientation.spec_rotations() < m);
                    assert(eh.contains(h));
                    let k = choose|k: int| 0 <= k < eh.len() && eh[k] == h;
                    assert((before + eh)[before.len() + k] == h);
                }
                if map_holds(entries_map(s), h) && h.orientation.spec_rotations() < m {
                    let o = h.orientation;
                    let i: int = match o {
                        GeomOrientation::Standard { rotations } => rotations as int,
                        GeomOrientation::Flipped { rotations } => mi + rotations,
                    };
                    assert(candidate_at(i, mi, o));
                    lemma_mask_bits(e.orientations, 0, o.spec_to_bits());
                    assert(o.spec_to_bits() & e.orientations != 0);
                    assert(0 <= i < 2 * mi && candidate_at(i, mi, o) && o.spec_to_bits() & e.orientations != 0);
                    assert(os.contains(o));
                    assert(eh.contains(h));
                    let k = choose|k: int| 0 <= k < eh.len() && eh[k] == h;
                    assert((before + eh)[before.len() + k] == h);
                }
            } else {
                assert(mask_at(entries_map(s), h.index) == mask_at(entries_map(rest), h.index));
                assert(!eh.contains(h));
                if (before + eh).contains(h) {
                    let k = choose|k: int| 0 <= k < (before + eh).len() && (before + eh)[k] == h;
                    if k < before.len() {
                        assert(before[k] == h);
                    } else {
                        assert(eh[k - before.len()] == h);
                    }
                }
                if before.contains(h) {
                    let k = choose|k: int| 0 <= k < before.len() && before[k] == h;
                    assert((before + eh)[k] == h);
                }
            }
        }
        assert forall|a: int, b: int| 0 <= a < b < (before + eh).len() implies (before + eh)[a] != (before + eh)[b] by {
            if b < before.len() {
            } else if a >= before.len() {
                assert(eh[a - before.len()].orientation == os[a - before.len()]);
                assert(eh[b - before.len()].orientation == os[b - before.len()]);
            } else {
                assert(before.contains(before[a]));
                assert(eh.contains(eh[b - before.len()]));
            }
        }
    }
}

impl GeometryHandleSet {
    /// What the iterator walks over is exactly the handles that the set holds with a
    /// rotation count below its limit, each once.
    pub proof fn law_iterator_lists_held_handles(&self)
        requires
            self.wf(),
            2 * self.spec_max_rotations() <= usize::BITS,
        ensures
            forall|h: GeometryHandle| #[trigger] handles_of(self.spec_entries(), self.spec_max_rotations()).contains(h)
                <==> (map_holds(self@, h) && h.orientation.spec_rotations() < self.spec_max_rotations()),
            handles_of(self.spec_entries(), self.spec_max_rotations()).no_duplicates(),
    {
        lemma_handles_of_listed(self.spec_entries(), self.spec_max_rotations());
    }
}

/// How many of the bits below position `n` are set in `x`.
pub open spec fn bits_below(x: usize, n: int) -> int
    decreases n,
{
    if n <= 0 {
        0
    } else {
        bits_below(x, n - 1) + if x & single_bit((n - 1) as usize) != 0 { 1int } else { 0int }
    }
}

/// A mask holds only bits of orientations with fewer than `m` rotations: none of the
/// bits from position `m` up to, but not including, position `usize::BITS - m`.
pub open spec fn mask_within(x: usize, m: usize) -> bool {
    forall|p: int| m <= p < usize::BITS - m ==> #[trigger] (x & single_bit(p as usize)) == 0
}

/// Every mask of the map holds only bits of orientations with fewer than `m` rotations.
pub open spec fn masks_within(v: Map<usize, usize>, m: usize) -> bool {
    forall|k: usize| #[trigger] v.contains_key(k) ==> mask_within(v[k], m)
}

proof fn lemma_bits_below_shift(x: usize, n: int)
    requires
        0 <= n < usize::BITS,
    ensures
        bits_below(x, n + 1) == x % 2 + bits_below(x / 2, n),
    decreases n,
{
    if n == 0 {
        lemma_halve_bits(x, 0);
        assert(single_bit(0) == 1usize << 0usize);
        assert(bits_below(x, 0) == 0);
        assert(bits_below(x / 2, 0) == 0);
        assert(bits_below(x, 1) == if x & single_bit(0) != 0 { 1int } else { 0int });
    } else {
        lemma_bits_below_shift(x, n - 1);
        let p = (n - 1) as usize;
        lemma_halve_bits(x, p);
        assert(single_bit(n as usize) == 1usize << ((p + 1) as usize));
        assert(single_bit(p) == 1usize << p);
        assert((x & single_bit(n as usize) != 0) == ((x / 2) & single_bit(p) != 0));
        assert(bits_below(x, n + 1) == bits_below(x, n) + if x & single_bit(n as usize) != 0 { 1int } else { 0int });
        assert(bits_below(x / 2, n) == bits_below(x / 2, n - 1) + if (x / 2) & single_bit(p) != 0 { 1int } else { 0int });
    }
}

proof fn lemma_popcount_bits(x: usize)
    ensures
        popcount(x) == bits_below(x, usize::BITS as int),
    decreases x,
{
    let w = usize::BITS as int;
    lemma_popcount_unfold(x);
    if x == 0 {
        lemma_bits_below_zero(w);
    } else {
        lemma_popcount_bits(x / 2);
        lemma_bits_below_shift(x, w - 1);
        lemma_halve_bits(x, (w - 1) as usize);
        assert(bits_below(x / 2, w) == bits_below(x / 2, w - 1));
    }
}

proof fn lemma_bits_below_zero(n: int)
    requires
        0 <= n <= usize::BITS,
    ensures
        bits_below(0, n) == 0,
    decreases n,
{
    if n > 0 {
        lemma_bits_below_zero(n - 1);
        lemma_mask_bits(0, 0, single_bit((n - 1) as usize));
    }
}

proof fn lemma_orientations_count(x: usize, m: int, n: int)
    requires
        0 <= n <= 2 * m,
        2 * m <= usize::BITS,
    ensures
        orientations_in_bits(x, m, n).len() == if n <= m {
            bits_below(x, n)
        } else {
            bits_below(x, m) + bits_below(x, usize::BITS as int) - bits_below(x, usize::BITS - (n - m))
        },
    decreases n,
{
    if n > 0 {
        lemma_orientations_count(x, m, n - 1);
        let c = super::orientations::candidate(n - 1, m);
        lemma_mask_bits(x, 0, c.spec_to_bits());
    }
}

proof fn lemma_bits_below_flat(x: usize, m: int, n: int)
    requires
        m <= n <= usize::BITS - m,
        0 <= m,
        mask_within(x, m as usize),
    ensures
        bits_below(x, n) == bits_below(x, m),
    decreases n - m,
{
    if n > m {
        lemma_bits_below_flat(x, m, n - 1);
        assert(x & single_bit((n - 1) as usize) == 0);
    }
}

/// A mask that holds only bits of orientations with fewer than `m` rotations lists as
/// many orientations as it has bits.
proof fn lemma_mask_count(x: usize, m: usize)
    requires
        2 * m <= usize::BITS,
        mask_within(x, m),
    ensures
        mask_orientations(x, m).len() == popcount(x),
{
    let mi = m as int;
    lemma_orientations_count(x, mi, 2 * mi);
    lemma_popcount_bits(x);
    lemma_bits_below_flat(x, mi, usize::BITS - mi);
    if m == 0 {
        lemma_bits_below_flat(x, 0, usize::BITS as int);
        assert(bits_below(x, 0) == 0);
    }
}

proof fn lemma_handles_of_count(s: Seq<GeometryHandleSetEntry>, m: usize)
    requires
        2 * m <= usize::BITS,
        forall|i: int| 0 <= i < s.len() ==> mask_within(#[trigger] s[i].orientations, m),
    ensures
        handles_of(s, m).len() == total_popcount(s),
    decreases s.len(),
{
    if s.len() > 0 {
        let rest = s.drop_last();
        assert forall|i: int| 0 <= i < rest.len() implies mask_within(#[trigger] rest[i].orientations, m) by {
            assert(rest[i] == s[i]);
        }
        lemma_handles_of_count(rest, m);
        assert(mask_within(s[s.len() - 1].orientations, m));
        lemma_mask_count(s.last().orientations, m);
    }
}

impl GeometryHandleSet {
    /// When every mask of the set holds only bits of orientations with fewer rotations
    /// than its limit, the iterator walks over as many handles as the set's length.
    pub proof fn law_length_counts_listed_handles(&self)
        requires
            self.wf(),
            2 * self.spec_max_rotations() <= usize::BITS,
            masks_within(self@, self.spec_max_rotations()),
        ensures
            handles_of(self.spec_entries(), self.spec_max_rotations()).len() == self.spec_length(),
    {
        let s = self.spec_entries();
        assert forall|i: int| 0 <= i < s.len() implies mask_within(#[trigger] s[i].orientations, self.spec_max_rotations()) by {
            lemma_entries_map_value(s, i);
            assert(self@.contains_key(s[i].index));
        }
        lemma_handles_of_count(s, self.spec_max_rotations());
    }
}

/// A set made with limit `m` holds only bits of orientations with fewer than `m`
/// rotations, and inserting a handle with fewer than `m` rotations keeps it so.
pub proof fn law_inserts_stay_within(before: GeometryHandleSet, after: GeometryHandleSet, h: GeometryHandle)
    requires
        inserted(before, after, h),
        masks_within(before@, before.spec_max_rotations()),
        h.orientation.spec_rotations() < before.spec_max_rotations(),
        2 * before.spec_max_rotations() <= usize::BITS,
    ensures
        masks_within(after@, after.spec_max_rotations()),
{
    let m = before.spec_max_rotations();
    let q = bit_position(h.orientation) as usize;
    assert forall|k: usize| #[trigger] after@.contains_key(k) implies mask_within(after@[k], m) by {
        if k == h.index {
            let a = mask_at(before@, k);
            assert(mask_within(a, m)) by {
                if !before@.contains_key(k) {
                    assert forall|p: int| m <= p < usize::BITS - m implies #[trigger] (a & single_bit(p as usize)) == 0 by {
                        lemma_mask_bits(0, 0, single_bit(p as usize));
                    }
                }
            }
            assert forall|p: int| m <= p < usize::BITS - m implies #[trigger] (after@[k] & single_bit(p as usize)) == 0 by {
                lemma_mask_bits(a, single_bit(q), single_bit(p as usize));
                lemma_single_bits_overlap(q, p as usize);
                assert(a & single_bit(p as usize) == 0);
                assert(after@[k] == a | single_bit(q));
            }
        }
    }
}

/// The handles that a set holds with fewer rotations than its limit.
pub open spec fn held_handles(s: GeometryHandleSet) -> Set<GeometryHandle> {
    Set::new(|h: GeometryHandle| map_holds(s@, h) && h.orientation.spec_rotations() < s.spec_max_rotations())
}

impl GeometryHandleSet {
    /// When every mask of the set holds only bits of orientations with fewer rotations
    /// than its limit, the set's length is the number of handles it holds.
    pub proof fn law_length_is_number_of_held_handles(&self)
        requires
            self.wf(),
            2 * self.spec_max_rotations() <= usize::BITS,
            masks_within(self@, self.spec_max_rotations()),
        ensures
            held_handles(*self).finite(),
            held_handles(*self).len() == self.spec_length(),
    {
        let listed = handles_of(self.spec_entries(), self.spec_max_rotations());
        self.law_iterator_lists_held_handles();
        self.law_length_counts_listed_handles();
        assert(listed.to_set() =~= held_handles(*self)) by {
            assert forall|h: GeometryHandle| listed.to_set().contains(h) == held_handles(*self).contains(h) by {
                assert(listed.to_set().contains(h) == listed.contains(h));
            }
        }
        listed.unique_seq_to_set();
    }
}

/// A mask that holds only bits of orientations with fewer than `m` rotations also
/// does for any larger limit.
pub proof fn law_mask_within_grows(x: usize, m: usize, larger: usize)
    requires
        mask_within(x, m),
        m <= larger,
    ensures
        mask_within(x, larger),
{
}

proof fn lemma_union_mask_within(views: Seq<Map<usize, usize>>, n: int, k: usize, m: usize)
    requires
        0 <= n <= views.len(),
        forall|i: int| 0 <= i < views.len() ==> masks_within(#[trigger] views[i], m),
    ensures
        mask_within(union_mask(views, n, k), m),
    decreases n,
{
    if n == 0 {
        assert forall|p: int| m <= p < usize::BITS - m implies #[trigger] (union_mask(views, n, k) & single_bit(p as usize)) == 0 by {
            lemma_mask_bits(0, 0, single_bit(p as usize));
        }
    } else {
        lemma_union_mask_within(views, n - 1, k, m);
        let a = union_mask(views, n - 1, k);
        let b = mask_at(views[n - 1], k);
        assert(masks_within(views[n - 1], m));
        assert forall|p: int| m <= p < usize::BITS - m implies #[trigger] (union_mask(views, n, k) & single_bit(p as usize)) == 0 by {
            lemma_mask_bits(a, b, single_bit(p as usize));
            if !views[n - 1].contains_key(k) {
                lemma_mask_bits(0, 0, single_bit(p as usize));
            }
        }
    }
}

/// The union of sets whose masks hold only bits of orientations with fewer than `m`
/// rotations has only such bits too.
pub proof fn law_union_stays_within(views: Seq<Map<usize, usize>>, m: usize)
    requires
        forall|i: int| 0 <= i < views.len() ==> masks_within(#[trigger] views[i], m),
    ensures
        masks_within(union_map(views), m),
{
    assert forall|k: usize| #[trigger] union_map(views).contains_key(k) implies mask_within(union_map(views)[k], m) by {
        lemma_union_mask_within(views, views.len() as int, k, m);
    }
}

/// The intersection of sets, one of whose masks hold only bits of orientations with
/// fewer than `m` rotations, has only such bits too.
pub proof fn law_intersection_stays_within(views: Seq<Map<usize, usize>>, m: usize)
    requires
        views.len() > 0,
        masks_within(views[0], m),
    ensures
        masks_within(intersection_map(views), m),
{
    assert forall|k: usize| #[trigger] intersection_map(views).contains_key(k) implies mask_within(intersection_map(views)[k], m) by {
        assert forall|p: int| m <= p < usize::BITS - m implies #[trigger] (intersection_map(views)[k] & single_bit(p as usize)) == 0 by {
            let h = GeometryHandle { index: k, orientation: GeomOrientation::Standard { rotations: p as usize } };
            assert(h.orientation.spec_to_bits() == single_bit(p as usize));
            lemma_and_range_holds(views, views.len() as int, h);
            if intersection_map(views)[k] & single_bit(p as usize) != 0 {
                assert(map_holds(views[0], h));
                if !views[0].contains_key(k) {
                    lemma_mask_bits(0, 0, single_bit(p as usize));
                }
                assert(mask_within(views[0][k], m));
            }
        }
    }
}

} // verus!
