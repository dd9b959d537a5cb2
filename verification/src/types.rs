use vstd::prelude::*;
use vstd::std_specs::convert::FromSpecImpl;

verus! {

// ---------------------------------------------------------------------------
// Coordinates
// ---------------------------------------------------------------------------

/// Row / column coordinates of a cell.
#[derive(Clone, Copy, PartialEq, Eq, Structural, Debug)]
pub struct RCCoords {
    pub r: usize,
    pub c: usize,
}

/// Grid (3x3 box) / position-in-grid coordinates of a cell.
#[derive(Clone, Copy, PartialEq, Eq, Structural, Debug)]
pub struct GNCoords {
    pub g: usize,
    pub n: usize,
}

/// Both coordinate systems of a cell at once.
#[derive(Clone, Copy, PartialEq, Eq, Structural, Debug)]
pub struct Coords {
    pub r: usize,
    pub c: usize,
    pub g: usize,
    pub n: usize,
}

/// Grid coordinates of the row/column position `(r, c)`; the first sum wraps as the
/// machine addition does.
pub open spec fn spec_rc_to_gn(rc: RCCoords) -> GNCoords {
    GNCoords {
        g: vstd::wrapping::usize_specs::wrapping_add((rc.r / 3 * 3) as usize, rc.c / 3),
        n: (rc.r % 3 * 3 + rc.c % 3) as usize,
    }
}

/// Row/column coordinates of the grid position `(g, n)`; the first sum wraps as the
/// machine addition does.
pub open spec fn spec_gn_to_rc(gn: GNCoords) -> RCCoords {
    RCCoords {
        r: vstd::wrapping::usize_specs::wrapping_add((gn.g / 3 * 3) as usize, gn.n / 3),
        c: (gn.g % 3 * 3 + gn.n % 3) as usize,
    }
}

/// The full coordinates of the row/column position `rc`.
pub open spec fn spec_coords_of_rc(rc: RCCoords) -> Coords {
    Coords { r: rc.r, c: rc.c, g: spec_rc_to_gn(rc).g, n: spec_rc_to_gn(rc).n }
}

/// The full coordinates of the grid position `gn`.
pub open spec fn spec_coords_of_gn(gn: GNCoords) -> Coords {
    Coords { r: spec_gn_to_rc(gn).r, c: spec_gn_to_rc(gn).c, g: gn.g, n: gn.n }
}

/// The full coordinates of the cell stored at index `idx` (row-major order).
#[verifier::opaque]
pub open spec fn coords_of_index(idx: int) -> Coords {
    let r = idx / 9;
    let c = idx % 9;
    Coords { r: r as usize, c: c as usize, g: (r / 3 * 3 + c / 3) as usize, n: (r % 3 * 3 + c % 3) as usize }
}

impl RCCoords {
    /// The coordinates of the cell stored at row-major index `idx`.
    pub fn from_idx(idx: usize) -> (ret: RCCoords)
        ensures
            ret.r == idx / 9,
            ret.c == idx % 9,
    {
        RCCoords { r: idx / 9, c: idx % 9 }
    }
}

impl From<Coords> for RCCoords {
    fn from(coords: Coords) -> (ret: Self) {
        let Coords { r, c, g: _, n: _ } = coords;
        RCCoords { r, c }
    }
}

impl FromSpecImpl<Coords> for RCCoords {
    open spec fn obeys_from_spec() -> bool {
        true
    }

    open spec fn from_spec(coords: Coords) -> RCCoords {
        RCCoords { r: coords.r, c: coords.c }
    }
}

impl From<Coords> for GNCoords {
    fn from(coords: Coords) -> (ret: Self) {
        let Coords { r: _, c: _, g, n } = coords;
        GNCoords { g, n }
    }
}

impl FromSpecImpl<Coords> for GNCoords {
    open spec fn obeys_from_spec() -> bool {
        true
    }

    open spec fn from_spec(coords: Coords) -> GNCoords {
        GNCoords { g: coords.g, n: coords.n }
    }
}

impl From<GNCoords> for RCCoords {
    fn from(gn: GNCoords) -> (ret: Self) {
        let GNCoords { g, n } = gn;
        RCCoords { r: (g / 3 * 3).wrapping_add(n / 3), c: g % 3 * 3 + n % 3 }
    }
}

impl FromSpecImpl<GNCoords> for RCCoords {
    open spec fn obeys_from_spec() -> bool {
        true
    }

    open spec fn from_spec(gn: GNCoords) -> RCCoords {
        spec_gn_to_rc(gn)
    }
}

impl From<RCCoords> for GNCoords {
    fn from(rc: RCCoords) -> (ret: Self) {
        let RCCoords { r, c } = rc;
        GNCoords { g: (r / 3 * 3).wrapping_add(c / 3), n: r % 3 * 3 + c % 3 }
    }
}

impl FromSpecImpl<RCCoords> for GNCoords {
    open spec fn obeys_from_spec() -> bool {
        true
    }

    open spec fn from_spec(rc: RCCoords) -> GNCoords {
        spec_rc_to_gn(rc)
    }
}

impl From<RCCoords> for Coords {
    fn from(rc: RCCoords) -> (ret: Self) {
        let RCCoords { r, c } = rc;
        let GNCoords { g, n } = GNCoords::from(rc);
        Coords { r, c, g, n }
    }
}

impl FromSpecImpl<RCCoords> for Coords {
    open spec fn obeys_from_spec() -> bool {
        true
    }

    open spec fn from_spec(rc: RCCoords) -> Coords {
        spec_coords_of_rc(rc)
    }
}

impl From<GNCoords> for Coords {
    fn from(gn: GNCoords) -> (ret: Self) {
        let RCCoords { r, c } = RCCoords::from(gn);
        let GNCoords { g, n } = gn;
        Coords { r, c, g, n }
    }
}

impl FromSpecImpl<GNCoords> for Coords {
    open spec fn obeys_from_spec() -> bool {
        true
    }

    open spec fn from_spec(gn: GNCoords) -> Coords {
        spec_coords_of_gn(gn)
    }
}

/// Converting a row/column position of the board to grid coordinates and back gives the
/// position again.
pub proof fn lemma_rc_gn_roundtrip(rc: RCCoords)
    requires
        rc.r < 9,
        rc.c < 9,
    ensures
        spec_gn_to_rc(spec_rc_to_gn(rc)) == rc,
        spec_rc_to_gn(rc).g < 9,
        spec_rc_to_gn(rc).n < 9,
{
}

/// Converting a grid position of the board to row/column coordinates and back gives the
/// position again.
pub proof fn lemma_gn_rc_roundtrip(gn: GNCoords)
    requires
        gn.g < 9,
        gn.n < 9,
    ensures
        spec_rc_to_gn(spec_gn_to_rc(gn)) == gn,
        spec_gn_to_rc(gn).r < 9,
        spec_gn_to_rc(gn).c < 9,
{
}


// ---------------------------------------------------------------------------
// Candidate digits of a cell, kept as a bit set
// ---------------------------------------------------------------------------

/// Whether bit `v` of `x` is set.
pub open spec fn bit_of(x: u16, v: u8) -> bool {
    (x >> (v as u16)) & 1u16 == 1u16
}

/// The set of positions (below 16) of the bits set in `x`.
pub open spec fn bits_set(x: u16) -> Set<u8> {
    Set::new(|v: u8| v < 16 && bit_of(x, v))
}

proof fn lemma_bit_ops()
    by (bit_vector)
    ensures
        forall|x: u16, v: u16| v < 16 ==> (#[trigger] (x & (1u16 << v)) != 0u16 <==> ((x >> v) & 1u16 == 1u16)),
        forall|a: u16, b: u16, v: u16| v < 16 ==> ((#[trigger] ((a | b) >> v)) & 1u16 == 1u16 <==> ((a >> v) & 1u16 == 1u16 || (b >> v) & 1u16 == 1u16)),
        forall|a: u16, b: u16, v: u16| v < 16 ==> ((#[trigger] ((a & b) >> v)) & 1u16 == 1u16 <==> ((a >> v) & 1u16 == 1u16 && (b >> v) & 1u16 == 1u16)),
        forall|a: u16, b: u16, v: u16| v < 16 ==> ((#[trigger] ((a & !b) >> v)) & 1u16 == 1u16 <==> ((a >> v) & 1u16 == 1u16 && !((b >> v) & 1u16 == 1u16))),
        forall|i: u16, v: u16| i < 16 && v < 16 ==> (((#[trigger] ((1u16 << i) >> v)) & 1u16 == 1u16) <==> i == v),
        forall|v: u16| v < 16 ==> ((#[trigger] (0u16 >> v)) & 1u16 != 1u16),
{
}

proof fn lemma_bits_extensional(a: u16, b: u16)
    requires
        forall|v: u8| v < 16 ==> bit_of(a, v) == bit_of(b, v),
    ensures
        a == b,
{
    assert(bit_of(a, 0) == bit_of(b, 0));
    assert(bit_of(a, 1) == bit_of(b, 1));
    assert(bit_of(a, 2) == bit_of(b, 2));
    assert(bit_of(a, 3) == bit_of(b, 3));
    assert(bit_of(a, 4) == bit_of(b, 4));
    assert(bit_of(a, 5) == bit_of(b, 5));
    assert(bit_of(a, 6) == bit_of(b, 6));
    assert(bit_of(a, 7) == bit_of(b, 7));
    assert(bit_of(a, 8) == bit_of(b, 8));
    assert(bit_of(a, 9) == bit_of(b, 9));
    assert(bit_of(a, 10) == bit_of(b, 10));
    assert(bit_of(a, 11) == bit_of(b, 11));
    assert(bit_of(a, 12) == bit_of(b, 12));
    assert(bit_of(a, 13) == bit_of(b, 13));
    assert(bit_of(a, 14) == bit_of(b, 14));
    assert(bit_of(a, 15) == bit_of(b, 15));
    lemma_sixteen_bits_determine(a, b);
}

proof fn lemma_sixteen_bits_determine(a: u16, b: u16)
    by (bit_vector)
    requires
        (a >> 0u16) & 1u16 == 1u16 <==> (b >> 0u16) & 1u16 == 1u16,
        (a >> 1u16) & 1u16 == 1u16 <==> (b >> 1u16) & 1u16 == 1u16,
        (a >> 2u16) & 1u16 == 1u16 <==> (b >> 2u16) & 1u16 == 1u16,
        (a >> 3u16) & 1u16 == 1u16 <==> (b >> 3u16) & 1u16 == 1u16,
        (a >> 4u16) & 1u16 == 1u16 <==> (b >> 4u16) & 1u16 == 1u16,
        (a >> 5u16) & 1u16 == 1u16 <==> (b >> 5u16) & 1u16 == 1u16,
        (a >> 6u16) & 1u16 == 1u16 <==> (b >> 6u16) & 1u16 == 1u16,
        (a >> 7u16) & 1u16 == 1u16 <==> (b >> 7u16) & 1u16 == 1u16,
        (a >> 8u16) & 1u16 == 1u16 <==> (b >> 8u16) & 1u16 == 1u16,
        (a >> 9u16) & 1u16 == 1u16 <==> (b >> 9u16) & 1u16 == 1u16,
        (a >> 10u16) & 1u16 == 1u16 <==> (b >> 10u16) & 1u16 == 1u16,
        (a >> 11u16) & 1u16 == 1u16 <==> (b >> 11u16) & 1u16 == 1u16,
        (a >> 12u16) & 1u16 == 1u16 <==> (b >> 12u16) & 1u16 == 1u16,
        (a >> 13u16) & 1u16 == 1u16 <==> (b >> 13u16) & 1u16 == 1u16,
        (a >> 14u16) & 1u16 == 1u16 <==> (b >> 14u16) & 1u16 == 1u16,
        (a >> 15u16) & 1u16 == 1u16 <==> (b >> 15u16) & 1u16 == 1u16,
    ensures
        a == b,
{
}

/// The candidate digits (0 to 8) of a draft cell.
#[derive(Clone, Copy, PartialEq, Eq, Structural, Hash, Debug)]
pub struct Candidate(u16);

impl View for Candidate {
    type V = Set<u8>;

    closed spec fn view(&self) -> Set<u8> {
        bits_set(self.0)
    }
}

impl Default for Candidate {
    fn default() -> (ret: Candidate)
        ensures
            ret@ == Set::<u8>::empty(),
    {
        proof {
            lemma_bit_ops();
            assert(bits_set(0u16) =~= Set::<u8>::empty());
        }
        Candidate(0)
    }
}

impl Candidate {
    /// Two candidate sets with the same members are equal.
    pub proof fn lemma_view_injective(a: Candidate, b: Candidate)
        requires
            a@ == b@,
        ensures
            a == b,
    {
        assert forall|v: u8| v < 16 implies bit_of(a.0, v) == bit_of(b.0, v) by {
            assert(a@.contains(v) == b@.contains(v));
            assert(bits_set(a.0).contains(v) == bit_of(a.0, v));
            assert(bits_set(b.0).contains(v) == bit_of(b.0, v));
        }
        lemma_bits_extensional(a.0, b.0);
    }

    /// Every member of a candidate set is below 16.
    pub proof fn lemma_members_below_16(&self)
        ensures
            forall|v: u8| #[trigger] self@.contains(v) ==> v < 16,
    {
    }

    /// The set of all nine digits, as a value.
    pub closed spec fn spec_full() -> Candidate {
        Candidate(0x1FF)
    }

    /// The empty set, as a value.
    pub closed spec fn spec_empty() -> Candidate {
        Candidate(0)
    }

    pub proof fn lemma_spec_full_empty()
        ensures
            forall|v: u8| #[trigger] Self::spec_full()@.contains(v) <==> v < 9,
            Self::spec_empty()@ == Set::<u8>::empty(),
    {
        assert forall|v: u8| #[trigger] Self::spec_full()@.contains(v) <==> v < 9 by {
            lemma_full_bits(v as u16);
        }
        lemma_bit_ops();
        assert(Self::spec_empty()@ =~= Set::<u8>::empty());
    }

    /// The set of all nine digits.
    pub fn full() -> (ret: Candidate)
        ensures
            forall|v: u8| ret@.contains(v) <==> v < 9,
            ret == Self::spec_full(),
    {
        proof {
            assert forall|v: u8| bits_set(0x1FFu16).contains(v) <==> v < 9 by {
                lemma_full_bits(v as u16);
            }
        }
        Candidate(0x1FF)
    }

    /// The single member of the set, if the set holds exactly one digit below 9.
    pub fn get_unique_candidate(&self) -> (ret: Option<u8>)
        ensures
            match ret {
                Some(v) => v < 9 && self@ == set![v],
                None => forall|v: u8| v < 9 ==> self@ != set![v],
            },
    {
        let mut i: u8 = 0;
        while i < 9
            invariant
                i <= 9,
                forall|v: u8| v < i ==> self@ != set![v],
            decreases 9 - i,
        {
            proof {
                lemma_bit_ops();
            }
            if self.0 == 1u16 << (i as u16) {
                proof {
                    assert(self@ =~= set![i]);
                }
                return Some(i);
            }
            proof {
                if self@ == set![i] {
                    let single = Candidate(1u16 << (i as u16));
                    assert(single@ =~= set![i]);
                    Self::lemma_view_injective(*self, single);
                }
            }
            i = i + 1;
        }
        None
    }

    /// Keeps only `v` in the set (the set becomes `{v}` if it held `v`, else empty).
    pub fn add(&mut self, v: u8)
        requires
            v < 16,
        ensures
            final(self)@ == old(self)@.intersect(set![v]),
    {
        proof {
            lemma_bit_ops();
        }
        self.0 &= 0x001 << v as u16;
        proof {
            assert(final(self)@ =~= old(self)@.intersect(set![v]));
        }
    }

    /// The set with `v` removed, as a value.
    pub closed spec fn spec_remove(self, v: u8) -> Candidate {
        Candidate(self.0 & !(1u16 << (v as u16)))
    }

    /// Removing a digit below 16 from the set, as a value, removes it from the view.
    pub proof fn lemma_spec_remove(self, v: u8)
        requires
            v < 16,
        ensures
            self.spec_remove(v)@ == self@.remove(v),
    {
        lemma_bit_ops();
        assert(self.spec_remove(v)@ =~= self@.remove(v));
    }

    /// Removes `v` from the set.
    pub fn remove(&mut self, v: u8)
        requires
            v < 16,
        ensures
            final(self)@ == old(self)@.remove(v),
            *final(self) == old(self).spec_remove(v),
    {
        proof {
            lemma_bit_ops();
        }
        self.0 &= !(0x001 << v as u16);
        proof {
            assert(final(self)@ =~= old(self)@.remove(v));
        }
    }

    /// Whether `v` is in the set.
    pub fn contains(&self, v: u8) -> (ret: bool)
        requires
            v < 16,
        ensures
            ret == self@.contains(v),
    {
        proof {
            lemma_bit_ops();
        }
        self.0 & (0x001 << v as u16) != 0
    }

    /// The number of members of the set.
    pub fn len(&self) -> (ret: u32)
        ensures
            ret == self@.len(),
            self@.finite(),
    {
        let mut count: u32 = 0;
        let mut i: u8 = 0;
        proof {
            assert(Set::new(|v: u8| v < 0 && bit_of(self.0, v)) =~= Set::<u8>::empty());
        }
        while i < 16
            invariant
                i <= 16,
                count <= i,
                Set::new(|v: u8| v < i && bit_of(self.0, v)).finite(),
                count == Set::new(|v: u8| v < i && bit_of(self.0, v)).len(),
            decreases 16 - i,
        {
            let ghost before = Set::new(|v: u8| v < i && bit_of(self.0, v));
            let ghost after = Set::new(|v: u8| v < i + 1 && bit_of(self.0, v));
            proof {
                lemma_bit_ops();
            }
            if self.0 & (1u16 << (i as u16)) != 0 {
                proof {
                    assert(after =~= before.insert(i));
                }
                count = count + 1;
            } else {
                proof {
                    assert(after =~= before);
                }
            }
            i = i + 1;
        }
        proof {
            assert(Set::new(|v: u8| v < 16 && bit_of(self.0, v)) =~= self@);
        }
        count
    }

    /// The union of two sets.
    pub fn union(&self, other: &Candidate) -> (ret: Candidate)
        ensures
            ret@ == self@.union(other@),
    {
        proof {
            lemma_bit_ops();
        }
        let ret = Candidate(self.0 | other.0);
        proof {
            assert(ret@ =~= self@.union(other@));
        }
        ret
    }

    /// The intersection of two sets.
    pub fn intersect(&self, other: &Candidate) -> (ret: Candidate)
        ensures
            ret@ == self@.intersect(other@),
    {
        proof {
            lemma_bit_ops();
        }
        let ret = Candidate(self.0 & other.0);
        proof {
            assert(ret@ =~= self@.intersect(other@));
        }
        ret
    }

    /// The members of `self` that are not in `other`.
    pub fn subtract(&self, other: &Candidate) -> (ret: Candidate)
        ensures
            ret@ == self@.difference(other@),
    {
        proof {
            lemma_bit_ops();
        }
        let ret = Candidate(self.0 & !other.0);
        proof {
            assert(ret@ =~= self@.difference(other@));
        }
        ret
    }

    /// The members below 9, in increasing order.
    pub fn to_vec(&self) -> (ret: Vec<u8>)
        ensures
            ret@ == digits_in(self@),
    {
        let mut values: Vec<u8> = Vec::new();
        let mut i: u8 = 0;
        while i < 9
            invariant
                i <= 9,
                values@ == digits_below(self@, i as int),
            decreases 9 - i,
        {
            proof {
                lemma_bit_ops();
            }
            if self.0 & (0x001 << i as u16) != 0 {
                values.push(i);
            }
            i = i + 1;
        }
        values
    }
}

proof fn lemma_full_bits(v: u16)
    by (bit_vector)
    ensures
        v < 16 ==> ((0x1FFu16 >> v) & 1u16 == 1u16 <==> v < 9),
{
}

/// The members of `s` below `k`, in increasing order.
pub open spec fn digits_below(s: Set<u8>, k: int) -> Seq<u8>
    decreases k,
{
    if k <= 0 {
        Seq::empty()
    } else if s.contains((k - 1) as u8) {
        digits_below(s, k - 1).push((k - 1) as u8)
    } else {
        digits_below(s, k - 1)
    }
}

/// The members of `s` below 9, in increasing order.
pub open spec fn digits_in(s: Set<u8>) -> Seq<u8> {
    digits_below(s, 9)
}

/// The members of `s` below `k`, listed in increasing order, are exactly its members below `k`.
pub proof fn lemma_digits_below(s: Set<u8>, k: int)
    requires
        0 <= k <= 256,
    ensures
        digits_below(s, k).len() <= k,
        forall|j: int|
            0 <= j < digits_below(s, k).len() ==> #[trigger] digits_below(s, k)[j] < k && s.contains(
                digits_below(s, k)[j],
            ),
        forall|v: u8| #[trigger] digits_below(s, k).contains(v) <==> (v < k && s.contains(v)),
        forall|i: int, j: int|
            0 <= i < j < digits_below(s, k).len() ==> digits_below(s, k)[i] < digits_below(s, k)[j],
    decreases k,
{
    if k > 0 {
        lemma_digits_below(s, k - 1);
        let prev = digits_below(s, k - 1);
        if s.contains((k - 1) as u8) {
            assert forall|v: u8| #[trigger] digits_below(s, k).contains(v) <==> (v < k && s.contains(v)) by {
                if v < k - 1 && s.contains(v) {
                    assert(prev.contains(v));
                    let w = choose|w: int| 0 <= w < prev.len() && prev[w] == v;
                    assert(digits_below(s, k)[w] == v);
                }
                if v == k - 1 {
                    assert(digits_below(s, k)[prev.len() as int] == v);
                }
            }
        } else {
            assert forall|v: u8| #[trigger] digits_below(s, k).contains(v) <==> (v < k && s.contains(v)) by {
                assert(prev.contains(v) <==> (v < k - 1 && s.contains(v)));
            }
        }
    }
}

/// The members of `s` below 9, listed in increasing order, are exactly its members below 9.
pub proof fn lemma_digits_in(s: Set<u8>)
    ensures
        digits_in(s).len() <= 9,
        forall|j: int| 0 <= j < digits_in(s).len() ==> #[trigger] digits_in(s)[j] < 9 && s.contains(digits_in(s)[j]),
        forall|v: u8| #[trigger] digits_in(s).contains(v) <==> (v < 9 && s.contains(v)),
        forall|i: int, j: int| 0 <= i < j < digits_in(s).len() ==> digits_in(s)[i] < digits_in(s)[j],
{
    lemma_digits_below(s, 9);
}


// ---------------------------------------------------------------------------
// Cells and the board
// ---------------------------------------------------------------------------

/// Concatenation of `f(lo), f(lo + 1), ..., f(hi - 1)`.
pub open spec fn range_concat<A>(lo: int, hi: int, f: spec_fn(int) -> Seq<A>) -> Seq<A>
    decreases hi - lo,
{
    if hi <= lo {
        Seq::empty()
    } else {
        range_concat(lo, hi - 1, f) + f(hi - 1)
    }
}

/// `[a]` when `b` holds, else `[]`.
pub open spec fn keep_if<A>(b: bool, a: A) -> Seq<A> {
    if b {
        seq![a]
    } else {
        Seq::empty()
    }
}

#[derive(Clone, Copy, PartialEq, Eq, Structural, Debug)]
pub enum CellStatus {
    /// A given digit.
    FIXED,
    /// Not filled yet; the candidates are meaningful.
    DRAFT,
    /// Filled in while solving.
    SOLVE,
}

#[derive(Clone, Copy, Debug)]
pub struct Cell {
    pub coords: Coords,
    pub status: CellStatus,
    pub candidates: Candidate,
    /// The digit, 0 to 8, of a filled cell.
    pub value: Option<u8>,
}

/// Whether the cell holds a digit (given or solved).
pub open spec fn is_filled(cell: Cell) -> bool {
    cell.status == CellStatus::FIXED || cell.status == CellStatus::SOLVE
}

/// Whether the cell is a draft cell.
pub open spec fn is_draft(cell: Cell) -> bool {
    cell.status == CellStatus::DRAFT
}

/// Row-major index of a row/column position.
pub open spec fn rc_index(rc: RCCoords) -> int {
    rc.r * 9 + rc.c
}

/// Row-major index of the cell at row `r`, column `c`.
pub open spec fn idx(r: int, c: int) -> int {
    r * 9 + c
}

/// Row-major index of the cell at grid `g`, position `n`.
pub open spec fn gn_idx(g: int, n: int) -> int {
    idx(g / 3 * 3 + n / 3, g % 3 * 3 + n % 3)
}

/// The cells that a sequence of references points to.
pub open spec fn derefs(s: Seq<&Cell>) -> Seq<Cell> {
    s.map_values(|p: &Cell| *p)
}

/// The board: 81 cells in row-major order.
#[derive(Clone)]
pub struct Sudoku {
    cells: Vec<Cell>,
}

impl View for Sudoku {
    type V = Seq<Cell>;

    closed spec fn view(&self) -> Seq<Cell> {
        self.cells@
    }
}

/// The draft cells among the cells at indices `k` (a step of a row-major scan).
pub open spec fn draft_at(cells: Seq<Cell>) -> spec_fn(int) -> Seq<Cell> {
    |k: int| keep_if(is_draft(cells[k]), cells[k])
}

/// Draft cells of row `r`, by column.
pub open spec fn row_drafts(cells: Seq<Cell>, r: int) -> spec_fn(int) -> Seq<Cell> {
    |c: int| keep_if(is_draft(cells[idx(r, c)]), cells[idx(r, c)])
}

/// Draft cells of column `c`, by row.
pub open spec fn col_drafts(cells: Seq<Cell>, c: int) -> spec_fn(int) -> Seq<Cell> {
    |r: int| keep_if(is_draft(cells[idx(r, c)]), cells[idx(r, c)])
}

/// Draft cells of grid `g`, by position in the grid.
pub open spec fn grid_drafts(cells: Seq<Cell>, g: int) -> spec_fn(int) -> Seq<Cell> {
    |n: int| keep_if(is_draft(cells[gn_idx(g, n)]), cells[gn_idx(g, n)])
}

/// Draft cells of row `r` that have `v` among their candidates, by column.
pub open spec fn row_drafts_with(cells: Seq<Cell>, r: int, v: u8) -> spec_fn(int) -> Seq<Cell> {
    |c: int|
        keep_if(
            is_draft(cells[idx(r, c)]) && cells[idx(r, c)].candidates@.contains(v),
            cells[idx(r, c)],
        )
}

/// The coordinates that `collect_all_drafts_coords_by_coords_and_value` gathers at step `i`:
/// the draft cells holding candidate `v` in column `c` (row `i`), in row `r` (column `i`,
/// other than column `c`), and in grid `g` (position `i`, outside row `r` and column `c`).
pub open spec fn peer_coords_with(cells: Seq<Cell>, r: int, c: int, g: int, v: u8) -> spec_fn(int) -> Seq<Coords> {
    |i: int|
        keep_if(
            is_draft(cells[idx(i, c)]) && cells[idx(i, c)].candidates@.contains(v),
            cells[idx(i, c)].coords,
        ) + keep_if(
            cells[idx(r, i)].coords.c != c && is_draft(cells[idx(r, i)])
                && cells[idx(r, i)].candidates@.contains(v),
            cells[idx(r, i)].coords,
        ) + keep_if(
            cells[gn_idx(g, i)].coords.r != r && cells[gn_idx(g, i)].coords.c != c && is_draft(
                cells[gn_idx(g, i)],
            ) && cells[gn_idx(g, i)].candidates@.contains(v),
            cells[gn_idx(g, i)].coords,
        )
}

/// A concatenation of pieces of at most one element is empty exactly when every piece is.
pub proof fn lemma_range_concat_empty<A>(lo: int, hi: int, f: spec_fn(int) -> Seq<A>)
    ensures
        range_concat(lo, hi, f).len() == 0 <==> forall|k: int| lo <= k < hi ==> #[trigger] f(k).len() == 0,
    decreases hi - lo,
{
    if hi > lo {
        lemma_range_concat_empty(lo, hi - 1, f);
        if range_concat(lo, hi, f).len() == 0 {
            assert forall|k: int| lo <= k < hi implies #[trigger] f(k).len() == 0 by {
                if k < hi - 1 {
                    assert(range_concat(lo, hi - 1, f).len() == 0);
                }
            }
        }
    }
}

/// The coordinates of a row/column position of the board.
pub proof fn lemma_idx_coords(r: int, c: int)
    requires
        0 <= r < 9,
        0 <= c < 9,
    ensures
        0 <= idx(r, c) < 81,
        coords_of_index(idx(r, c)).r == r,
        coords_of_index(idx(r, c)).c == c,
        coords_of_index(idx(r, c)).g < 9,
        coords_of_index(idx(r, c)).n < 9,
        coords_of_index(idx(r, c)).g == r / 3 * 3 + c / 3,
{
    reveal(coords_of_index);
}

/// An element of a concatenation of pieces of at most one element is the element of one
/// of the pieces.
pub proof fn lemma_range_concat_member<A>(lo: int, hi: int, f: spec_fn(int) -> Seq<A>, t: int)
    requires
        forall|k: int| lo <= k < hi ==> #[trigger] f(k).len() <= 1,
        0 <= t < range_concat(lo, hi, f).len(),
    ensures
        exists|k: int| lo <= k < hi && #[trigger] f(k).len() == 1 && f(k)[0] == range_concat(lo, hi, f)[t],
    decreases hi - lo,
{
    if hi > lo {
        let prev = range_concat(lo, hi - 1, f);
        if t < prev.len() {
            lemma_range_concat_member(lo, hi - 1, f, t);
            let k = choose|k: int| lo <= k < hi - 1 && #[trigger] f(k).len() == 1 && f(k)[0] == prev[t];
            assert(lo <= k < hi && f(k).len() == 1 && f(k)[0] == range_concat(lo, hi, f)[t]);
        } else {
            assert(f(hi - 1).len() == 1);
            assert(f(hi - 1)[0] == range_concat(lo, hi, f)[t]);
        }
    }
}

/// Index facts of the grid positions of a board.
pub proof fn lemma_gn_idx(g: int, n: int)
    requires
        0 <= g < 9,
        0 <= n < 9,
    ensures
        0 <= gn_idx(g, n) < 81,
        coords_of_index(gn_idx(g, n)).g == g,
        coords_of_index(gn_idx(g, n)).n == n,
        coords_of_index(gn_idx(g, n)).r == g / 3 * 3 + n / 3,
        coords_of_index(gn_idx(g, n)).c == g % 3 * 3 + n % 3,
        gn_idx(g, n) == rc_index(spec_gn_to_rc(GNCoords { g: g as usize, n: n as usize })),
{
    reveal(coords_of_index);
}


/// Whether `b` is filled with the same digit as `a` holds.
pub open spec fn clashes(a: Cell, b: Cell) -> bool {
    b.value == a.value && is_filled(b)
}

/// Whether no cell that `collect_all_drafts_coords_by_coords_and_value` checks for a
/// candidate is a draft cell: none of the column of `(r, c)`, the rest of its row, and the
/// rest of grid `g` off its row and column.
pub open spec fn no_draft_peer(cells: Seq<Cell>, r: int, c: int, g: int) -> bool {
    forall|i: int|
        0 <= i < 9 ==> {
            &&& !is_draft(#[trigger] cells[idx(i, c)])
            &&& cells[idx(r, i)].coords.c != c ==> !is_draft(cells[idx(r, i)])
            &&& cells[gn_idx(g, i)].coords.r != r && cells[gn_idx(g, i)].coords.c != c ==> !is_draft(
                cells[gn_idx(g, i)],
            )
        }
}

/// Pairs of cell `i` with the cells below it in its column that clash with it.
pub open spec fn col_clashes(cells: Seq<Cell>, i: int) -> spec_fn(int) -> Seq<(Cell, Cell)> {
    |k: int| keep_if(clashes(cells[i], cells[idx(k, i % 9)]), (cells[i], cells[idx(k, i % 9)]))
}

/// Pairs of cell `i` with the cells right of it in its row that clash with it.
pub open spec fn row_clashes(cells: Seq<Cell>, i: int) -> spec_fn(int) -> Seq<(Cell, Cell)> {
    |k: int| keep_if(clashes(cells[i], cells[idx(i / 9, k)]), (cells[i], cells[idx(i / 9, k)]))
}

/// Pairs of cell `i` with the cells after it in its grid that clash with it.
pub open spec fn grid_clashes(cells: Seq<Cell>, i: int) -> spec_fn(int) -> Seq<(Cell, Cell)> {
    |k: int|
        keep_if(
            clashes(cells[i], cells[gn_idx(coords_of_index(i).g as int, k)]),
            (cells[i], cells[gn_idx(coords_of_index(i).g as int, k)]),
        )
}

/// The conflicts that cell `i` has with later cells of its column, row and grid.
pub open spec fn conflicts_of(cells: Seq<Cell>) -> spec_fn(int) -> Seq<(Cell, Cell)> {
    |i: int|
        if is_filled(cells[i]) {
            range_concat(i / 9 + 1, 9, col_clashes(cells, i)) + range_concat(i % 9 + 1, 9, row_clashes(cells, i))
                + range_concat(coords_of_index(i).n as int + 1, 9, grid_clashes(cells, i))
        } else {
            Seq::empty()
        }
}

/// All conflicts of a board, cell by cell in row-major order.
pub open spec fn all_conflicts(cells: Seq<Cell>) -> Seq<(Cell, Cell)> {
    range_concat(0, 81, conflicts_of(cells))
}

/// Completeness of conflict detection: two filled cells of one row, column or grid that
/// hold the same value show up, as a pair, among the board's conflicts.
pub proof fn lemma_conflict_found(cells: Seq<Cell>, a: int, b: int)
    requires
        cells.len() == 81,
        0 <= a < b < 81,
        crate::same_unit(a, b),
        is_filled(cells[a]),
        is_filled(cells[b]),
        cells[a].value == cells[b].value,
    ensures
        all_conflicts(cells).contains((cells[a], cells[b])),
{
    let pair = (cells[a], cells[b]);
    let (ra, ca, rb, cb) = (a / 9, a % 9, b / 9, b % 9);
    lemma_index_decomp(a);
    lemma_index_decomp(b);
    let f = conflicts_of(cells);
    let fc = col_clashes(cells, a);
    let fr = row_clashes(cells, a);
    let fg = grid_clashes(cells, a);
    let pc = range_concat(ra + 1, 9, fc);
    let pr = range_concat(ca + 1, 9, fr);
    let na = coords_of_index(a).n as int;
    let pg = range_concat(na + 1, 9, fg);
    assert(f(a) == pc + pr + pg);
    if ca == cb {
        assert(rb > ra);
        assert(idx(rb, ca) == b);
        assert(fc(rb) == seq![pair]);
        assert(fc(rb)[0] == pair);
        crate::inferences::lemma_range_concat_has(ra + 1, 9, fc, rb, pair);
        assert((pc + pr + pg)[pc.index_of(pair)] == pair);
    } else if ra == rb {
        assert(cb > ca);
        assert(idx(ra, cb) == b);
        assert(fr(cb) == seq![pair]);
        assert(fr(cb)[0] == pair);
        crate::inferences::lemma_range_concat_has(ca + 1, 9, fr, cb, pair);
        assert((pc + pr + pg)[pc.len() + pr.index_of(pair)] == pair);
    } else {
        assert(ra / 3 == rb / 3 && ca / 3 == cb / 3);
        assert(ra < rb);
        let (ga, gb) = (coords_of_index(a).g as int, coords_of_index(b).g as int);
        let nb = coords_of_index(b).n as int;
        assert(ga == ra / 3 * 3 + ca / 3 && gb == rb / 3 * 3 + cb / 3 && na == ra % 3 * 3 + ca % 3 && nb == rb % 3 * 3
            + cb % 3) by {
            reveal(coords_of_index);
        }
        assert(ra % 3 < rb % 3);
        assert(na < nb);
        assert(gn_idx(ga, nb) == b);
        assert(fg(nb) == seq![pair]);
        assert(fg(nb)[0] == pair);
        crate::inferences::lemma_range_concat_has(na + 1, 9, fg, nb, pair);
        assert((pc + pr + pg)[pc.len() + pr.len() + pg.index_of(pair)] == pair);
    }
    assert(f(a).contains(pair));
    crate::inferences::lemma_range_concat_has(0, 81, f, a, pair);
}

/// Whether `e` pairs two different filled cells of one row, column or grid that hold the
/// same value.
pub open spec fn real_conflict(cells: Seq<Cell>, e: (Cell, Cell)) -> bool {
    exists|a: int, b: int|
        0 <= a < 81 && 0 <= b < 81 && a != b && crate::same_unit(a, b) && is_filled(cells[a]) && is_filled(cells[b])
            && cells[a].value == cells[b].value && (#[trigger] cells[a], #[trigger] cells[b]) == e
}

/// Soundness of conflict detection: every conflict reported pairs two different filled cells
/// of one row, column or grid that hold the same value.
pub proof fn lemma_conflicts_real(cells: Seq<Cell>)
    requires
        cells.len() == 81,
    ensures
        forall|t: int| 0 <= t < all_conflicts(cells).len() ==> real_conflict(cells, #[trigger] all_conflicts(cells)[t]),
{
    let pred = |e: (Cell, Cell)| real_conflict(cells, e);
    let f = conflicts_of(cells);
    assert forall|i: int, j: int| 0 <= i < 81 && 0 <= j < f(i).len() implies pred(#[trigger] f(i)[j]) by {
        lemma_index_decomp(i);
        let (r, c) = (i / 9, i % 9);
        let g = coords_of_index(i).g as int;
        let n = coords_of_index(i).n as int;
        let fc = col_clashes(cells, i);
        let fr = row_clashes(cells, i);
        let fg = grid_clashes(cells, i);
        assert forall|k: int, j2: int| r + 1 <= k < 9 && 0 <= j2 < fc(k).len() implies pred(#[trigger] fc(k)[j2]) by {
            let b = idx(k, c);
            lemma_idx_parts(k, c);
            assert((cells[i], cells[b]) == fc(k)[j2]);
        }
        assert forall|k: int, j2: int| c + 1 <= k < 9 && 0 <= j2 < fr(k).len() implies pred(#[trigger] fr(k)[j2]) by {
            let b = idx(r, k);
            lemma_idx_parts(r, k);
            assert((cells[i], cells[b]) == fr(k)[j2]);
        }
        assert forall|k: int, j2: int| n + 1 <= k < 9 && 0 <= j2 < fg(k).len() implies pred(#[trigger] fg(k)[j2]) by {
            let b = gn_idx(g, k);
            crate::inferences::lemma_grid_pair(g, k, n);
            assert((cells[i], cells[b]) == fg(k)[j2]);
        }
        crate::inferences::lemma_range_concat_all(r + 1, 9, fc, pred);
        crate::inferences::lemma_range_concat_all(c + 1, 9, fr, pred);
        crate::inferences::lemma_range_concat_all(n + 1, 9, fg, pred);
        let (pc, pr, pg) = (range_concat(r + 1, 9, fc), range_concat(c + 1, 9, fr), range_concat(n + 1, 9, fg));
        assert(f(i) == pc + pr + pg);
        if j < pc.len() {
            assert(f(i)[j] == pc[j]);
        } else if j < pc.len() + pr.len() {
            assert(f(i)[j] == pr[j - pc.len()]);
        } else {
            assert(f(i)[j] == pg[j - pc.len() - pr.len()]);
        }
    }
    crate::inferences::lemma_range_concat_all(0, 81, f, pred);
}

/// A board without conflicts has no two filled cells of one row, column or grid that hold
/// the same value.
pub proof fn lemma_no_conflicts_distinct(cells: Seq<Cell>)
    requires
        cells.len() == 81,
        all_conflicts(cells).len() == 0,
    ensures
        forall|a: int, b: int|
            0 <= a < 81 && 0 <= b < 81 && a != b && crate::same_unit(a, b) && #[trigger] is_filled(cells[a])
                && #[trigger] is_filled(cells[b]) ==> cells[a].value != cells[b].value,
{
    assert forall|a: int, b: int|
        0 <= a < 81 && 0 <= b < 81 && a != b && crate::same_unit(a, b) && #[trigger] is_filled(cells[a])
            && #[trigger] is_filled(cells[b]) implies cells[a].value != cells[b].value by {
        if cells[a].value == cells[b].value {
            if a < b {
                lemma_conflict_found(cells, a, b);
            } else {
                lemma_conflict_found(cells, b, a);
            }
        }
    }
}


/// The cell pairs that a sequence of reference pairs points to.
pub open spec fn pair_derefs(s: Seq<(&Cell, &Cell)>) -> Seq<(Cell, Cell)> {
    s.map_values(|p: (&Cell, &Cell)| (*p.0, *p.1))
}


/// Whether the cells at indices `k` and `j` share a row, a column or a grid.
pub open spec fn is_peer(k: int, j: int) -> bool {
    ||| k / 9 == j / 9
    ||| k % 9 == j % 9
    ||| coords_of_index(k).g == coords_of_index(j).g
}

/// The given digits of the cells before index `upto` that are peers of cell `j`.
#[verifier::opaque]
pub open spec fn peer_givens(cells: Seq<Cell>, j: int, upto: int) -> Set<u8> {
    Set::new(
        |v: u8|
            exists|k: int|
                0 <= k < upto && #[trigger] cells[k].status == CellStatus::FIXED && cells[k].value == Some(v) && is_peer(
                    k,
                    j,
                ),
    )
}

/// Every given cell holds a digit below 16.
pub open spec fn givens_have_digits(cells: Seq<Cell>) -> bool {
    forall|k: int|
        0 <= k < cells.len() && #[trigger] cells[k].status == CellStatus::FIXED ==> (cells[k].value is Some
            && cells[k].value->0 < 16)
}

/// The candidates that filling the drafts gives cell `j`: all nine digits for a draft
/// cell (its old candidates otherwise), less the given digits of its peers.
pub open spec fn filled_candidates(cells: Seq<Cell>, j: int) -> Set<u8> {
    let base = if is_draft(cells[j]) {
        Set::new(|v: u8| v < 9)
    } else {
        cells[j].candidates@
    };
    base.difference(peer_givens(cells, j, 81))
}

/// The two boards agree everywhere but on the candidates.
pub open spec fn same_but_candidates(a: Seq<Cell>, b: Seq<Cell>) -> bool {
    &&& a.len() == b.len()
    &&& forall|j: int|
        #![trigger b[j]]
        0 <= j < a.len() ==> b[j].status == a[j].status && b[j].value == a[j].value && b[j].coords == a[j].coords
}

/// A cell's index is recovered from its row and column, and from its grid coordinates.
pub proof fn lemma_index_decomp(j: int)
    requires
        0 <= j < 81,
    ensures
        j == idx(j / 9, j % 9),
        j == gn_idx(coords_of_index(j).g as int, coords_of_index(j).n as int),
        coords_of_index(j).g < 9,
        coords_of_index(j).n < 9,
        coords_of_index(j).r == j / 9,
        coords_of_index(j).c == j % 9,
        j / 9 < 9,
        j % 9 < 9,
{
    reveal(coords_of_index);
    assert(0 <= j / 9 < 9);
    assert(0 <= j % 9 < 9);
    let r = j / 9;
    let c = j % 9;
    assert(r == 0 || r == 1 || r == 2 || r == 3 || r == 4 || r == 5 || r == 6 || r == 7 || r == 8);
    assert(c == 0 || c == 1 || c == 2 || c == 3 || c == 4 || c == 5 || c == 6 || c == 7 || c == 8);
}


/// Whether cell `j` is among the cells of column `c`, row `r` and grid `g` at the first
/// `i` positions.
#[verifier::opaque]
pub open spec fn touched(r: int, c: int, g: int, i: int, j: int) -> bool {
    exists|t: int| 0 <= t < i && (j == idx(t, c) || j == idx(r, t) || j == gn_idx(g, t))
}

proof fn lemma_touched_step(r: int, c: int, g: int, i: int, j: int)
    requires
        0 <= i,
    ensures
        touched(r, c, g, i + 1, j) == (touched(r, c, g, i, j) || j == idx(i, c) || j == idx(r, i) || j
            == gn_idx(g, i)),
        touched(r, c, g, 0, j) == false,
{
    reveal(touched);
    if touched(r, c, g, i + 1, j) && !(j == idx(i, c) || j == idx(r, i) || j == gn_idx(g, i)) {
        let t = choose|t: int| 0 <= t < i + 1 && (j == idx(t, c) || j == idx(r, t) || j == gn_idx(g, t));
        assert(t < i);
    }
    if j == idx(i, c) || j == idx(r, i) || j == gn_idx(g, i) {
        assert(0 <= i < i + 1);
    }
    if touched(r, c, g, i, j) {
        let t = choose|t: int| 0 <= t < i && (j == idx(t, c) || j == idx(r, t) || j == gn_idx(g, t));
        assert(0 <= t < i + 1);
    }
}

pub proof fn lemma_idx_parts(t: int, c: int)
    requires
        0 <= t < 9,
        0 <= c < 9,
    ensures
        idx(t, c) / 9 == t,
        idx(t, c) % 9 == c,
        0 <= idx(t, c) < 81,
{
}

proof fn lemma_peer_touched(k: int, j: int)
    requires
        0 <= k < 81,
        0 <= j < 81,
        is_peer(k, j),
    ensures
        touched(k / 9, k % 9, coords_of_index(k).g as int, 9, j),
{
    reveal(touched);
    lemma_index_decomp(j);
    let r = k / 9;
    let c = k % 9;
    let g = coords_of_index(k).g as int;
    if k % 9 == j % 9 {
        assert(j == idx(j / 9, c) && 0 <= j / 9 < 9);
    } else if k / 9 == j / 9 {
        assert(j == idx(r, j % 9) && 0 <= j % 9 < 9);
    } else {
        let n = coords_of_index(j).n as int;
        assert(j == gn_idx(g, n) && 0 <= n < 9);
    }
}

proof fn lemma_touched_is_peer(k: int, j: int, t: int)
    requires
        0 <= k < 81,
        0 <= j < 81,
        0 <= t < 9,
        j == idx(t, k % 9) || j == idx(k / 9, t) || j == gn_idx(coords_of_index(k).g as int, t),
    ensures
        is_peer(k, j),
{
    lemma_index_decomp(k);
    let g = coords_of_index(k).g as int;
    if j == idx(t, k % 9) {
        lemma_idx_parts(t, k % 9);
    } else if j == idx(k / 9, t) {
        lemma_idx_parts(k / 9, t);
    } else {
        lemma_gn_idx(g, t);
    }
}

proof fn lemma_touched_peer(k: int, j: int)
    requires
        0 <= k < 81,
        0 <= j < 81,
    ensures
        touched(k / 9, k % 9, coords_of_index(k).g as int, 9, j) == is_peer(k, j),
{
    if is_peer(k, j) {
        lemma_peer_touched(k, j);
    }
    let r = k / 9;
    let c = k % 9;
    let g = coords_of_index(k).g as int;
    if touched(r, c, g, 9, j) {
        reveal(touched);
        let t = choose|t: int| 0 <= t < 9 && (j == idx(t, c) || j == idx(r, t) || j == gn_idx(g, t));
        lemma_touched_is_peer(k, j, t);
    }
}

proof fn lemma_peer_givens_none(cells: Seq<Cell>, j: int)
    ensures
        peer_givens(cells, j, 0) == Set::<u8>::empty(),
{
    reveal(peer_givens);
    assert(peer_givens(cells, j, 0) =~= Set::<u8>::empty());
}

proof fn lemma_peer_givens_step(cells: Seq<Cell>, j: int, k: int)
    requires
        0 <= k < cells.len(),
        cells[k].status == CellStatus::FIXED ==> cells[k].value is Some,
    ensures
        peer_givens(cells, j, k + 1) == if cells[k].status == CellStatus::FIXED && is_peer(k, j) {
            peer_givens(cells, j, k).insert(cells[k].value->0)
        } else {
            peer_givens(cells, j, k)
        },
{
    reveal(peer_givens);
    let lhs = peer_givens(cells, j, k + 1);
    let rhs = if cells[k].status == CellStatus::FIXED && is_peer(k, j) {
        peer_givens(cells, j, k).insert(cells[k].value->0)
    } else {
        peer_givens(cells, j, k)
    };
    assert forall|v: u8| lhs.contains(v) implies rhs.contains(v) by {
        let w = choose|w: int|
            0 <= w < k + 1 && #[trigger] cells[w].status == CellStatus::FIXED && cells[w].value == Some(v) && is_peer(w, j);
        if w < k {
            assert(peer_givens(cells, j, k).contains(v));
        }
    }
    assert forall|v: u8| rhs.contains(v) implies lhs.contains(v) by {
        if peer_givens(cells, j, k).contains(v) {
            let w = choose|w: int|
                0 <= w < k && #[trigger] cells[w].status == CellStatus::FIXED && cells[w].value == Some(v) && is_peer(w, j);
            assert(0 <= w < k + 1);
        } else {
            assert(cells[k].status == CellStatus::FIXED && cells[k].value == Some(v) && is_peer(k, j));
        }
    }
    assert(lhs =~= rhs);
}


/// Whether every character is a decimal digit.
pub open spec fn all_digits(s: Seq<char>) -> bool {
    forall|i: int| 0 <= i < s.len() ==> '0' <= #[trigger] s[i] <= '9'
}

/// The number that a decimal digit character stands for.
pub open spec fn digit_of(ch: char) -> int {
    ch as int - '0' as int
}

/// The cells that a string of 81 digits describes, before the candidates are worked out:
/// `0` is a draft cell, `1` to `9` a given digit 0 to 8.
pub open spec fn parsed_cells(s: Seq<char>) -> Seq<Cell> {
    Seq::new(
        81,
        |i: int|
            Cell {
                coords: coords_of_index(i),
                status: if digit_of(s[i]) == 0 {
                    CellStatus::DRAFT
                } else {
                    CellStatus::FIXED
                },
                candidates: Candidate::spec_full(),
                value: if digit_of(s[i]) == 0 {
                    None
                } else {
                    Some((digit_of(s[i]) - 1) as u8)
                },
            },
    )
}

/// The digit (0 to 8) at row `r`, column `c` of the solved pattern that a new board
/// starts from.
pub open spec fn base_digit(r: int, c: int) -> u8 {
    ((r * 3 + r / 3 + c) % 9) as u8
}

/// Whether row `r`, column `c` is left open in the pattern that a new board starts from.
pub open spec fn base_is_hole(r: int, c: int) -> bool {
    (r * 3) % 9 + r / 3 == c
}

/// The cells of a new board before the candidates are worked out.
pub open spec fn base_cells() -> Seq<Cell> {
    Seq::new(
        81,
        |i: int|
            Cell {
                coords: coords_of_index(i),
                status: if base_is_hole(i / 9, i % 9) {
                    CellStatus::DRAFT
                } else {
                    CellStatus::FIXED
                },
                candidates: Candidate::spec_empty(),
                value: if base_is_hole(i / 9, i % 9) {
                    None
                } else {
                    Some(base_digit(i / 9, i % 9))
                },
            },
    )
}


/// The number of draft cells.
pub open spec fn count_drafts(cells: Seq<Cell>) -> nat
    decreases cells.len(),
{
    if cells.len() == 0 {
        0
    } else {
        count_drafts(cells.drop_last()) + if is_draft(cells.last()) {
            1nat
        } else {
            0nat
        }
    }
}

/// Turning a draft cell into a non-draft one lowers the number of draft cells by one.
pub proof fn lemma_count_drafts_update(cells: Seq<Cell>, k: int, cell: Cell)
    requires
        0 <= k < cells.len(),
        is_draft(cells[k]),
        !is_draft(cell),
    ensures
        count_drafts(cells.update(k, cell)) + 1 == count_drafts(cells),
    decreases cells.len(),
{
    let upd = cells.update(k, cell);
    if k == cells.len() - 1 {
        assert(upd.drop_last() =~= cells.drop_last());
    } else {
        lemma_count_drafts_update(cells.drop_last(), k, cell);
        assert(upd.drop_last() =~= cells.drop_last().update(k, cell));
    }
}

/// The first draft cell in row-major order, if any.
pub open spec fn first_draft(cells: Seq<Cell>) -> Option<int> {
    if exists|k: int| 0 <= k < 81 && #[trigger] is_draft(cells[k]) {
        Some(
            choose|k: int|
                0 <= k < 81 && #[trigger] is_draft(cells[k]) && forall|j: int| 0 <= j < k ==> !is_draft(cells[j]),
        )
    } else {
        None
    }
}

/// The first draft cell is the draft cell with no draft cell before it.
pub proof fn lemma_first_draft_is(cells: Seq<Cell>, k: int)
    requires
        0 <= k < 81,
        is_draft(cells[k]),
        forall|j: int| 0 <= j < k ==> !is_draft(#[trigger] cells[j]),
    ensures
        first_draft(cells) == Some(k),
{
    assert(0 <= k < 81 && is_draft(cells[k]) && forall|j: int| 0 <= j < k ==> !is_draft(cells[j]));
    let w = choose|w: int|
        0 <= w < 81 && #[trigger] is_draft(cells[w]) && forall|j: int| 0 <= j < w ==> !is_draft(cells[j]);
    if w < k {
        assert(!is_draft(cells[w]));
    } else if w > k {
        assert(!is_draft(cells[k]));
    }
}

/// Whether no cell of row `r`, column `c`, or the grid of `(r, c)` holds the value `v`.
pub open spec fn placement_ok(cells: Seq<Cell>, r: int, c: int, v: Option<u8>) -> bool {
    forall|i: int|
        0 <= i < 9 ==> {
            &&& #[trigger] cells[idx(r, i)].value != v
            &&& cells[idx(i, c)].value != v
            &&& cells[gn_idx(r / 3 * 3 + c / 3, i)].value != v
        }
}

/// Cell `k` put back to a draft without a value when the search backtracks.
pub open spec fn reset_cell(cell: Cell) -> Cell {
    Cell { value: None, status: CellStatus::DRAFT, ..cell }
}

/// Whether two cells agree in everything but the value of a draft cell.
pub open spec fn same_but_draft_value(x: Cell, y: Cell) -> bool {
    &&& x.status == y.status
    &&& x.coords == y.coords
    &&& x.candidates == y.candidates
    &&& !is_draft(x) ==> x.value == y.value
}

/// Whether two boards agree in everything but the values of draft cells.
pub open spec fn same_but_draft_values(a: Seq<Cell>, b: Seq<Cell>) -> bool {
    &&& a.len() == b.len()
    &&& forall|i: int| 0 <= i < a.len() ==> #[trigger] same_but_draft_value(a[i], b[i])
}

/// Boards that agree but for draft values have as many draft cells.
pub proof fn lemma_same_count_drafts(a: Seq<Cell>, b: Seq<Cell>)
    requires
        same_but_draft_values(a, b),
    ensures
        count_drafts(a) == count_drafts(b),
    decreases a.len(),
{
    if a.len() > 0 {
        assert(same_but_draft_value(a[a.len() - 1], b[b.len() - 1]));
        assert forall|i: int| 0 <= i < a.drop_last().len() implies #[trigger] same_but_draft_value(
            a.drop_last()[i],
            b.drop_last()[i],
        ) by {
            assert(same_but_draft_value(a[i], b[i]));
        }
        lemma_same_count_drafts(a.drop_last(), b.drop_last());
    }
}

/// Agreeing but for draft values is transitive.
pub proof fn lemma_same_trans(a: Seq<Cell>, b: Seq<Cell>, c: Seq<Cell>)
    requires
        same_but_draft_values(a, b),
        same_but_draft_values(b, c),
    ensures
        same_but_draft_values(a, c),
{
    assert forall|i: int| 0 <= i < a.len() implies #[trigger] same_but_draft_value(a[i], c[i]) by {
        assert(same_but_draft_value(a[i], b[i]));
        assert(same_but_draft_value(b[i], c[i]));
    }
}

/// Cell `k` filled with digit `v` during the search.
pub open spec fn solved_cell(cell: Cell, v: u8) -> Cell {
    Cell { value: Some(v), status: CellStatus::SOLVE, ..cell }
}

/// The depth-first search of `self_solve_field` on the board `cells`, with the solutions
/// found so far: whether it ended early (or found the board complete), the solutions
/// afterwards, and the board at the end.
pub open spec fn search(cells: Seq<Cell>, sols: Seq<Seq<Cell>>) -> (bool, Seq<Seq<Cell>>, Seq<Cell>)
    decreases count_drafts(cells), 1nat, 0nat,
{
    match first_draft(cells) {
        None => (true, sols, cells),
        Some(k) => try_candidates(cells, k, digits_in(cells[k].candidates@), 0, sols),
    }
}

/// The search trying the candidates `cands[j..]` of the first draft cell `k`. After a
/// candidate, the cell is put back to a draft without a value, and the search goes on from
/// the board that the candidate's branch left behind.
pub open spec fn try_candidates(cells: Seq<Cell>, k: int, cands: Seq<u8>, j: int, sols: Seq<Seq<Cell>>) -> (
    bool,
    Seq<Seq<Cell>>,
    Seq<Cell>,
)
    decreases count_drafts(cells), 0nat, cands.len() - j,
{
    if j < 0 || j >= cands.len() || !(0 <= k < cells.len() && is_draft(cells[k])) {
        (false, sols, cells)
    } else if placement_ok(cells, k / 9, k % 9, Some(cands[j])) {
        let child = cells.update(k, solved_cell(cells[k], cands[j]));
        proof {
            lemma_count_drafts_update(cells, k, solved_cell(cells[k], cands[j]));
        }
        let (found, sols2, fin) = search(child, sols);
        if found && sols2.len() + 1 >= 2 {
            (true, sols2.push(fin), fin)
        } else {
            let sols3 = if found {
                sols2.push(fin)
            } else {
                sols2
            };
            let next = fin.update(k, reset_cell(fin[k]));
            if count_drafts(next) == count_drafts(cells) {
                try_candidates(next, k, cands, j + 1, sols3)
            } else {
                (false, sols3, next)
            }
        }
    } else {
        try_candidates(cells, k, cands, j + 1, sols)
    }
}

/// What the search leaves: on failure the board as it was but for the values of draft
/// cells; on success the board as it was or at least two solutions; never fewer solutions
/// than before.
pub proof fn lemma_search_shape(cells: Seq<Cell>, sols: Seq<Seq<Cell>>)
    ensures
        !search(cells, sols).0 ==> same_but_draft_values(cells, search(cells, sols).2),
        search(cells, sols).0 ==> search(cells, sols).2 == cells || search(cells, sols).1.len() >= 2,
        search(cells, sols).1.len() >= sols.len(),
    decreases count_drafts(cells), 1nat, 0nat,
{
    match first_draft(cells) {
        None => {},
        Some(k) => {
            lemma_try_candidates_shape(cells, k, digits_in(cells[k].candidates@), 0, sols);
        },
    }
}

/// The board that the search tries next after the candidate at `k` led nowhere agrees with
/// the board before it but for draft values.
pub proof fn lemma_next_board(cells: Seq<Cell>, k: int, d: u8, sols: Seq<Seq<Cell>>)
    requires
        0 <= k < cells.len(),
        is_draft(cells[k]),
        !(search(cells.update(k, solved_cell(cells[k], d)), sols).0 && search(
            cells.update(k, solved_cell(cells[k], d)),
            sols,
        ).1.len() + 1 >= 2),
    ensures
        ({
            let fin = search(cells.update(k, solved_cell(cells[k], d)), sols).2;
            let next = fin.update(k, reset_cell(fin[k]));
            &&& same_but_draft_values(cells, next)
            &&& count_drafts(next) == count_drafts(cells)
        }),
{
    let child = cells.update(k, solved_cell(cells[k], d));
    lemma_count_drafts_update(cells, k, solved_cell(cells[k], d));
    lemma_search_shape(child, sols);
    let (found, sols2, fin) = search(child, sols);
    if found {
        assert(fin == child);
    }
    assert(same_but_draft_values(child, fin)) by {
        if found {
            assert forall|i: int| 0 <= i < child.len() implies #[trigger] same_but_draft_value(child[i], fin[i]) by {}
        }
    }
    let next = fin.update(k, reset_cell(fin[k]));
    assert forall|i: int| 0 <= i < cells.len() implies #[trigger] same_but_draft_value(cells[i], next[i]) by {
        assert(same_but_draft_value(child[i], fin[i]));
    }
    lemma_same_count_drafts(cells, next);
}

pub proof fn lemma_try_candidates_shape(cells: Seq<Cell>, k: int, cands: Seq<u8>, j: int, sols: Seq<Seq<Cell>>)
    ensures
        !try_candidates(cells, k, cands, j, sols).0 ==> same_but_draft_values(cells, try_candidates(cells, k, cands, j, sols).2),
        try_candidates(cells, k, cands, j, sols).0 ==> try_candidates(cells, k, cands, j, sols).1.len() >= 2,
        try_candidates(cells, k, cands, j, sols).1.len() >= sols.len(),
    decreases count_drafts(cells), 0nat, cands.len() - j,
{
    if j < 0 || j >= cands.len() || !(0 <= k < cells.len() && is_draft(cells[k])) {
        assert forall|i: int| 0 <= i < cells.len() implies #[trigger] same_but_draft_value(cells[i], cells[i]) by {}
    } else if placement_ok(cells, k / 9, k % 9, Some(cands[j])) {
        let child = cells.update(k, solved_cell(cells[k], cands[j]));
        lemma_count_drafts_update(cells, k, solved_cell(cells[k], cands[j]));
        lemma_search_shape(child, sols);
        let (found, sols2, fin) = search(child, sols);
        if found && sols2.len() + 1 >= 2 {
        } else {
            let sols3 = if found {
                sols2.push(fin)
            } else {
                sols2
            };
            if found {
                assert(fin == child);
            }
            let next = fin.update(k, reset_cell(fin[k]));
            assert forall|i: int| 0 <= i < cells.len() implies #[trigger] same_but_draft_value(cells[i], next[i]) by {
                if !found {
                    assert(same_but_draft_value(child[i], fin[i]));
                }
            }
            lemma_same_count_drafts(cells, next);
            lemma_try_candidates_shape(next, k, cands, j + 1, sols3);
            if !try_candidates(next, k, cands, j + 1, sols3).0 {
                lemma_same_trans(cells, next, try_candidates(next, k, cands, j + 1, sols3).2);
            }
        }
    } else {
        lemma_try_candidates_shape(cells, k, cands, j + 1, sols);
    }
}

/// How a search result relates to the board it started from: every draft cell holds a
/// digit below 9 (filled in while solving) and every other cell is unchanged.
pub open spec fn completes(cells: Seq<Cell>, board: Seq<Cell>) -> bool {
    &&& board.len() == cells.len()
    &&& forall|k: int| 0 <= k < cells.len() ==> #[trigger] completes_cell(cells[k], board[k])
}

/// A draft cell filled in with a digit below 9, or an unchanged non-draft cell.
pub open spec fn completes_cell(before: Cell, after: Cell) -> bool {
    if is_draft(before) {
        &&& after.status == CellStatus::SOLVE
        &&& after.value is Some
        &&& after.value->0 < 9
        &&& after.coords == before.coords
        &&& after.candidates == before.candidates
    } else {
        after == before
    }
}

proof fn lemma_completes_step(cells: Seq<Cell>, k: int, d: u8, board: Seq<Cell>)
    requires
        0 <= k < cells.len(),
        is_draft(cells[k]),
        d < 9,
        completes(cells.update(k, solved_cell(cells[k], d)), board),
    ensures
        completes(cells, board),
{
    let child = cells.update(k, solved_cell(cells[k], d));
    assert forall|j: int| 0 <= j < cells.len() implies #[trigger] completes_cell(cells[j], board[j]) by {
        assert(completes_cell(child[j], board[j]));
    }
}

/// A board that completes one board completes any board that agrees with it but for
/// draft values.
proof fn lemma_completes_same(cells: Seq<Cell>, other: Seq<Cell>, board: Seq<Cell>)
    requires
        same_but_draft_values(cells, other),
        completes(other, board),
    ensures
        completes(cells, board),
{
    assert forall|k: int| 0 <= k < cells.len() implies #[trigger] completes_cell(cells[k], board[k]) by {
        assert(same_but_draft_value(cells[k], other[k]));
        assert(completes_cell(other[k], board[k]));
    }
}

/// The search only ever records complete boards: each solution it adds, and the board it
/// ends with when it succeeds, fills every draft cell of the starting board with a digit
/// and leaves the other cells as they were; the solutions it started with stay in front.
pub proof fn lemma_search_solutions(cells: Seq<Cell>, sols: Seq<Seq<Cell>>)
    requires
        cells.len() == 81,
    ensures
        search(cells, sols).1.len() >= sols.len(),
        search(cells, sols).1.subrange(0, sols.len() as int) == sols,
        forall|i: int| sols.len() <= i < search(cells, sols).1.len() ==> completes(cells, #[trigger] search(cells, sols).1[i]),
        search(cells, sols).0 ==> completes(cells, search(cells, sols).2),
    decreases count_drafts(cells), 1nat, 0nat,
{
    lemma_search_shape(cells, sols);
    match first_draft(cells) {
        None => {
            assert(sols.subrange(0, sols.len() as int) =~= sols);
            assert forall|k: int| 0 <= k < 81 implies #[trigger] completes_cell(cells[k], cells[k]) by {
                if is_draft(cells[k]) {
                    assert(exists|k2: int| 0 <= k2 < 81 && #[trigger] is_draft(cells[k2]));
                }
            }
        },
        Some(k) => {
            let w = choose|w: int|
                0 <= w < 81 && #[trigger] is_draft(cells[w]) && forall|j: int| 0 <= j < w ==> !is_draft(cells[j]);
            lemma_digits_in(cells[k].candidates@);
            lemma_try_candidates_solutions(cells, k, digits_in(cells[k].candidates@), 0, sols);
        },
    }
}

pub proof fn lemma_try_candidates_solutions(cells: Seq<Cell>, k: int, cands: Seq<u8>, j: int, sols: Seq<Seq<Cell>>)
    requires
        cells.len() == 81,
        forall|i: int| 0 <= i < cands.len() ==> #[trigger] cands[i] < 9,
    ensures
        try_candidates(cells, k, cands, j, sols).1.len() >= sols.len(),
        try_candidates(cells, k, cands, j, sols).1.subrange(0, sols.len() as int) == sols,
        forall|i: int|
            sols.len() <= i < try_candidates(cells, k, cands, j, sols).1.len() ==> completes(
                cells,
                #[trigger] try_candidates(cells, k, cands, j, sols).1[i],
            ),
        try_candidates(cells, k, cands, j, sols).0 ==> completes(cells, try_candidates(cells, k, cands, j, sols).2),
    decreases count_drafts(cells), 0nat, cands.len() - j,
{
    lemma_try_candidates_shape(cells, k, cands, j, sols);
    if j < 0 || j >= cands.len() || !(0 <= k < cells.len() && is_draft(cells[k])) {
        assert(sols.subrange(0, sols.len() as int) =~= sols);
    } else if placement_ok(cells, k / 9, k % 9, Some(cands[j])) {
        let d = cands[j];
        let child = cells.update(k, solved_cell(cells[k], d));
        lemma_count_drafts_update(cells, k, solved_cell(cells[k], d));
        lemma_search_solutions(child, sols);
        let (found, sols2, fin) = search(child, sols);
        if found && sols2.len() + 1 >= 2 {
            let out = sols2.push(fin);
            assert(out.subrange(0, sols.len() as int) =~= sols2.subrange(0, sols.len() as int));
            assert forall|i: int| sols.len() <= i < out.len() implies completes(cells, #[trigger] out[i]) by {
                if i < sols2.len() {
                    lemma_completes_step(cells, k, d, sols2[i]);
                } else {
                    lemma_completes_step(cells, k, d, fin);
                }
            }
            lemma_completes_step(cells, k, d, fin);
        } else {
            let sols3 = if found {
                sols2.push(fin)
            } else {
                sols2
            };
            assert(sols3.subrange(0, sols.len() as int) =~= sols2.subrange(0, sols.len() as int));
            assert forall|i: int| sols.len() <= i < sols3.len() implies completes(cells, #[trigger] sols3[i]) by {
                if i < sols2.len() {
                    lemma_completes_step(cells, k, d, sols2[i]);
                } else {
                    lemma_completes_step(cells, k, d, fin);
                }
            }
            lemma_next_board(cells, k, d, sols);
            let next = fin.update(k, reset_cell(fin[k]));
            lemma_try_candidates_solutions(next, k, cands, j + 1, sols3);
            let res = try_candidates(next, k, cands, j + 1, sols3);
            let out = res.1;
            assert(out.subrange(0, sols.len() as int) =~= out.subrange(0, sols3.len() as int).subrange(0, sols.len() as int));
            assert forall|i: int| sols.len() <= i < out.len() implies completes(cells, #[trigger] out[i]) by {
                if i < sols3.len() {
                    assert(out[i] == out.subrange(0, sols3.len() as int)[i]);
                    assert(out[i] == sols3[i]);
                } else {
                    lemma_completes_same(cells, next, out[i]);
                }
            }
            if res.0 {
                lemma_completes_same(cells, next, res.2);
            }
        }
    } else {
        lemma_try_candidates_solutions(cells, k, cands, j + 1, sols);
    }
}

/// The boards that a sequence of boards holds.
pub open spec fn boards_view(v: Seq<Sudoku>) -> Seq<Seq<Cell>> {
    v.map_values(|b: Sudoku| b@)
}


// ---------------------------------------------------------------------------
// The board as text
// ---------------------------------------------------------------------------

/// The character of the decimal digit `d`.
pub open spec fn digit_char(d: int) -> char {
    (48 + d) as char
}

/// The decimal text of `n`, for `n` below 1000.
pub open spec fn number_text(n: int) -> Seq<char> {
    (if n >= 100 {
        seq![digit_char(n / 100)]
    } else {
        Seq::empty()
    }) + (if n >= 10 {
        seq![digit_char(n / 10 % 10)]
    } else {
        Seq::empty()
    }) + seq![digit_char(n % 10)]
}

/// The character that shows candidate `v` of a draft cell: its digit, or a blank.
pub open spec fn draft_char(cell: Cell, v: int) -> char {
    if cell.candidates@.contains(v as u8) {
        digit_char(v + 1)
    } else {
        ' '
    }
}

/// Text line `m` (0 to 2) of a cell, three characters wide unless its digit is wider:
/// a draft shows candidates `3m + 1` to `3m + 3`, a given digit is framed by slashes, a
/// solved digit by stars.
pub open spec fn cell_piece(cell: Cell, m: int) -> Seq<char> {
    match cell.status {
        CellStatus::DRAFT => seq![draft_char(cell, m * 3), draft_char(cell, m * 3 + 1), draft_char(cell, m * 3 + 2)],
        CellStatus::FIXED => if m == 0 {
            seq!['\\', ' ', '/']
        } else if m == 1 {
            seq![' '] + number_text(cell.value->0 + 1) + seq![' ']
        } else {
            seq!['/', ' ', '\\']
        },
        CellStatus::SOLVE => if m == 1 {
            seq!['*'] + number_text(cell.value->0 + 1) + seq!['*']
        } else {
            seq!['*', '*', '*']
        },
    }
}

/// The separator after column `c`: a double bar at the end of a stack, else a single one.
pub open spec fn column_separator(c: int) -> char {
    if c % 3 == 2 {
        '║'
    } else {
        '│'
    }
}

/// Text line `m` of row `r`, through its first `c` cells.
pub open spec fn row_text(cells: Seq<Cell>, r: int, m: int, c: int) -> Seq<char>
    decreases c,
{
    if c <= 0 {
        seq!['║']
    } else {
        row_text(cells, r, m, c - 1) + cell_piece(cells[idx(r, c - 1)], m) + seq![column_separator(c - 1)]
    }
}

/// The border below row `r`.
pub open spec fn border_line(r: int) -> Seq<char> {
    if r == 8 {
        "╚═══╧═══╧═══╩═══╧═══╧═══╩═══╧═══╧═══╝"@
    } else if r % 3 == 2 {
        "╠═══╪═══╪═══╬═══╪═══╪═══╬═══╪═══╪═══╣"@
    } else {
        "╟───┼───┼───╫───┼───┼───╫───┼───┼───╢"@
    }
}

/// Line `k` (0 to 36) of the board's text: the top border, then for each row its three
/// text lines and the border below it.
pub open spec fn board_line(cells: Seq<Cell>, k: int) -> Seq<char> {
    if k == 0 {
        "╔═══╤═══╤═══╦═══╤═══╤═══╦═══╤═══╤═══╗"@
    } else if (k - 1) % 4 < 3 {
        row_text(cells, (k - 1) / 4, (k - 1) % 4, 9)
    } else {
        border_line((k - 1) / 4)
    }
}

/// Whether every given or solved cell holds a digit below 255.
pub open spec fn filled_have_values(cells: Seq<Cell>) -> bool {
    forall|i: int| 0 <= i < cells.len() && #[trigger] is_filled(cells[i]) ==> cells[i].value is Some && cells[i].value->0 < 255
}

/// Calls `String::push`, which appends the character to the end of the string.
#[verifier::external_body]
fn push_char(s: &mut String, c: char)
    ensures
        final(s)@ == old(s)@.push(c),
{
    s.push(c);
}

/// Appends the decimal text of `n`.
fn push_number(s: &mut String, n: u16)
    requires
        1 <= n < 1000,
    ensures
        final(s)@ == old(s)@ + number_text(n as int),
{
    let ghost start = s@;
    if n >= 100 {
        push_char(s, ((n / 100) as u8 + 48) as char);
    }
    if n >= 10 {
        push_char(s, ((n / 10 % 10) as u8 + 48) as char);
    }
    push_char(s, ((n % 10) as u8 + 48) as char);
    proof {
        assert(s@ =~= start + number_text(n as int));
    }
}

/// Appends the character that shows candidate `v` of a draft cell.
fn push_draft_char(s: &mut String, cell: &Cell, v: u8)
    requires
        v < 9,
    ensures
        final(s)@ == old(s)@.push(draft_char(*cell, v as int)),
{
    if cell.candidates.contains(v) {
        push_char(s, (v + 49) as char);
    } else {
        push_char(s, ' ');
    }
}

/// Appends text line `m` of a cell.
fn push_piece(s: &mut String, cell: &Cell, m: u8)
    requires
        m < 3,
        is_filled(*cell) ==> cell.value is Some && cell.value->0 < 255,
    ensures
        final(s)@ == old(s)@ + cell_piece(*cell, m as int),
{
    let ghost start = s@;
    match cell.status {
        CellStatus::DRAFT => {
            push_draft_char(s, cell, m * 3);
            push_draft_char(s, cell, m * 3 + 1);
            push_draft_char(s, cell, m * 3 + 2);
        },
        CellStatus::FIXED => {
            if m == 0 {
                push_char(s, '\\');
                push_char(s, ' ');
                push_char(s, '/');
            } else if m == 1 {
                push_char(s, ' ');
                push_number(s, cell.value.unwrap() as u16 + 1);
                push_char(s, ' ');
            } else {
                push_char(s, '/');
                push_char(s, ' ');
                push_char(s, '\\');
            }
        },
        CellStatus::SOLVE => {
            if m == 1 {
                push_char(s, '*');
                push_number(s, cell.value.unwrap() as u16 + 1);
                push_char(s, '*');
            } else {
                push_char(s, '*');
                push_char(s, '*');
                push_char(s, '*');
            }
        },
    }
    proof {
        assert(s@ =~= start + cell_piece(*cell, m as int));
    }
}

impl Sudoku {
    /// The board holds 81 cells, each carrying the coordinates of its position.
    pub open spec fn wf(&self) -> bool {
        &&& self@.len() == 81
        &&& forall|i: int| 0 <= i < 81 ==> #[trigger] self@[i].coords == coords_of_index(i)
    }

    pub fn get_cell_ref_by_rc(&self, rc: RCCoords) -> (ret: &Cell)
        requires
            self.wf(),
            rc_index(rc) < 81,
        ensures
            *ret == self@[rc_index(rc)],
    {
        &self.cells[rc.r * 9 + rc.c]
    }

    pub fn get_cell_mut_by_rc(&mut self, rc: RCCoords) -> (ret: &mut Cell)
        requires
            old(self).wf(),
            rc_index(rc) < 81,
        ensures
            *ret == old(self)@[rc_index(rc)],
            final(self)@ == old(self)@.update(rc_index(rc), *final(ret)),
    {
        &mut self.cells[rc.r * 9 + rc.c]
    }

    pub fn get_cell_ref_by_gn(&self, gn: GNCoords) -> (ret: &Cell)
        requires
            self.wf(),
            rc_index(spec_gn_to_rc(gn)) < 81,
        ensures
            *ret == self@[rc_index(spec_gn_to_rc(gn))],
    {
        let RCCoords { r, c } = RCCoords::from(gn);
        &self.cells[r * 9 + c]
    }

    pub fn get_cell_mut_by_gn(&mut self, gn: GNCoords) -> (ret: &mut Cell)
        requires
            old(self).wf(),
            rc_index(spec_gn_to_rc(gn)) < 81,
        ensures
            *ret == old(self)@[rc_index(spec_gn_to_rc(gn))],
            final(self)@ == old(self)@.update(rc_index(spec_gn_to_rc(gn)), *final(ret)),
    {
        let RCCoords { r, c } = RCCoords::from(gn);
        &mut self.cells[r * 9 + c]
    }

    pub fn get_cell_mut_by_coords(&mut self, coords: Coords) -> (ret: &mut Cell)
        requires
            old(self).wf(),
            idx(coords.r as int, coords.c as int) < 81,
        ensures
            *ret == old(self)@[idx(coords.r as int, coords.c as int)],
            final(self)@ == old(self)@.update(idx(coords.r as int, coords.c as int), *final(ret)),
    {
        let Coords { r, c, g: _, n: _ } = coords;
        &mut self.cells[r * 9 + c]
    }

    pub fn get_cell_ref_by_coords(&self, coords: Coords) -> (ret: &Cell)
        requires
            self.wf(),
            idx(coords.r as int, coords.c as int) < 81,
        ensures
            *ret == self@[idx(coords.r as int, coords.c as int)],
    {
        let Coords { r, c, g: _, n: _ } = coords;
        &self.cells[r * 9 + c]
    }

    /// Draft cells of the whole board, in row-major order.
    pub fn collect_all_drafts_cells(&self) -> (ret: Vec<&Cell>)
        requires
            self.wf(),
        ensures
            derefs(ret@) == range_concat(0, 81, draft_at(self@)),
    {
        let mut ret: Vec<&Cell> = Vec::new();
        let mut i: usize = 0;
        while i < 81
            invariant
                self.wf(),
                i <= 81,
                derefs(ret@) == range_concat(0, i as int, draft_at(self@)),
            decreases 81 - i,
        {
            let p = &self.cells[i];
            let ghost before = ret@;
            if p.status == CellStatus::DRAFT {
                ret.push(p);
                proof {
                    assert(derefs(ret@) =~= derefs(before) + seq![*p]);
                }
            }
            i = i + 1;
        }
        ret
    }

    /// Draft cells of row `r`, by column.
    pub fn collect_all_drafts_cells_in_r(&self, r: usize) -> (ret: Vec<&Cell>)
        requires
            self.wf(),
            r < 9,
        ensures
            derefs(ret@) == range_concat(0, 9, row_drafts(self@, r as int)),
    {
        let mut ret: Vec<&Cell> = Vec::new();
        let mut c: usize = 0;
        while c < 9
            invariant
                self.wf(),
                r < 9,
                c <= 9,
                derefs(ret@) == range_concat(0, c as int, row_drafts(self@, r as int)),
            decreases 9 - c,
        {
            let p = self.get_cell_ref_by_rc(RCCoords { r, c });
            let ghost before = ret@;
            if p.status == CellStatus::DRAFT {
                ret.push(p);
                proof {
                    assert(derefs(ret@) =~= derefs(before) + seq![*p]);
                }
            }
            c = c + 1;
        }
        ret
    }

    /// Draft cells of column `c`, by row.
    pub fn collect_all_drafts_cells_in_c(&self, c: usize) -> (ret: Vec<&Cell>)
        requires
            self.wf(),
            c < 9,
        ensures
            derefs(ret@) == range_concat(0, 9, col_drafts(self@, c as int)),
    {
        let mut ret: Vec<&Cell> = Vec::new();
        let mut r: usize = 0;
        while r < 9
            invariant
                self.wf(),
                c < 9,
                r <= 9,
                derefs(ret@) == range_concat(0, r as int, col_drafts(self@, c as int)),
            decreases 9 - r,
        {
            let p = self.get_cell_ref_by_rc(RCCoords { r, c });
            let ghost before = ret@;
            if p.status == CellStatus::DRAFT {
                ret.push(p);
                proof {
                    assert(derefs(ret@) =~= derefs(before) + seq![*p]);
                }
            }
            r = r + 1;
        }
        ret
    }

    /// Draft cells of grid `g`, by position in the grid.
    pub fn collect_all_drafts_cells_in_g(&self, g: usize) -> (ret: Vec<&Cell>)
        requires
            self.wf(),
            g < 9,
        ensures
            derefs(ret@) == range_concat(0, 9, grid_drafts(self@, g as int)),
    {
        let mut ret: Vec<&Cell> = Vec::new();
        let mut n: usize = 0;
        while n < 9
            invariant
                self.wf(),
                g < 9,
                n <= 9,
                derefs(ret@) == range_concat(0, n as int, grid_drafts(self@, g as int)),
            decreases 9 - n,
        {
            proof {
                lemma_gn_idx(g as int, n as int);
            }
            let p = self.get_cell_ref_by_gn(GNCoords { g, n });
            let ghost before = ret@;
            if p.status == CellStatus::DRAFT {
                ret.push(p);
                proof {
                    assert(derefs(ret@) =~= derefs(before) + seq![*p]);
                }
            }
            n = n + 1;
        }
        ret
    }

    /// For each row, its draft cells by column.
    pub fn drafts_cells_by_rows(&self) -> (ret: Vec<Vec<&Cell>>)
        requires
            self.wf(),
        ensures
            ret@.len() == 9,
            forall|r: int| 0 <= r < 9 ==> derefs(#[trigger] ret@[r]@) == range_concat(0, 9, row_drafts(self@, r)),
    {
        let mut ret: Vec<Vec<&Cell>> = Vec::new();
        let mut r: usize = 0;
        while r < 9
            invariant
                self.wf(),
                r <= 9,
                ret@.len() == r,
                forall|k: int| 0 <= k < r ==> derefs(#[trigger] ret@[k]@) == range_concat(0, 9, row_drafts(self@, k)),
            decreases 9 - r,
        {
            ret.push(self.collect_all_drafts_cells_in_r(r));
            r = r + 1;
        }
        ret
    }

    /// For each column, its draft cells by row.
    pub fn drafts_cells_by_cols(&self) -> (ret: Vec<Vec<&Cell>>)
        requires
            self.wf(),
        ensures
            ret@.len() == 9,
            forall|c: int| 0 <= c < 9 ==> derefs(#[trigger] ret@[c]@) == range_concat(0, 9, col_drafts(self@, c)),
    {
        let mut ret: Vec<Vec<&Cell>> = Vec::new();
        let mut c: usize = 0;
        while c < 9
            invariant
                self.wf(),
                c <= 9,
                ret@.len() == c,
                forall|k: int| 0 <= k < c ==> derefs(#[trigger] ret@[k]@) == range_concat(0, 9, col_drafts(self@, k)),
            decreases 9 - c,
        {
            ret.push(self.collect_all_drafts_cells_in_c(c));
            c = c + 1;
        }
        ret
    }

    /// For each grid, its draft cells by position in the grid.
    pub fn drafts_cells_by_grids(&self) -> (ret: Vec<Vec<&Cell>>)
        requires
            self.wf(),
        ensures
            ret@.len() == 9,
            forall|g: int| 0 <= g < 9 ==> derefs(#[trigger] ret@[g]@) == range_concat(0, 9, grid_drafts(self@, g)),
    {
        let mut ret: Vec<Vec<&Cell>> = Vec::new();
        let mut g: usize = 0;
        while g < 9
            invariant
                self.wf(),
                g <= 9,
                ret@.len() == g,
                forall|k: int| 0 <= k < g ==> derefs(#[trigger] ret@[k]@) == range_concat(0, 9, grid_drafts(self@, k)),
            decreases 9 - g,
        {
            ret.push(self.collect_all_drafts_cells_in_g(g));
            g = g + 1;
        }
        ret
    }

    /// Walks the rows; each item holds the row's draft cells by column.
    pub fn iter_all_drafts_cells_by_rc(&self) -> (ret: std::vec::IntoIter<Vec<&Cell>>)
        requires
            self.wf(),
        ensures
            vstd::std_specs::vec::into_iter_elts(ret).len() == 9,
            forall|r: int| 0 <= r < 9 ==> derefs(#[trigger] vstd::std_specs::vec::into_iter_elts(ret)[r]@) == range_concat(0, 9, row_drafts(self@, r)),
    {
        self.drafts_cells_by_rows().into_iter()
    }

    /// Walks the columns; each item holds the column's draft cells by row.
    pub fn iter_all_drafts_cells_by_cr(&self) -> (ret: std::vec::IntoIter<Vec<&Cell>>)
        requires
            self.wf(),
        ensures
            vstd::std_specs::vec::into_iter_elts(ret).len() == 9,
            forall|c: int| 0 <= c < 9 ==> derefs(#[trigger] vstd::std_specs::vec::into_iter_elts(ret)[c]@) == range_concat(0, 9, col_drafts(self@, c)),
    {
        self.drafts_cells_by_cols().into_iter()
    }

    /// Walks the grids; each item holds the grid's draft cells by position.
    pub fn iter_all_drafts_cells_by_gn(&self) -> (ret: std::vec::IntoIter<Vec<&Cell>>)
        requires
            self.wf(),
        ensures
            vstd::std_specs::vec::into_iter_elts(ret).len() == 9,
            forall|g: int| 0 <= g < 9 ==> derefs(#[trigger] vstd::std_specs::vec::into_iter_elts(ret)[g]@) == range_concat(0, 9, grid_drafts(self@, g)),
    {
        self.drafts_cells_by_grids().into_iter()
    }

    /// Walks the rows; each item holds the row's draft cells that have candidate `v`.
    pub fn iter_all_drafts_cells_by_rc_contains_v(&self, v: u8) -> (ret: std::vec::IntoIter<Vec<&Cell>>)
        requires
            self.wf(),
            v < 16,
        ensures
            vstd::std_specs::vec::into_iter_elts(ret).len() == 9,
            forall|r: int| 0 <= r < 9 ==> derefs(#[trigger] vstd::std_specs::vec::into_iter_elts(ret)[r]@) == range_concat(0, 9, row_drafts_with(self@, r, v)),
    {
        let mut rows: Vec<Vec<&Cell>> = Vec::new();
        let mut r: usize = 0;
        while r < 9
            invariant
                self.wf(),
                v < 16,
                r <= 9,
                rows@.len() == r,
                forall|k: int| 0 <= k < r ==> derefs(#[trigger] rows@[k]@) == range_concat(0, 9, row_drafts_with(self@, k, v)),
            decreases 9 - r,
        {
            let mut row: Vec<&Cell> = Vec::new();
            let mut c: usize = 0;
            while c < 9
                invariant
                    self.wf(),
                    v < 16,
                    r < 9,
                    c <= 9,
                    derefs(row@) == range_concat(0, c as int, row_drafts_with(self@, r as int, v)),
                decreases 9 - c,
            {
                let p = self.get_cell_ref_by_rc(RCCoords { r, c });
                let ghost before = row@;
                if p.status == CellStatus::DRAFT && p.candidates.contains(v) {
                    row.push(p);
                    proof {
                        assert(derefs(row@) =~= derefs(before) + seq![*p]);
                    }
                }
                c = c + 1;
            }
            rows.push(row);
            r = r + 1;
        }
        rows.into_iter()
    }

    /// Given a position and a digit, the coordinates of the draft cells holding that digit
    /// as a candidate in the position's column, row (other columns) and grid (other rows
    /// and columns).
    pub fn collect_all_drafts_coords_by_coords_and_value(&self, coords: Coords, value: u8) -> (ret: Vec<Coords>)
        requires
            self.wf(),
            coords.r < 9,
            coords.c < 9,
            coords.g < 9,
            value < 16 || no_draft_peer(self@, coords.r as int, coords.c as int, coords.g as int),
        ensures
            ret@ == range_concat(0, 9, peer_coords_with(self@, coords.r as int, coords.c as int, coords.g as int, value)),
    {
        let Coords { r, c, g, n: _ } = coords;
        let mut ret: Vec<Coords> = Vec::new();
        let mut i: usize = 0;
        while i < 9
            invariant
                self.wf(),
                r < 9,
                c < 9,
                g < 9,
                value < 16 || no_draft_peer(self@, r as int, c as int, g as int),
                i <= 9,
                ret@ == range_concat(0, i as int, peer_coords_with(self@, r as int, c as int, g as int, value)),
            decreases 9 - i,
        {
            let ghost before = ret@;
            let ghost cells = self@;
            proof {
                lemma_idx_parts(i as int, c as int);
                lemma_idx_parts(r as int, i as int);
                lemma_gn_idx(g as int, i as int);
            }
            let p_cell = self.get_cell_ref_by_rc(RCCoords { r: i, c });
            if p_cell.status == CellStatus::DRAFT && p_cell.candidates.contains(value) {
                ret.push(p_cell.coords);
            }
            let ghost piece1 = keep_if(
                is_draft(cells[idx(i as int, c as int)]) && cells[idx(i as int, c as int)].candidates@.contains(value),
                cells[idx(i as int, c as int)].coords,
            );
            assert(ret@ =~= before + piece1);
            let p_cell = self.get_cell_ref_by_rc(RCCoords { r, c: i });
            if p_cell.coords.c != c && p_cell.status == CellStatus::DRAFT && p_cell.candidates.contains(value) {
                ret.push(p_cell.coords);
            }
            let ghost piece2 = keep_if(
                cells[idx(r as int, i as int)].coords.c != c && is_draft(cells[idx(r as int, i as int)])
                    && cells[idx(r as int, i as int)].candidates@.contains(value),
                cells[idx(r as int, i as int)].coords,
            );
            assert(ret@ =~= before + piece1 + piece2);
            let p_cell = self.get_cell_ref_by_gn(GNCoords { g, n: i });
            if p_cell.coords.r != r && p_cell.coords.c != c && p_cell.status == CellStatus::DRAFT
                && p_cell.candidates.contains(value) {
                ret.push(p_cell.coords);
            }
            let ghost piece3 = keep_if(
                cells[gn_idx(g as int, i as int)].coords.r != r && cells[gn_idx(g as int, i as int)].coords.c != c
                    && is_draft(cells[gn_idx(g as int, i as int)]) && cells[gn_idx(
                    g as int,
                    i as int,
                )].candidates@.contains(value),
                cells[gn_idx(g as int, i as int)].coords,
            );
            assert(ret@ =~= before + piece1 + piece2 + piece3);
            proof {
                let f = peer_coords_with(self@, r as int, c as int, g as int, value);
                assert(f(i as int) == piece1 + piece2 + piece3);
            }
            i = i + 1;
        }
        ret
    }

    /// Pairs of filled cells that hold the same digit in a column, row or grid; `None` if
    /// there are none.
    pub fn find_conflict(&self) -> (ret: Option<Vec<(&Cell, &Cell)>>)
        requires
            self.wf(),
        ensures
            match ret {
                Some(v) => v@.len() > 0 && pair_derefs(v@) == all_conflicts(self@),
                None => all_conflicts(self@).len() == 0,
            },
    {
        let ghost cells = self@;
        let mut ret: Vec<(&Cell, &Cell)> = Vec::new();
        let mut r: usize = 0;
        while r < 9
            invariant
                self.wf(),
                cells == self@,
                r <= 9,
                pair_derefs(ret@) == range_concat(0, idx(r as int, 0), conflicts_of(cells)),
            decreases 9 - r,
        {
            let mut c: usize = 0;
            while c < 9
                invariant
                    self.wf(),
                    cells == self@,
                    r < 9,
                    c <= 9,
                    pair_derefs(ret@) == range_concat(0, idx(r as int, c as int), conflicts_of(cells)),
                decreases 9 - c,
            {
                let ghost i = idx(r as int, c as int);
                let ghost base = pair_derefs(ret@);
                proof {
                    lemma_index_decomp(i);
                }
                let rc = RCCoords { r, c };
                let p_cell = self.get_cell_ref_by_rc(rc);
                if p_cell.status == CellStatus::FIXED || p_cell.status == CellStatus::SOLVE {
                    let v = p_cell.value;
                    let g = p_cell.coords.g;
                    let n = p_cell.coords.n;
                    assert(g == coords_of_index(i).g && n == coords_of_index(i).n);
                    let mut r_iter: usize = r + 1;
                    while r_iter < 9
                        invariant
                            self.wf(),
                            cells == self@,
                            r < 9,
                            c < 9,
                            i == idx(r as int, c as int),
                            *p_cell == cells[i],
                            v == p_cell.value,
                            r + 1 <= r_iter <= 9,
                            pair_derefs(ret@) == base + range_concat(r + 1, r_iter as int, col_clashes(cells, i)),
                        decreases 9 - r_iter,
                    {
                        let ghost before = ret@;
                        let tmp = self.get_cell_ref_by_rc(RCCoords { r: r_iter, c });
                        if (tmp.value == v) && (tmp.status == CellStatus::FIXED || tmp.status == CellStatus::SOLVE) {
                            ret.push((p_cell, tmp));
                            proof {
                                assert(pair_derefs(ret@) =~= pair_derefs(before) + seq![(*p_cell, *tmp)]);
                            }
                        }
                        r_iter = r_iter + 1;
                    }
                    let ghost base2 = pair_derefs(ret@);
                    let mut c_iter: usize = c + 1;
                    while c_iter < 9
                        invariant
                            self.wf(),
                            cells == self@,
                            r < 9,
                            c < 9,
                            i == idx(r as int, c as int),
                            *p_cell == cells[i],
                            v == p_cell.value,
                            c + 1 <= c_iter <= 9,
                            pair_derefs(ret@) == base2 + range_concat(c + 1, c_iter as int, row_clashes(cells, i)),
                        decreases 9 - c_iter,
                    {
                        let ghost before = ret@;
                        let tmp = self.get_cell_ref_by_rc(RCCoords { r, c: c_iter });
                        if (tmp.value == v) && (tmp.status == CellStatus::FIXED || tmp.status == CellStatus::SOLVE) {
                            ret.push((p_cell, tmp));
                            proof {
                                assert(pair_derefs(ret@) =~= pair_derefs(before) + seq![(*p_cell, *tmp)]);
                            }
                        }
                        c_iter = c_iter + 1;
                    }
                    let ghost base3 = pair_derefs(ret@);
                    let mut n_iter: usize = n + 1;
                    while n_iter < 9
                        invariant
                            self.wf(),
                            cells == self@,
                            r < 9,
                            c < 9,
                            i == idx(r as int, c as int),
                            g == coords_of_index(i).g,
                            g < 9,
                            *p_cell == cells[i],
                            v == p_cell.value,
                            n + 1 <= n_iter <= 9,
                            pair_derefs(ret@) == base3 + range_concat(n + 1, n_iter as int, grid_clashes(cells, i)),
                        decreases 9 - n_iter,
                    {
                        let ghost before = ret@;
                        proof {
                            lemma_gn_idx(g as int, n_iter as int);
                        }
                        let tmp = self.get_cell_ref_by_gn(GNCoords { g, n: n_iter });
                        if (tmp.value == v) && (tmp.status == CellStatus::FIXED || tmp.status == CellStatus::SOLVE) {
                            ret.push((p_cell, tmp));
                            proof {
                                assert(pair_derefs(ret@) =~= pair_derefs(before) + seq![(*p_cell, *tmp)]);
                            }
                        }
                        n_iter = n_iter + 1;
                    }
                    proof {
                        assert(pair_derefs(ret@) =~= base + conflicts_of(cells)(i));
                    }
                }
                proof {
                    assert(idx(r as int, c as int + 1) == i + 1);
                }
                c = c + 1;
            }
            r = r + 1;
        }
        if !ret.is_empty() {
            Some(ret)
        } else {
            None
        }
    }

    /// Removes `value` from the candidates of the cell at index `j`.
    fn remove_candidate_at(&mut self, j: usize, value: u8)
        requires
            old(self).wf(),
            j < 81,
            value < 16,
        ensures
            final(self).wf(),
            same_but_candidates(old(self)@, final(self)@),
            forall|x: int|
                #![trigger final(self)@[x]]
                0 <= x < 81 ==> final(self)@[x].candidates@ == if x == j {
                    old(self)@[x].candidates@.remove(value)
                } else {
                    old(self)@[x].candidates@
                },
    {
        let cell = self.get_cell_mut_by_rc(RCCoords::from_idx(j));
        cell.candidates.remove(value);
    }

    /// Removes `value` from the candidates of every cell that shares a row, a column or a
    /// grid with the cell at index `k`.
    fn remove_from_peers(&mut self, k: usize, value: u8)
        requires
            old(self).wf(),
            k < 81,
            value < 16,
        ensures
            final(self).wf(),
            same_but_candidates(old(self)@, final(self)@),
            forall|j: int|
                #![trigger final(self)@[j]]
                0 <= j < 81 ==> final(self)@[j].candidates@ == if is_peer(k as int, j) {
                    old(self)@[j].candidates@.remove(value)
                } else {
                    old(self)@[j].candidates@
                },
    {
        let ghost before = self@;
        let r = k / 9;
        let c = k % 9;
        proof {
            lemma_index_decomp(k as int);
        }
        let g = self.get_cell_ref_by_rc(RCCoords { r, c }).coords.g;
        proof {
            assert forall|j: int| 0 <= j < 81 implies !touched(r as int, c as int, g as int, 0, j) by {
                lemma_touched_step(r as int, c as int, g as int, 0, j);
            }
        }
        let mut i: usize = 0;
        while i < 9
            invariant
                self.wf(),
                before.len() == 81,
                same_but_candidates(before, self@),
                r == k / 9,
                c == k % 9,
                k < 81,
                g == coords_of_index(k as int).g,
                g < 9,
                value < 16,
                i <= 9,
                forall|j: int|
                    #![trigger self@[j]]
                    0 <= j < 81 ==> self@[j].candidates@ == if touched(r as int, c as int, g as int, i as int, j) {
                        before[j].candidates@.remove(value)
                    } else {
                        before[j].candidates@
                    },
            decreases 9 - i,
        {
            let ghost step0 = self@;
            proof {
                lemma_idx_parts(i as int, c as int);
                lemma_idx_parts(r as int, i as int);
                lemma_gn_idx(g as int, i as int);
            }
            self.remove_candidate_at(i * 9 + c, value);
            let ghost step1 = self@;
            self.remove_candidate_at(r * 9 + i, value);
            let ghost step2 = self@;
            let RCCoords { r: gr, c: gc } = RCCoords::from(GNCoords { g, n: i });
            self.remove_candidate_at(gr * 9 + gc, value);
            proof {
                assert forall|j: int| #![trigger self@[j]] 0 <= j < 81 implies self@[j].candidates@ == if touched(
                    r as int,
                    c as int,
                    g as int,
                    i + 1,
                    j,
                ) {
                    before[j].candidates@.remove(value)
                } else {
                    before[j].candidates@
                } by {
                    lemma_touched_step(r as int, c as int, g as int, i as int, j);
                    assert(step0[j] == step0[j]);
                    assert(step1[j] == step1[j]);
                    assert(step2[j] == step2[j]);
                    if touched(r as int, c as int, g as int, i + 1, j) {
                        assert(self@[j].candidates@ =~= before[j].candidates@.remove(value));
                    }
                }
            }
            i = i + 1;
        }
        proof {
            assert forall|j: int| #![trigger self@[j]] 0 <= j < 81 implies self@[j].candidates@ == if is_peer(k as int, j) {
                before[j].candidates@.remove(value)
            } else {
                before[j].candidates@
            } by {
                lemma_touched_peer(k as int, j);
            }
        }
    }

    /// Gives every draft cell all nine candidates, then removes from every cell the digits
    /// given in its row, column and grid.
    fn fill_drafts(&mut self)
        requires
            old(self).wf(),
            givens_have_digits(old(self)@),
        ensures
            final(self).wf(),
            same_but_candidates(old(self)@, final(self)@),
            forall|j: int|
                #![trigger final(self)@[j]]
                0 <= j < 81 ==> final(self)@[j].candidates@ == filled_candidates(old(self)@, j),
    {
        let ghost orig = self@;
        let ghost full_set = Set::new(|v: u8| v < 9);
        let mut r: usize = 0;
        while r < 9
            invariant
                self.wf(),
                orig.len() == 81,
                same_but_candidates(orig, self@),
                r <= 9,
                full_set == Set::new(|v: u8| v < 9),
                forall|j: int|
                    #![trigger self@[j]]
                    0 <= j < 81 ==> self@[j].candidates@ == if j < idx(r as int, 0) && is_draft(orig[j]) {
                        full_set
                    } else {
                        orig[j].candidates@
                    },
            decreases 9 - r,
        {
            let mut c: usize = 0;
            while c < 9
                invariant
                    self.wf(),
                    orig.len() == 81,
                    same_but_candidates(orig, self@),
                    r < 9,
                    c <= 9,
                    full_set == Set::new(|v: u8| v < 9),
                    forall|j: int|
                        #![trigger self@[j]]
                        0 <= j < 81 ==> self@[j].candidates@ == if j < idx(r as int, c as int) && is_draft(orig[j]) {
                            full_set
                        } else {
                            orig[j].candidates@
                        },
                decreases 9 - c,
            {
                let ghost before = self@;
                let cell = self.get_cell_mut_by_rc(RCCoords { r, c });
                if cell.status == CellStatus::DRAFT {
                    cell.candidates = Candidate::full();
                    proof {
                        assert(cell.candidates@ =~= full_set);
                    }
                }
                proof {
                    assert forall|j: int| #![trigger self@[j]] 0 <= j < 81 implies self@[j].candidates@ == if j < idx(r as int, c as int + 1) && is_draft(orig[j]) {
                        full_set
                    } else {
                        orig[j].candidates@
                    } by {
                    }
                }
                c = c + 1;
            }
            r = r + 1;
        }
        let ghost base = Seq::new(81, |j: int| if is_draft(orig[j]) { full_set } else { orig[j].candidates@ });
        proof {
            assert forall|j: int| #![trigger self@[j]] 0 <= j < 81 implies self@[j].candidates@ == base[j].difference(
                peer_givens(orig, j, 0),
            ) by {
                lemma_peer_givens_none(orig, j);
                assert(base[j].difference(Set::<u8>::empty()) =~= base[j]);
            }
        }
        let mut k: usize = 0;
        while k < 81
            invariant
                self.wf(),
                orig.len() == 81,
                same_but_candidates(orig, self@),
                givens_have_digits(orig),
                k <= 81,
                base == Seq::new(81, |j: int| if is_draft(orig[j]) { full_set } else { orig[j].candidates@ }),
                full_set == Set::new(|v: u8| v < 9),
                forall|j: int|
                    #![trigger self@[j]]
                    0 <= j < 81 ==> self@[j].candidates@ == base[j].difference(peer_givens(orig, j, k as int)),
            decreases 81 - k,
        {
            let ghost before = self@;
            let Cell { status, value, .. } = *self.get_cell_ref_by_rc(RCCoords::from_idx(k));
            proof {
                assert(k / 9 * 9 + k % 9 == k);
                assert(self@[k as int] == self@[k as int]);
                assert(orig[k as int].status == CellStatus::FIXED ==> orig[k as int].value is Some);
            }
            if status == CellStatus::FIXED {
                let value = value.unwrap();
                self.remove_from_peers(k, value);
                proof {
                    assert forall|j: int| #![trigger self@[j]] 0 <= j < 81 implies self@[j].candidates@ == base[j].difference(
                        peer_givens(orig, j, k + 1),
                    ) by {
                        lemma_peer_givens_step(orig, j, k as int);
                        assert(self@[j].candidates@ =~= base[j].difference(peer_givens(orig, j, k + 1)));
                    }
                }
            } else {
                proof {
                    assert forall|j: int| #![trigger self@[j]] 0 <= j < 81 implies self@[j].candidates@ == base[j].difference(
                        peer_givens(orig, j, k + 1),
                    ) by {
                        lemma_peer_givens_step(orig, j, k as int);
                    }
                }
            }
            k = k + 1;
        }
    }

    /// Reads a board from 81 digits in row-major order; `0` marks an open cell. Open cells
    /// get as candidates the digits not given in their row, column and grid.
    pub fn initial_by_string(input: String) -> (ret: Result<Sudoku, String>)
        requires
            vstd::utf8::encode_utf8(input@).len() <= usize::MAX,
            vstd::utf8::encode_utf8(input@).len() == 81 ==> all_digits(input@),
        ensures
            match ret {
                Err(e) => vstd::utf8::encode_utf8(input@).len() != 81 && e@ == "Invalid String Length."@,
                Ok(field) => {
                    &&& vstd::utf8::encode_utf8(input@).len() == 81
                    &&& input@.len() == 81
                    &&& field.wf()
                    &&& forall|i: int|
                        #![trigger field@[i]]
                        0 <= i < 81 ==> {
                            &&& field@[i].status == parsed_cells(input@)[i].status
                            &&& field@[i].value == parsed_cells(input@)[i].value
                            &&& field@[i].candidates@ == filled_candidates(parsed_cells(input@), i)
                        }
                },
            },
    {
        let text: &str = input.as_str();
        if text.len() != 81 {
            return Err("Invalid String Length.".to_string());
        }
        proof {
            assert(vstd::utf8::is_ascii_chars(input@)) by {
                assert forall|i: int| 0 <= i < input@.len() implies '\0' <= #[trigger] input@[i] <= '\u{7f}' by {
                    assert('0' <= input@[i] <= '9');
                }
            }
            vstd::utf8::is_ascii_chars_encode_utf8(input@);
        }
        let ghost parsed = parsed_cells(input@);
        let mut cells: Vec<Cell> = Vec::new();
        let mut index: usize = 0;
        while index < 81
            invariant
                input@.len() == 81,
                text@ == input@,
                all_digits(input@),
                parsed == parsed_cells(input@),
                index <= 81,
                cells@.len() == index,
                forall|i: int| #![trigger cells@[i]] 0 <= i < index ==> cells@[i] == parsed[i],
            decreases 81 - index,
        {
            let item = text.get_char(index);
            let tmp: u32 = (item as u32) - ('0' as u32);
            let rc = RCCoords::from_idx(index);
            let coords = Coords::from(rc);
            let status = if tmp == 0 {
                CellStatus::DRAFT
            } else {
                CellStatus::FIXED
            };
            let value = if tmp == 0 {
                None
            } else {
                Some((tmp - 1) as u8)
            };
            proof {
                reveal(coords_of_index);
                assert(coords == coords_of_index(index as int));
            }
            cells.push(Cell { coords, status, candidates: Candidate::full(), value });
            index = index + 1;
        }
        let mut field = Sudoku { cells };
        proof {
            assert(field@ =~= parsed);
            reveal(coords_of_index);
        }
        field.fill_drafts();
        Ok(field)
    }

    /// The board that a new puzzle starts from: a solved pattern with one open cell in each
    /// row, column and grid, before the candidates are worked out.
    pub fn create_base() -> (ret: Sudoku)
        ensures
            ret.wf(),
            ret@ == base_cells(),
    {
        let mut cells: Vec<Cell> = Vec::new();
        let mut r: usize = 0;
        while r < 9
            invariant
                r <= 9,
                cells@.len() == r * 9,
                forall|i: int| #![trigger cells@[i]] 0 <= i < r * 9 ==> cells@[i] == base_cells()[i],
            decreases 9 - r,
        {
            let mut c: usize = 0;
            while c < 9
                invariant
                    r < 9,
                    c <= 9,
                    cells@.len() == r * 9 + c,
                    forall|i: int| #![trigger cells@[i]] 0 <= i < r * 9 + c ==> cells@[i] == base_cells()[i],
                decreases 9 - c,
            {
                let index = r * 9 + c;
                let rc = RCCoords { r, c };
                let value: u8 = ((r * 3 + r / 3 + c) % 9) as u8;
                let mut cell = Cell {
                    coords: Coords::from(rc),
                    status: CellStatus::FIXED,
                    candidates: Candidate::default(),
                    value: None,
                };
                if (r * 3) % 9 + r / 3 == c {
                    cell.candidates.add(value);
                    cell.status = CellStatus::DRAFT;
                } else {
                    cell.status = CellStatus::FIXED;
                    cell.value = Some(value);
                }
                proof {
                    reveal(coords_of_index);
                    Candidate::lemma_spec_full_empty();
                    assert(cell.candidates@ =~= Candidate::spec_empty()@);
                    Candidate::lemma_view_injective(cell.candidates, Candidate::spec_empty());
                    assert(index / 9 == r && index % 9 == c);
                    assert(cell == base_cells()[index as int]);
                }
                cells.push(cell);
                c = c + 1;
            }
            r = r + 1;
        }
        let ret = Sudoku { cells };
        proof {
            assert(ret@ =~= base_cells());
            reveal(coords_of_index);
        }
        ret
    }

    /// A new board: the base pattern with its open cells' candidates worked out.
    pub fn new(difficulty: Difficulty) -> (ret: Sudoku)
        ensures
            ret.wf(),
            same_but_candidates(base_cells(), ret@),
            forall|j: int| #![trigger ret@[j]] 0 <= j < 81 ==> ret@[j].candidates@ == filled_candidates(base_cells(), j),
    {
        let mut sudoku = Self::create_base();
        proof {
            assert(givens_have_digits(sudoku@));
        }
        sudoku.fill_drafts();
        sudoku
    }

    /// A copy of the board.
    fn duplicate(&self) -> (ret: Sudoku)
        ensures
            ret@ == self@,
    {
        let mut cells: Vec<Cell> = Vec::new();
        let mut i: usize = 0;
        while i < self.cells.len()
            invariant
                i <= self.cells@.len(),
                cells@ == self.cells@.subrange(0, i as int),
            decreases self.cells@.len() - i,
        {
            cells.push(self.cells[i]);
            proof {
                assert(cells@ =~= self.cells@.subrange(0, i + 1));
            }
            i = i + 1;
        }
        proof {
            assert(cells@ =~= self.cells@);
        }
        Sudoku { cells }
    }

    /// Whether the value `v` appears nowhere in row `r`, column `c` and the grid of `(r, c)`.
    fn is_valid(r: usize, c: usize, v: Option<u8>, field: &Sudoku) -> (ret: bool)
        requires
            field.wf(),
            r < 9,
            c < 9,
        ensures
            ret == placement_ok(field@, r as int, c as int, v),
    {
        let GNCoords { g, n: _ } = GNCoords::from(RCCoords { r, c });
        let mut i: usize = 0;
        while i < 9
            invariant
                field.wf(),
                r < 9,
                c < 9,
                g == r / 3 * 3 + c / 3,
                i <= 9,
                forall|t: int|
                    0 <= t < i ==> {
                        &&& #[trigger] field@[idx(r as int, t)].value != v
                        &&& field@[idx(t, c as int)].value != v
                        &&& field@[gn_idx(g as int, t)].value != v
                    },
            decreases 9 - i,
        {
            proof {
                lemma_gn_idx(g as int, i as int);
            }
            if field.get_cell_ref_by_rc(RCCoords { r, c: i }).value == v {
                return false;
            }
            if field.get_cell_ref_by_rc(RCCoords { r: i, c }).value == v {
                proof {
                    assert(field@[idx(r as int, i as int)].value == field@[idx(r as int, i as int)].value);
                }
                return false;
            }
            if field.get_cell_ref_by_gn(GNCoords { g, n: i }).value == v {
                proof {
                    assert(field@[idx(r as int, i as int)].value == field@[idx(r as int, i as int)].value);
                }
                return false;
            }
            i = i + 1;
        }
        true
    }

    /// Sets the value and status of the cell at index `k`.
    fn set_value_status(&mut self, k: usize, value: Option<u8>, status: CellStatus)
        requires
            old(self).wf(),
            k < 81,
        ensures
            final(self).wf(),
            final(self)@ == old(self)@.update(k as int, Cell { value, status, ..old(self)@[k as int] }),
    {
        let cell = self.get_cell_mut_by_rc(RCCoords::from_idx(k));
        cell.value = value;
        cell.status = status;
    }

    /// Depth-first search over the candidates of the first draft cell, collecting complete
    /// boards into `solutions` and stopping once there are two.
    fn self_solve_field(field: &mut Sudoku, solutions: &mut Vec<Sudoku>) -> (ret: bool)
        requires
            old(field).wf(),
        ensures
            final(field).wf(),
            (ret, boards_view(final(solutions)@), final(field)@) == search(old(field)@, boards_view(old(solutions)@)),
        decreases count_drafts(old(field)@),
    {
        let ghost cells = field@;
        let ghost sols0 = boards_view(solutions@);
        let mut r: usize = 0;
        while r < 9
            invariant
                field.wf(),
                field@ == cells,
                cells == old(field)@,
                sols0 == boards_view(old(solutions)@),
                boards_view(solutions@) == sols0,
                r <= 9,
                forall|j: int| 0 <= j < idx(r as int, 0) ==> !is_draft(#[trigger] cells[j]),
            decreases 9 - r,
        {
            let mut c: usize = 0;
            while c < 9
                invariant
                    field.wf(),
                    field@ == cells,
                    cells == old(field)@,
                    sols0 == boards_view(old(solutions)@),
                    boards_view(solutions@) == sols0,
                    r < 9,
                    c <= 9,
                    forall|j: int| 0 <= j < idx(r as int, c as int) ==> !is_draft(#[trigger] cells[j]),
                decreases 9 - c,
            {
                let k = r * 9 + c;
                if field.get_cell_ref_by_rc(RCCoords { r, c }).status == CellStatus::DRAFT {
                    let nums = field.get_cell_ref_by_rc(RCCoords { r, c }).candidates.to_vec();
                    proof {
                        lemma_first_draft_is(cells, k as int);
                    }
                    let ghost mut cur = cells;
                    let mut j: usize = 0;
                    while j < nums.len()
                        invariant
                            field.wf(),
                            field@ == cur,
                            cells == old(field)@,
                            sols0 == boards_view(old(solutions)@),
                            k < 81,
                            k == idx(r as int, c as int),
                            r < 9,
                            c < 9,
                            cur.len() == 81,
                            is_draft(cur[k as int]),
                            count_drafts(cur) == count_drafts(cells),
                            nums@ == digits_in(cells[k as int].candidates@),
                            j <= nums@.len(),
                            search(cells, sols0) == try_candidates(cur, k as int, nums@, j as int, boards_view(solutions@)),
                        decreases nums@.len() - j,
                    {
                        let num = nums[j];
                        let ghost sols_before = boards_view(solutions@);
                        if Self::is_valid(r, c, Some(num), field) {
                            proof {
                                assert(k / 9 == r && k % 9 == c);
                            }
                            field.set_value_status(k, Some(num), CellStatus::SOLVE);
                            let ghost child = field@;
                            proof {
                                assert(child == cur.update(k as int, solved_cell(cur[k as int], num)));
                                lemma_count_drafts_update(cur, k as int, solved_cell(cur[k as int], num));
                                lemma_search_shape(child, sols_before);
                            }
                            let found = Self::self_solve_field(field, solutions);
                            if found {
                                let snapshot = field.duplicate();
                                solutions.push(snapshot);
                                proof {
                                    assert(boards_view(solutions@) =~= search(child, sols_before).1.push(search(child, sols_before).2));
                                }
                                if solutions.len() >= 2 {
                                    return true;
                                }
                            }
                            proof {
                                lemma_next_board(cur, k as int, num, sols_before);
                            }
                            field.set_value_status(k, None, CellStatus::DRAFT);
                            proof {
                                let fin = search(child, sols_before).2;
                                assert(field@ =~= fin.update(k as int, reset_cell(fin[k as int])));
                                cur = field@;
                            }
                        }
                        j = j + 1;
                    }
                    return false;
                }
                c = c + 1;
            }
            r = r + 1;
        }
        proof {
            assert(first_draft(cells) == None::<int>);
        }
        true
    }

    /// Up to two complete boards that the search from this board reaches (with repeats of
    /// the last one when it stops at the second; see `search`).
    pub fn sovle(&self) -> (ret: Vec<Sudoku>)
        requires
            self.wf(),
        ensures
            boards_view(ret@) == search(self@, Seq::empty()).1,
    {
        let mut field = self.duplicate();
        let mut solutions: Vec<Sudoku> = Vec::new();
        proof {
            assert(boards_view(solutions@) =~= Seq::<Seq<Cell>>::empty());
        }
        Self::self_solve_field(&mut field, &mut solutions);
        solutions
    }

    /// Text line `m` of row `r`: each cell's piece, with bars between them.
    fn row_line(&self, r: usize, m: u8) -> (ret: String)
        requires
            self.wf(),
            filled_have_values(self@),
            r < 9,
            m < 3,
        ensures
            ret@ == row_text(self@, r as int, m as int, 9),
    {
        let mut line = String::new();
        push_char(&mut line, '║');
        let mut c: usize = 0;
        while c < 9
            invariant
                self.wf(),
                filled_have_values(self@),
                r < 9,
                m < 3,
                c <= 9,
                line@ == row_text(self@, r as int, m as int, c as int),
            decreases 9 - c,
        {
            let p = self.get_cell_ref_by_rc(RCCoords { r, c });
            proof {
                assert(is_filled(self@[idx(r as int, c as int)]) ==> self@[idx(r as int, c as int)].value is Some);
            }
            push_piece(&mut line, p, m);
            if c % 3 == 2 {
                push_char(&mut line, '║');
            } else {
                push_char(&mut line, '│');
            }
            c = c + 1;
        }
        line
    }

    /// The board as 37 lines of text: borders, and three lines for each row of cells, in
    /// which a draft shows its candidates, a given digit is framed by slashes and a solved
    /// digit by stars.
    pub fn board_lines(&self) -> (ret: Vec<String>)
        requires
            self.wf(),
            filled_have_values(self@),
        ensures
            ret@.len() == 37,
            forall|k: int| 0 <= k < 37 ==> (#[trigger] ret@[k])@ == board_line(self@, k),
    {
        let mut lines: Vec<String> = Vec::new();
        lines.push("╔═══╤═══╤═══╦═══╤═══╤═══╦═══╤═══╤═══╗".to_owned());
        let mut r: usize = 0;
        while r < 9
            invariant
                self.wf(),
                filled_have_values(self@),
                r <= 9,
                lines@.len() == 1 + 4 * r,
                forall|k: int| 0 <= k < lines@.len() ==> (#[trigger] lines@[k])@ == board_line(self@, k),
            decreases 9 - r,
        {
            let mut m: u8 = 0;
            while m < 3
                invariant
                    self.wf(),
                    filled_have_values(self@),
                    r < 9,
                    m <= 3,
                    lines@.len() == 1 + 4 * r + m,
                    forall|k: int| 0 <= k < lines@.len() ==> (#[trigger] lines@[k])@ == board_line(self@, k),
                decreases 3 - m,
            {
                let line = self.row_line(r, m);
                proof {
                    let k = 1 + 4 * r + m;
                    assert((k - 1) / 4 == r && (k - 1) % 4 == m);
                }
                lines.push(line);
                m = m + 1;
            }
            let border = if r == 8 {
                "╚═══╧═══╧═══╩═══╧═══╧═══╩═══╧═══╧═══╝".to_owned()
            } else if r % 3 == 2 {
                "╠═══╪═══╪═══╬═══╪═══╪═══╬═══╪═══╪═══╣".to_owned()
            } else {
                "╟───┼───┼───╫───┼───┼───╫───┼───┼───╢".to_owned()
            };
            proof {
                let k = 4 + 4 * r;
                assert((k - 1) / 4 == r && (k - 1) % 4 == 3);
            }
            lines.push(border);
            r = r + 1;
        }
        lines
    }


    /// Whether no draft cell is left.
    pub fn check_if_finish(&self) -> (ret: bool)
        requires
            self.wf(),
        ensures
            ret <==> forall|i: int| 0 <= i < 81 ==> !is_draft(#[trigger] self@[i]),
    {
        let drafts = self.collect_all_drafts_cells();
        proof {
            lemma_range_concat_empty(0, 81, draft_at(self@));
            assert(derefs(drafts@).len() == drafts@.len());
            if drafts@.len() == 0 {
                assert forall|i: int| 0 <= i < 81 implies !is_draft(#[trigger] self@[i]) by {
                    assert(draft_at(self@)(i).len() == 0);
                }
            } else {
                assert(!forall|i: int| 0 <= i < 81 ==> #[trigger] draft_at(self@)(i).len() == 0);
            }
        }
        drafts.is_empty()
    }
}

/// How many cells a new puzzle leaves open.
pub enum Difficulty {
    EASY,
    NORMAL,
    MIDIUM,
    HARD,
    EXPERT,
}

impl Difficulty {
    /// The least and the greatest number of open cells for the difficulty.
    pub fn empty_cells(&self) -> (ret: (usize, usize))
        ensures
            ret == match self {
                Difficulty::EASY => (35usize, 40usize),
                Difficulty::NORMAL => (40usize, 45usize),
                Difficulty::MIDIUM => (45usize, 50usize),
                Difficulty::HARD => (50usize, 55usize),
                Difficulty::EXPERT => (55usize, 64usize),
            },
    {
        match self {
            Self::EASY => (35, 40),
            Self::NORMAL => (40, 45),
            Self::MIDIUM => (45, 50),
            Self::HARD => (50, 55),
            Self::EXPERT => (55, 64),
        }
    }
}

} // verus!
