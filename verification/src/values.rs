use vstd::prelude::*;

verus! {

/// The nine symbolic values a cell of the grid can hold.
#[derive(Clone, Copy, Debug, PartialEq, Eq, Structural)]
pub enum CellValue {
    One,
    Two,
    Three,
    Four,
    Five,
    Six,
    Seven,
    Eight,
    Nine,
}

impl CellValue {
    /// The value as a mathematical integer, 1 through 9.
    pub open spec fn as_int(self) -> int {
        match self {
            CellValue::One => 1,
            CellValue::Two => 2,
            CellValue::Three => 3,
            CellValue::Four => 4,
            CellValue::Five => 5,
            CellValue::Six => 6,
            CellValue::Seven => 7,
            CellValue::Eight => 8,
            CellValue::Nine => 9,
        }
    }

    /// Zero-based position of the value, 0 through 8.
    pub fn bit(self) -> (i: u16)
        ensures
            i < 9,
            i + 1 == self.as_int(),
    {
        match self {
            CellValue::One => 0,
            CellValue::Two => 1,
            CellValue::Three => 2,
            CellValue::Four => 3,
            CellValue::Five => 4,
            CellValue::Six => 5,
            CellValue::Seven => 6,
            CellValue::Eight => 7,
            CellValue::Nine => 8,
        }
    }

    /// The value whose zero-based position is `i`.
    pub fn from_index(i: usize) -> (v: CellValue)
        requires
            i < 9,
        ensures
            v.as_int() == i + 1,
    {
        if i == 0 {
            CellValue::One
        } else if i == 1 {
            CellValue::Two
        } else if i == 2 {
            CellValue::Three
        } else if i == 3 {
            CellValue::Four
        } else if i == 4 {
            CellValue::Five
        } else if i == 5 {
            CellValue::Six
        } else if i == 6 {
            CellValue::Seven
        } else if i == 7 {
            CellValue::Eight
        } else {
            CellValue::Nine
        }
    }
}

/// Whether bit `v - 1` of `m` is set, for a value `v` in 1..=9.
pub open spec fn vhas(m: u16, v: int) -> bool {
    1 <= v <= 9 && ((m >> ((v - 1) as u16)) & 1u16) == 1u16
}

/// The full domain: the set of integers 1 through 9.
pub open spec fn all_vals() -> Set<int> {
    Set::new(|v: int| 1 <= v <= 9)
}

/// How many of the values 1..=hi the set contains.
pub open spec fn count_vals(s: Set<int>, hi: int) -> nat
    decreases hi,
{
    if hi <= 0 {
        0
    } else {
        count_vals(s, hi - 1) + (if s.contains(hi) {
            1nat
        } else {
            0nat
        })
    }
}

/// The number of domain values (1..=9) the set contains.
pub open spec fn card(s: Set<int>) -> nat {
    count_vals(s, 9)
}

/// A set of candidate values, kept as a bitmask over the 9-value domain.
#[derive(Clone, Copy)]
pub struct ValueSet {
    mask: u16,
}

impl View for ValueSet {
    type V = Set<int>;

    closed spec fn view(&self) -> Set<int> {
        Set::new(|v: int| vhas(self.mask, v))
    }
}

impl ValueSet {
    #[verifier::type_invariant]
    closed spec fn wf(self) -> bool {
        self.mask < 512
    }

    /// The set with no candidates.
    pub fn empty() -> (r: ValueSet)
        ensures
            r@ == Set::<int>::empty(),
    {
        let r = ValueSet { mask: 0 };
        proof {
            assert(forall|j: u16| j < 9 ==> ((0u16 >> j) & 1u16) != 1u16) by (bit_vector);
            assert(r@ =~= Set::<int>::empty());
        }
        r
    }

    /// The set holding all nine values.
    pub fn full() -> (r: ValueSet)
        ensures
            r@ == all_vals(),
    {
        let r = ValueSet { mask: 0x1ff };
        proof {
            assert(forall|j: u16| j < 9 ==> ((0x1ffu16 >> j) & 1u16) == 1u16) by (bit_vector);
            assert(r@ =~= all_vals());
        }
        r
    }

    /// The singleton set holding exactly `v`.
    pub fn only(v: CellValue) -> (r: ValueSet)
        ensures
            r@ == set![v.as_int()],
    {
        let i = v.bit();
        let m = 1u16 << i;
        proof {
            assert(m < 512 && forall|j: u16|
                j < 9 ==> ((((1u16 << i) >> j) & 1u16) == 1u16 <==> i == j)) by (bit_vector)
                requires
                    i < 9,
                    m == 1u16 << i,
            ;
            assert(ValueSet { mask: m }@ =~= set![v.as_int()]);
        }
        ValueSet { mask: m }
    }

    /// Whether the set contains `v`.
    pub fn contains(&self, v: CellValue) -> (r: bool)
        ensures
            r == self@.contains(v.as_int()),
    {
        let i = v.bit();
        ((self.mask >> i) & 1) == 1
    }

    /// The union of the two sets.
    pub fn union(self, other: ValueSet) -> (r: ValueSet)
        ensures
            r@ == self@.union(other@),
    {
        proof {
            use_type_invariant(&self);
            use_type_invariant(&other);
        }
        let a = self.mask;
        let b = other.mask;
        let m = a | b;
        proof {
            assert(m < 512 && forall|j: u16|
                j < 9 ==> ((((a | b) >> j) & 1u16) == 1u16 <==> (((a >> j) & 1u16) == 1u16 || ((b
                    >> j) & 1u16) == 1u16))) by (bit_vector)
                requires
                    a < 512,
                    b < 512,
                    m == (a | b),
            ;
            assert(ValueSet { mask: m }@ =~= self@.union(other@));
        }
        ValueSet { mask: m }
    }

    /// The intersection of the two sets.
    pub fn intersect(self, other: ValueSet) -> (r: ValueSet)
        ensures
            r@ == self@.intersect(other@),
    {
        proof {
            use_type_invariant(&self);
        }
        let a = self.mask;
        let b = other.mask;
        let m = a & b;
        proof {
            assert(m < 512 && forall|j: u16|
                j < 9 ==> ((((a & b) >> j) & 1u16) == 1u16 <==> (((a >> j) & 1u16) == 1u16 && ((b
                    >> j) & 1u16) == 1u16))) by (bit_vector)
                requires
                    a < 512,
                    m == (a & b),
            ;
            assert(ValueSet { mask: m }@ =~= self@.intersect(other@));
        }
        ValueSet { mask: m }
    }

    /// The elements of `self` that are not in `other`.
    pub fn difference(self, other: ValueSet) -> (r: ValueSet)
        ensures
            r@ == self@.difference(other@),
    {
        proof {
            use_type_invariant(&self);
        }
        let a = self.mask;
        let b = other.mask;
        let m = a & !b;
        proof {
            assert(m < 512 && forall|j: u16|
                j < 9 ==> ((((a & !b) >> j) & 1u16) == 1u16 <==> (((a >> j) & 1u16) == 1u16 && ((b
                    >> j) & 1u16) != 1u16))) by (bit_vector)
                requires
                    a < 512,
                    m == (a & !b),
            ;
            assert(ValueSet { mask: m }@ =~= self@.difference(other@));
        }
        ValueSet { mask: m }
    }

    /// The set without `v`.
    pub fn remove(self, v: CellValue) -> (r: ValueSet)
        ensures
            r@ == self@.remove(v.as_int()),
    {
        let r = self.difference(ValueSet::only(v));
        proof {
            assert(r@ =~= self@.remove(v.as_int()));
        }
        r
    }

    /// Whether the set has no element.
    pub fn is_empty(&self) -> (r: bool)
        ensures
            r == (self@ == Set::<int>::empty()),
    {
        proof {
            use_type_invariant(self);
        }
        let m = self.mask;
        if m == 0 {
            proof {
                assert(forall|j: u16| j < 9 ==> ((0u16 >> j) & 1u16) != 1u16) by (bit_vector);
                assert(self@ =~= Set::<int>::empty());
            }
            true
        } else {
            proof {
                assert((((m >> 0) & 1u16) == 1u16) || (((m >> 1) & 1u16) == 1u16) || (((m >> 2)
                    & 1u16) == 1u16) || (((m >> 3) & 1u16) == 1u16) || (((m >> 4) & 1u16) == 1u16)
                    || (((m >> 5) & 1u16) == 1u16) || (((m >> 6) & 1u16) == 1u16) || (((m >> 7)
                    & 1u16) == 1u16) || (((m >> 8) & 1u16) == 1u16)) by (bit_vector)
                    requires
                        m < 512,
                        m != 0,
                ;
                assert(vhas(m, 1) || vhas(m, 2) || vhas(m, 3) || vhas(m, 4) || vhas(m, 5) || vhas(
                    m, 6) || vhas(m, 7) || vhas(m, 8) || vhas(m, 9));
                assert(self@ != Set::<int>::empty()) by {
                    let v = choose|v: int| vhas(m, v);
                    assert(self@.contains(v));
                    assert(!Set::<int>::empty().contains(v));
                }
            }
            false
        }
    }

    /// Whether the two sets share no element.
    pub fn is_disjoint(&self, other: ValueSet) -> (r: bool)
        ensures
            r == self@.disjoint(other@),
    {
        let r = self.intersect(other).is_empty();
        proof {
            if self@.intersect(other@) == Set::<int>::empty() {
                assert(self@.disjoint(other@)) by {
                    assert(forall|v: int| self@.contains(v) && other@.contains(v)
                        ==> self@.intersect(other@).contains(v));
                }
            } else {
                assert(!self@.disjoint(other@)) by {
                    if self@.disjoint(other@) {
                        assert(self@.intersect(other@) =~= Set::<int>::empty());
                    }
                }
            }
        }
        r
    }

    /// Whether the two sets hold exactly the same values.
    pub fn same_as(&self, other: &ValueSet) -> (r: bool)
        ensures
            r == (self@ == other@),
    {
        proof {
            use_type_invariant(self);
            use_type_invariant(other);
        }
        let a = self.mask;
        let b = other.mask;
        if a == b {
            proof {
                assert(self@ =~= other@);
            }
            true
        } else {
            proof {
                if self@ == other@ {
                    assert(forall|v: int| 1 <= v <= 9 ==> (vhas(a, v) <==> vhas(b, v))) by {
                        assert(forall|v: int| #[trigger] self@.contains(v) == other@.contains(v));
                        assert(forall|v: int| self@.contains(v) == vhas(a, v));
                        assert(forall|v: int| other@.contains(v) == vhas(b, v));
                    }
                    assert(vhas(a, 1) == vhas(b, 1) && vhas(a, 2) == vhas(b, 2) && vhas(a, 3)
                        == vhas(b, 3) && vhas(a, 4) == vhas(b, 4) && vhas(a, 5) == vhas(b, 5)
                        && vhas(a, 6) == vhas(b, 6) && vhas(a, 7) == vhas(b, 7) && vhas(a, 8)
                        == vhas(b, 8) && vhas(a, 9) == vhas(b, 9));
                    assert(a == b) by (bit_vector)
                        requires
                            a < 512,
                            b < 512,
                            (((a >> 0) & 1u16) == 1u16) == (((b >> 0) & 1u16) == 1u16),
                            (((a >> 1) & 1u16) == 1u16) == (((b >> 1) & 1u16) == 1u16),
                            (((a >> 2) & 1u16) == 1u16) == (((b >> 2) & 1u16) == 1u16),
                            (((a >> 3) & 1u16) == 1u16) == (((b >> 3) & 1u16) == 1u16),
                            (((a >> 4) & 1u16) == 1u16) == (((b >> 4) & 1u16) == 1u16),
                            (((a >> 5) & 1u16) == 1u16) == (((b >> 5) & 1u16) == 1u16),
                            (((a >> 6) & 1u16) == 1u16) == (((b >> 6) & 1u16) == 1u16),
                            (((a >> 7) & 1u16) == 1u16) == (((b >> 7) & 1u16) == 1u16),
                            (((a >> 8) & 1u16) == 1u16) == (((b >> 8) & 1u16) == 1u16),
                    ;
                }
            }
            false
        }
    }

    /// The number of values the set contains.
    pub fn len(&self) -> (n: usize)
        ensures
            n == card(self@),
    {
        let mut n: usize = 0;
        let mut i: usize = 0;
        while i < 9
            invariant
                i <= 9,
                n <= i,
                n == count_vals(self@, i as int),
            decreases 9 - i,
        {
            if self.contains(CellValue::from_index(i)) {
                n = n + 1;
            }
            i = i + 1;
        }
        n
    }
}

/// Every candidate set is a subset of the nine-value domain.
pub proof fn lemma_vs_bounded(s: ValueSet)
    ensures
        s@.subset_of(all_vals()),
{
}

proof fn lemma_count_empty(hi: int)
    ensures
        count_vals(Set::<int>::empty(), hi) == 0,
    decreases hi,
{
    if hi > 0 {
        lemma_count_empty(hi - 1);
    }
}

proof fn lemma_count_mono(s1: Set<int>, s2: Set<int>, hi: int)
    requires
        s1.subset_of(s2),
    ensures
        count_vals(s1, hi) <= count_vals(s2, hi),
    decreases hi,
{
    if hi > 0 {
        lemma_count_mono(s1, s2, hi - 1);
    }
}

/// The empty set holds no value.
pub proof fn lemma_card_empty()
    ensures
        card(Set::<int>::empty()) == 0,
{
    lemma_count_empty(9);
}

/// A subset never holds more values.
pub proof fn lemma_card_mono(s1: Set<int>, s2: Set<int>)
    requires
        s1.subset_of(s2),
    ensures
        card(s1) <= card(s2),
{
    lemma_count_mono(s1, s2, 9);
}

proof fn lemma_count_witness(s: Set<int>, v: int, hi: int)
    requires
        s.contains(v),
        1 <= v <= hi,
    ensures
        count_vals(s, hi) >= 1,
    decreases hi,
{
    if v < hi {
        lemma_count_witness(s, v, hi - 1);
    }
}

proof fn lemma_count_remove(s: Set<int>, v: int, hi: int)
    requires
        1 <= v,
    ensures
        count_vals(s.remove(v), hi) == count_vals(s, hi) - (if s.contains(v) && v <= hi {
            1int
        } else {
            0int
        }),
    decreases hi,
{
    if hi > 0 {
        lemma_count_remove(s, v, hi - 1);
    }
}

/// A set with two distinct values holds at least two.
pub proof fn lemma_card_two(s: Set<int>, v: int, w: int)
    requires
        s.contains(v),
        s.contains(w),
        v != w,
        1 <= v <= 9,
        1 <= w <= 9,
    ensures
        card(s) >= 2,
{
    lemma_count_remove(s, v, 9);
    lemma_count_witness(s.remove(v), w, 9);
}

/// Only the empty subset of the domain holds no value.
pub proof fn lemma_card_zero(s: Set<int>)
    requires
        s.subset_of(all_vals()),
        card(s) == 0,
    ensures
        s == Set::<int>::empty(),
{
    assert forall|v: int| !s.contains(v) by {
        if s.contains(v) {
            lemma_count_witness(s, v, 9);
        }
    }
    assert(s =~= Set::<int>::empty());
}

/// A singleton over the domain holds exactly one value.
pub proof fn lemma_card_singleton(v: int)
    requires
        1 <= v <= 9,
    ensures
        card(set![v]) == 1,
{
    lemma_count_remove(set![v], v, 9);
    assert(set![v].remove(v) =~= Set::<int>::empty());
    lemma_count_empty(9);
}

/// A subset of the domain holding exactly one value is a singleton.
pub proof fn lemma_card_one(s: Set<int>)
    requires
        s.subset_of(all_vals()),
        card(s) == 1,
    ensures
        exists|v: int| 1 <= v <= 9 && s == set![v],
{
    lemma_count_empty(9);
    assert(s != Set::<int>::empty());
    assert(exists|v: int| s.contains(v)) by {
        if forall|v: int| !s.contains(v) {
            assert(s =~= Set::<int>::empty());
        }
    }
    let v = choose|v: int| s.contains(v);
    lemma_count_remove(s, v, 9);
    lemma_card_zero(s.remove(v));
    assert(s =~= set![v]);
}

/// Inserting a fresh domain value raises the count by one.
pub proof fn lemma_card_insert(s: Set<int>, v: int)
    requires
        !s.contains(v),
        1 <= v <= 9,
    ensures
        card(s.insert(v)) == card(s) + 1,
{
    lemma_count_remove(s.insert(v), v, 9);
    assert(s.insert(v).remove(v) =~= s);
    lemma_count_witness(s.insert(v), v, 9);
}

/// A proper subset of a domain subset holds strictly fewer values.
pub proof fn lemma_card_strict(s1: Set<int>, s2: Set<int>)
    requires
        s1.subset_of(s2),
        s2.subset_of(all_vals()),
        s1 != s2,
    ensures
        card(s1) < card(s2),
{
    assert(exists|v: int| s2.contains(v) && !s1.contains(v)) by {
        if forall|v: int| s2.contains(v) ==> s1.contains(v) {
            assert(s1 =~= s2);
        }
    }
    let v = choose|v: int| s2.contains(v) && !s1.contains(v);
    lemma_count_mono(s1, s2.remove(v), 9);
    lemma_count_remove(s2, v, 9);
}

/// The full domain holds nine values.
pub proof fn lemma_card_all()
    ensures
        card(all_vals()) == 9,
{
    assert(count_vals(all_vals(), 0) == 0);
    assert(count_vals(all_vals(), 1) == 1);
    assert(count_vals(all_vals(), 2) == 2);
    assert(count_vals(all_vals(), 3) == 3);
    assert(count_vals(all_vals(), 4) == 4);
    assert(count_vals(all_vals(), 5) == 5);
    assert(count_vals(all_vals(), 6) == 6);
    assert(count_vals(all_vals(), 7) == 7);
    assert(count_vals(all_vals(), 8) == 8);
    assert(count_vals(all_vals(), 9) == 9);
}

} // verus!
