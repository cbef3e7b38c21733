//! A fixed-width set of digits, one bit per digit.
//!
//! Digit `d` (counted from 1) is stored in bit `d - 1` of a 16-bit word, so a
//! set can hold the digits 1 to 16. The const parameter `SIZE` is the number
//! of digits the grid uses; counting and enumeration look at the digits
//! 1 to `SIZE` only, while union, intersection and complement act on the
//! whole word.

use vstd::prelude::*;
use vstd::std_specs::ops::BitAndSpecImpl;
use vstd::std_specs::ops::BitOrSpecImpl;
use vstd::std_specs::ops::NotSpecImpl;

verus! {

/// A set of digits from 1 to 16, of which 1 to `SIZE` are in use.
#[derive(Clone, Copy, Eq, PartialEq, Hash, Debug)]
pub struct NumberOptions<const SIZE: usize> {
    data: u16,
}

/// Whether bit `k` of `x` is set.
pub open spec fn bit_of(x: u16, k: u16) -> bool {
    (x >> k) & 1 == 1
}

proof fn lemma_bit_or(a: u16, b: u16, k: u16)
    by (bit_vector)
    requires
        k < 16,
    ensures
        bit_of(a | b, k) == (bit_of(a, k) || bit_of(b, k)),
{
}

proof fn lemma_bit_and(a: u16, b: u16, k: u16)
    by (bit_vector)
    requires
        k < 16,
    ensures
        bit_of(a & b, k) == (bit_of(a, k) && bit_of(b, k)),
{
}

proof fn lemma_bit_not(a: u16, k: u16)
    by (bit_vector)
    requires
        k < 16,
    ensures
        bit_of(!a, k) == !bit_of(a, k),
{
}

proof fn lemma_bit_single(j: u16, k: u16)
    by (bit_vector)
    requires
        j < 16,
        k < 16,
    ensures
        bit_of(1u16 << j, k) == (j == k),
{
}

proof fn lemma_bit_value(a: u16, k: u16)
    by (bit_vector)
    requires
        k < 16,
    ensures
        (a >> k) & 1 == (if bit_of(a, k) { 1u16 } else { 0u16 }),
{
}

proof fn lemma_bits_decide(a: u16, b: u16)
    by (bit_vector)
    requires
        bit_of(a, 0) == bit_of(b, 0),
        bit_of(a, 1) == bit_of(b, 1),
        bit_of(a, 2) == bit_of(b, 2),
        bit_of(a, 3) == bit_of(b, 3),
        bit_of(a, 4) == bit_of(b, 4),
        bit_of(a, 5) == bit_of(b, 5),
        bit_of(a, 6) == bit_of(b, 6),
        bit_of(a, 7) == bit_of(b, 7),
        bit_of(a, 8) == bit_of(b, 8),
        bit_of(a, 9) == bit_of(b, 9),
        bit_of(a, 10) == bit_of(b, 10),
        bit_of(a, 11) == bit_of(b, 11),
        bit_of(a, 12) == bit_of(b, 12),
        bit_of(a, 13) == bit_of(b, 13),
        bit_of(a, 14) == bit_of(b, 14),
        bit_of(a, 15) == bit_of(b, 15),
    ensures
        a == b,
{
}

proof fn lemma_bit_zero(k: u16)
    by (bit_vector)
    requires
        k < 16,
    ensures
        !bit_of(0u16, k),
{
}

/// The elements of `s` among 1 to `k`, in ascending order.
pub open spec fn ascending(s: Set<int>, k: int) -> Seq<u8>
    decreases k,
{
    if k <= 0 {
        Seq::empty()
    } else if s.contains(k) {
        ascending(s, k - 1).push(k as u8)
    } else {
        ascending(s, k - 1)
    }
}

/// What `ascending` holds: elements of `s`, each at most `k`.
pub proof fn lemma_ascending(s: Set<int>, k: int)
    requires
        0 <= k <= 255,
    ensures
        ascending(s, k).len() <= k,
        forall|i: int|
            0 <= i < ascending(s, k).len() ==> 1 <= #[trigger] ascending(s, k)[i] <= k
                && s.contains(ascending(s, k)[i] as int),
        forall|d: int|
            1 <= d <= k && s.contains(d) ==> exists|i: int|
                0 <= i < ascending(s, k).len() && #[trigger] ascending(s, k)[i] == d,
    decreases k,
{
    if k > 0 {
        lemma_ascending(s, k - 1);
        let prev = ascending(s, k - 1);
        let cur = ascending(s, k);
        assert forall|d: int| 1 <= d <= k && s.contains(d) implies exists|i: int|
            0 <= i < cur.len() && #[trigger] cur[i] == d by {
            if d == k {
                assert(cur[prev.len() as int] == d);
            } else {
                let i = choose|i: int| 0 <= i < prev.len() && #[trigger] prev[i] == d;
                assert(cur[i] == d);
            }
        }
    }
}

impl<const SIZE: usize> NumberOptions<SIZE> {
    /// Whether digit `d` is in the set. No digit outside 1 to 16 ever is.
    pub closed spec fn has(self, d: int) -> bool {
        1 <= d <= 16 && bit_of(self.data, (d - 1) as u16)
    }

    /// Every digit the word holds, including those above `SIZE`.
    pub open spec fn view(self) -> Set<int> {
        Set::new(|d: int| self.has(d))
    }

    /// The digits of the set among 1 to `k`.
    pub open spec fn digits_upto(self, k: int) -> Set<int> {
        Set::new(|d: int| 1 <= d <= k && self.has(d))
    }

    /// The digits of the set that the grid uses: those among 1 to `SIZE`.
    pub open spec fn digits(self) -> Set<int> {
        self.digits_upto(SIZE as int)
    }

    /// The digits of the set among 1 to `k`, in ascending order.
    pub open spec fn ordered_upto(self, k: int) -> Seq<u8>
        decreases k,
    {
        if k <= 0 {
            Seq::empty()
        } else if self.has(k) {
            self.ordered_upto(k - 1).push(k as u8)
        } else {
            self.ordered_upto(k - 1)
        }
    }

    /// The digits of the set among 1 to `SIZE`, in ascending order.
    pub open spec fn ordered(self) -> Seq<u8> {
        self.ordered_upto(SIZE as int)
    }

    /// The smallest digit of the set among 1 to `SIZE`, if there is one.
    pub open spec fn least(self) -> Option<u8> {
        if self.ordered().len() > 0 {
            Some(self.ordered()[0])
        } else {
            None
        }
    }

    /// Two sets that hold the same digits are the same value.
    pub proof fn lemma_ext_equal(self, other: Self)
        requires
            forall|d: int| 1 <= d <= 16 ==> self.has(d) == other.has(d),
        ensures
            self == other,
    {
        assert forall|k: u16| k < 16 implies bit_of(self.data, k) == bit_of(other.data, k) by {
            assert(self.has(k + 1) == other.has(k + 1));
        }
        lemma_bits_decide(self.data, other.data);
    }

    /// `digits_upto(k)` is finite, has as many elements as `ordered_upto(k)`,
    /// and `ordered_upto(k)` lists exactly its elements in ascending order.
    pub proof fn lemma_ordered_upto(self, k: int)
        requires
            0 <= k <= 16,
        ensures
            self.digits_upto(k).finite(),
            self.digits_upto(k).len() == self.ordered_upto(k).len(),
            self.ordered_upto(k).len() <= k,
            forall|i: int|
                0 <= i < self.ordered_upto(k).len() ==> 1 <= #[trigger] self.ordered_upto(k)[i]
                    <= k && self.has(self.ordered_upto(k)[i] as int),
            forall|i: int, j: int|
                0 <= i < j < self.ordered_upto(k).len() ==> self.ordered_upto(k)[i]
                    < self.ordered_upto(k)[j],
            forall|d: int|
                1 <= d <= k && self.has(d) ==> exists|i: int|
                    0 <= i < self.ordered_upto(k).len() && #[trigger] self.ordered_upto(k)[i] == d,
        decreases k,
    {
        if k == 0 {
            assert(self.digits_upto(0) =~= Set::<int>::empty());
        } else {
            self.lemma_ordered_upto(k - 1);
            let prev = self.ordered_upto(k - 1);
            let cur = self.ordered_upto(k);
            if self.has(k) {
                assert(self.digits_upto(k) =~= self.digits_upto(k - 1).insert(k));
                assert forall|d: int| 1 <= d <= k && self.has(d) implies exists|i: int|
                    0 <= i < cur.len() && #[trigger] cur[i] == d by {
                    if d == k {
                        assert(cur[prev.len() as int] == d);
                    } else {
                        let i = choose|i: int| 0 <= i < prev.len() && #[trigger] prev[i] == d;
                        assert(cur[i] == d);
                    }
                }
            } else {
                assert(self.digits_upto(k) =~= self.digits_upto(k - 1));
            }
        }
    }

    /// `ordered_upto` lists in ascending order any set that agrees with this
    /// one on the digits 1 to `k`.
    pub proof fn lemma_ordered_ascending(self, s: Set<int>, k: int)
        requires
            forall|d: int| 1 <= d <= k ==> self.has(d) == s.contains(d),
        ensures
            self.ordered_upto(k) == ascending(s, k),
        decreases k,
    {
        if k > 0 {
            self.lemma_ordered_ascending(s, k - 1);
        }
    }

    /// What `ordered`, `digits` and `least` say of each other.
    pub proof fn lemma_ordered(self)
        requires
            SIZE <= 16,
        ensures
            self.digits().finite(),
            self.digits().len() == self.ordered().len(),
            self.ordered().len() <= SIZE,
            forall|i: int|
                0 <= i < self.ordered().len() ==> self.digits().contains(
                    #[trigger] self.ordered()[i] as int,
                ),
            forall|i: int, j: int|
                0 <= i < j < self.ordered().len() ==> self.ordered()[i] < self.ordered()[j],
            forall|d: int|
                self.digits().contains(d) ==> exists|i: int|
                    0 <= i < self.ordered().len() && #[trigger] self.ordered()[i] == d,
            self.least() is None <==> self.digits() =~= Set::<int>::empty(),
            self.least() matches Some(d) ==> self.digits().contains(d as int) && forall|e: int|
                self.digits().contains(e) ==> d <= e,
    {
        self.lemma_ordered_upto(SIZE as int);
    }

    /// A set with exactly one digit among 1 to `SIZE` holds its least digit and no other.
    pub proof fn lemma_single(self)
        requires
            SIZE <= 16,
            self.digits().len() == 1,
        ensures
            self.least() is Some,
            forall|d: int| self.digits().contains(d) <==> d == self.least().unwrap(),
    {
        self.lemma_ordered();
    }

    /// Whether `num` is in the set.
    pub fn has_number(&self, num: u8) -> (r: bool)
        requires
            1 <= num <= SIZE <= 16,
        ensures
            r == self.has(num as int),
    {
        (self.data >> ((num - 1) as u16)) & 1 == 1
    }

    /// Puts `num` in the set.
    pub fn add_number(&mut self, num: u8)
        requires
            1 <= num <= SIZE <= 16,
        ensures
            forall|d: int| final(self).has(d) == (d == num || old(self).has(d)),
            final(self)@ == old(self)@.insert(num as int),
    {
        let bit: u16 = 1u16 << ((num - 1) as u16);
        self.data = self.data | bit;
        proof {
            assert forall|d: int| self.has(d) == (d == num || old(self).has(d)) by {
                if 1 <= d <= 16 {
                    lemma_bit_or(old(self).data, bit, (d - 1) as u16);
                    lemma_bit_single((num - 1) as u16, (d - 1) as u16);
                }
            }
        }
    }

    /// Takes `num` out of the set.
    pub fn remove_number(&mut self, num: u8)
        requires
            1 <= num <= SIZE <= 16,
        ensures
            forall|d: int| final(self).has(d) == (d != num && old(self).has(d)),
            final(self)@ == old(self)@.remove(num as int),
    {
        let bit: u16 = 1u16 << ((num - 1) as u16);
        self.data = self.data & !bit;
        proof {
            assert forall|d: int| self.has(d) == (d != num && old(self).has(d)) by {
                if 1 <= d <= 16 {
                    lemma_bit_and(old(self).data, !bit, (d - 1) as u16);
                    lemma_bit_not(bit, (d - 1) as u16);
                    lemma_bit_single((num - 1) as u16, (d - 1) as u16);
                }
            }
        }
    }

    /// Whether the word holds no digit at all, those above `SIZE` included.
    pub fn empty(&self) -> (r: bool)
        ensures
            r == (self@ =~= Set::<int>::empty()),
            r == (forall|d: int| !self.has(d)),
    {
        proof {
            if self.data == 0 {
                assert forall|d: int| !self.has(d) by {
                    if 1 <= d <= 16 {
                        lemma_bit_zero((d - 1) as u16);
                    }
                }
            } else {
                if forall|d: int| !self.has(d) {
                    assert forall|k: u16| k < 16 implies bit_of(self.data, k) == bit_of(
                        0u16,
                        k,
                    ) by {
                        assert(!self.has(k + 1));
                        lemma_bit_zero(k);
                    }
                    lemma_bits_decide(self.data, 0u16);
                }
            }
            if self@ =~= Set::<int>::empty() {
                assert forall|d: int| !self.has(d) by {
                    assert(!self@.contains(d));
                }
            }
        }
        self.data == 0
    }

    /// Whether every digit from 1 to `SIZE` is in the set.
    pub fn all(&self) -> (r: bool)
        requires
            SIZE <= 16,
        ensures
            r == (forall|d: int| 1 <= d <= SIZE ==> self.has(d)),
    {
        let digits = self.as_vec();
        proof {
            self.lemma_ordered();
            let s = self.ordered();
            if s.len() == SIZE {
                // SIZE distinct digits among 1..=SIZE: all of them.
                vstd::set_lib::lemma_int_range(1, SIZE as int + 1);
                let full = vstd::set_lib::set_int_range(1, SIZE as int + 1);
                vstd::set_lib::lemma_subset_equality(self.digits(), full);
                assert forall|d: int| 1 <= d <= SIZE implies self.has(d) by {
                    assert(full.contains(d));
                }
            } else {
                if forall|d: int| 1 <= d <= SIZE ==> self.has(d) {
                    vstd::set_lib::lemma_int_range(1, SIZE as int + 1);
                    let full = vstd::set_lib::set_int_range(1, SIZE as int + 1);
                    assert(self.digits() =~= full);
                }
            }
        }
        digits.len() == SIZE
    }

    /// How many of the digits 1 to `SIZE` are in the set.
    pub fn count(&self) -> (r: u16)
        requires
            SIZE <= 16,
        ensures
            r == self.digits().len(),
            r <= SIZE,
    {
        let size: u8 = SIZE as u8;
        let mut result: u16 = 0;
        let mut value: u8 = 0;
        while value < size
            invariant
                size == SIZE,
                SIZE <= 16,
                value <= size,
                result == self.ordered_upto(value as int).len(),
                result <= value,
            decreases size - value,
        {
            proof {
                lemma_bit_value(self.data, value as u16);
            }
            result = result + ((self.data >> (value as u16)) & 1);
            value = value + 1;
        }
        proof {
            self.lemma_ordered();
        }
        result
    }

    /// The smallest digit of the set among 1 to `SIZE`.
    pub fn first(&self) -> (r: Option<u8>)
        requires
            SIZE <= 16,
        ensures
            r == self.least(),
            r matches Some(d) ==> self.digits().contains(d as int) && forall|e: int|
                self.digits().contains(e) ==> d <= e,
            r is None <==> self.digits() =~= Set::<int>::empty(),
    {
        let size: u8 = SIZE as u8;
        let mut i: u8 = 1;
        while i <= size
            invariant
                size == SIZE,
                SIZE <= 16,
                1 <= i <= size + 1,
                forall|e: int| 1 <= e < i ==> !self.has(e),
            decreases size + 1 - i,
        {
            if self.has_number(i) {
                proof {
                    self.lemma_ordered();
                    assert(self.digits().contains(i as int));
                }
                return Some(i);
            }
            i = i + 1;
        }
        proof {
            self.lemma_ordered();
        }
        None
    }

    /// The digits of the set among 1 to `SIZE`, in ascending order.
    pub fn as_vec(&self) -> (r: Vec<u8>)
        requires
            SIZE <= 16,
        ensures
            r@ == self.ordered(),
            r.len() == self.digits().len(),
            forall|i: int| 0 <= i < r.len() ==> self.digits().contains(#[trigger] r[i] as int),
            forall|i: int, j: int| 0 <= i < j < r.len() ==> r[i] < r[j],
            forall|d: int|
                self.digits().contains(d) ==> exists|i: int|
                    0 <= i < r.len() && #[trigger] r[i] == d,
    {
        let size: u8 = SIZE as u8;
        let mut result: Vec<u8> = Vec::with_capacity(SIZE);
        let mut i: u8 = 1;
        while i <= size
            invariant
                size == SIZE,
                SIZE <= 16,
                1 <= i <= size + 1,
                result@ == self.ordered_upto(i - 1),
            decreases size + 1 - i,
        {
            if self.has_number(i) {
                result.push(i);
            }
            i = i + 1;
        }
        proof {
            self.lemma_ordered();
        }
        result
    }

    /// For each digit from 1 to `SIZE`, in order, whether it is in the set.
    pub fn as_bool_array(&self) -> (r: [bool; SIZE])
        requires
            SIZE <= 16,
        ensures
            forall|i: int| 0 <= i < SIZE ==> r@[i] == self.has(i + 1),
    {
        let mut result = [false; SIZE];
        let mut i: usize = 0;
        while i < SIZE
            invariant
                SIZE <= 16,
                i <= SIZE,
                forall|j: int| 0 <= j < i ==> result@[j] == self.has(j + 1),
            decreases SIZE - i,
        {
            result[i] = self.has_number(i as u8 + 1);
            i = i + 1;
        }
        result
    }
}

impl<const SIZE: usize> Default for NumberOptions<SIZE> {
    fn default() -> (r: Self)
        ensures
            r@ =~= Set::<int>::empty(),
            forall|d: int| !r.has(d),
    {
        let r = NumberOptions { data: 0 };
        proof {
            assert forall|d: int| !r.has(d) by {
                if 1 <= d <= 16 {
                    lemma_bit_zero((d - 1) as u16);
                }
            }
        }
        r
    }
}

impl<const SIZE: usize> BitOrSpecImpl for NumberOptions<SIZE> {
    open spec fn obeys_bitor_spec() -> bool {
        true
    }

    open spec fn bitor_req(self, rhs: Self) -> bool {
        true
    }

    closed spec fn bitor_spec(self, rhs: Self) -> Self {
        NumberOptions { data: self.data | rhs.data }
    }
}

impl<const SIZE: usize> core::ops::BitOr for NumberOptions<SIZE> {
    type Output = Self;

    /// Union.
    fn bitor(self, rhs: Self) -> (r: Self)
        ensures
            forall|d: int| #[trigger] r.has(d) == (self.has(d) || rhs.has(d)),
            r@ == self@.union(rhs@),
    {
        let r = NumberOptions { data: self.data | rhs.data };
        proof {
            assert forall|d: int| #[trigger] r.has(d) == (self.has(d) || rhs.has(d)) by {
                if 1 <= d <= 16 {
                    lemma_bit_or(self.data, rhs.data, (d - 1) as u16);
                }
            }
        }
        r
    }
}

impl<const SIZE: usize> core::ops::BitOrAssign for NumberOptions<SIZE> {
    /// Union in place.
    fn bitor_assign(&mut self, rhs: Self)
        ensures
            forall|d: int| #[trigger] final(self).has(d) == (old(self).has(d) || rhs.has(d)),
            final(self)@ == old(self)@.union(rhs@),
    {
        self.data = self.data | rhs.data;
        proof {
            assert forall|d: int| #[trigger] self.has(d) == (old(self).has(d) || rhs.has(d)) by {
                if 1 <= d <= 16 {
                    lemma_bit_or(old(self).data, rhs.data, (d - 1) as u16);
                }
            }
        }
    }
}

impl<const SIZE: usize> BitAndSpecImpl for NumberOptions<SIZE> {
    open spec fn obeys_bitand_spec() -> bool {
        true
    }

    open spec fn bitand_req(self, rhs: Self) -> bool {
        true
    }

    closed spec fn bitand_spec(self, rhs: Self) -> Self {
        NumberOptions { data: self.data & rhs.data }
    }
}

impl<const SIZE: usize> core::ops::BitAnd for NumberOptions<SIZE> {
    type Output = Self;

    /// Intersection.
    fn bitand(self, rhs: Self) -> (r: Self)
        ensures
            forall|d: int| #[trigger] r.has(d) == (self.has(d) && rhs.has(d)),
            r@ == self@.intersect(rhs@),
    {
        let r = NumberOptions { data: self.data & rhs.data };
        proof {
            assert forall|d: int| #[trigger] r.has(d) == (self.has(d) && rhs.has(d)) by {
                if 1 <= d <= 16 {
                    lemma_bit_and(self.data, rhs.data, (d - 1) as u16);
                }
            }
        }
        r
    }
}

impl<const SIZE: usize> NotSpecImpl for NumberOptions<SIZE> {
    open spec fn obeys_not_spec() -> bool {
        true
    }

    open spec fn not_req(self) -> bool {
        true
    }

    closed spec fn not_spec(self) -> Self {
        NumberOptions { data: !self.data }
    }
}

impl<const SIZE: usize> core::ops::Not for NumberOptions<SIZE> {
    type Output = Self;

    /// Complement within the digits 1 to 16.
    fn not(self) -> (r: Self)
        ensures
            forall|d: int| r.has(d) == (1 <= d <= 16 && !self.has(d)),
    {
        let r = NumberOptions { data: !self.data };
        proof {
            assert forall|d: int| r.has(d) == (1 <= d <= 16 && !self.has(d)) by {
                if 1 <= d <= 16 {
                    lemma_bit_not(self.data, (d - 1) as u16);
                }
            }
        }
        r
    }
}

} // verus!
