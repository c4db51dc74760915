use vstd::prelude::*;

verus! {

/// The mask with one bit for each digit 1 to 9.
pub const FULL_MASK: u16 = 0x1ff;

/// Whether bit `d - 1` of `m` is set, for a digit `d` in 1 to 9.
pub open spec fn mask_has(m: u16, d: int) -> bool {
    1 <= d <= 9 && (m >> ((d - 1) as u16)) & 1u16 == 1u16
}

/// How many of the digits 1 to n are present in `m`.
pub open spec fn count_upto(m: u16, n: int) -> nat
    decreases n,
{
    if n <= 0 {
        0
    } else {
        count_upto(m, n - 1) + if mask_has(m, n) { 1nat } else { 0nat }
    }
}

/// A set of the digits that remain possible for a cell.
#[derive(Clone, Copy)]
pub struct CandidateSet {
    pub bits: u16,
}

impl CandidateSet {
    /// Whether digit `d` belongs to the set.
    pub open spec fn has(self, d: int) -> bool {
        mask_has(self.bits, d)
    }

    /// The number of digits in the set.
    pub open spec fn size(self) -> nat {
        count_upto(self.bits, 9)
    }

    /// Whether every digit of `self` is also in `other`.
    pub open spec fn subset_of(self, other: CandidateSet) -> bool {
        forall|d: int| #[trigger] self.has(d) ==> other.has(d)
    }

    /// The set without digit `d`.
    pub open spec fn without(self, d: int) -> CandidateSet {
        CandidateSet { bits: self.bits & !(1u16 << ((d - 1) as u16)) }
    }

    /// The set that holds every digit from 1 to 9.
    pub fn full() -> (r: CandidateSet)
        ensures
            forall|d: int| 1 <= d <= 9 ==> #[trigger] r.has(d),
    {
        let r = CandidateSet { bits: FULL_MASK };
        assert forall|d: int| 1 <= d <= 9 implies #[trigger] r.has(d) by {
            let k = (d - 1) as u16;
            assert((0x1ffu16 >> k) & 1u16 == 1u16) by (bit_vector)
                requires
                    k < 9,
            ;
        }
        r
    }

    /// Whether digit `d` belongs to the set.
    pub fn contains(&self, d: u16) -> (r: bool)
        requires
            1 <= d <= 9,
        ensures
            r == self.has(d as int),
    {
        (self.bits >> (d - 1)) & 1 == 1
    }

    /// The set without digit `d`.
    pub fn remove(&self, d: u16) -> (r: CandidateSet)
        requires
            1 <= d <= 9,
        ensures
            r == self.without(d as int),
            forall|e: int| #[trigger] r.has(e) == (self.has(e) && e != d),
    {
        let k: u16 = d - 1;
        let r = CandidateSet { bits: self.bits & !(1u16 << k) };
        proof {
            lemma_without(*self, d as int);
        }
        r
    }

    /// The number of digits in the set.
    pub fn count(&self) -> (r: u16)
        ensures
            r as nat == self.size(),
            r <= 9,
    {
        let mut n: u16 = 0;
        let mut d: u16 = 1;
        while d <= 9
            invariant
                1 <= d <= 10,
                n as nat == count_upto(self.bits, d - 1),
                n < d,
            decreases 10 - d,
        {
            if self.contains(d) {
                n = n + 1;
            }
            d = d + 1;
        }
        n
    }

    /// The lowest digit of a set that is not empty.
    pub fn lowest(&self) -> (r: u16)
        requires
            exists|d: int| #[trigger] self.has(d),
        ensures
            1 <= r <= 9,
            self.has(r as int),
            forall|d: int| 1 <= d < r ==> !#[trigger] self.has(d),
    {
        let mut d: u16 = 1;
        while d < 9
            invariant
                1 <= d <= 9,
                forall|e: int| 1 <= e < d ==> !#[trigger] self.has(e),
                exists|e: int| #[trigger] self.has(e),
            decreases 9 - d,
        {
            if self.contains(d) {
                return d;
            }
            d = d + 1;
        }
        d
    }

    /// The single digit of a set of size one.
    pub fn sole_member(&self) -> (r: u16)
        requires
            self.size() == 1,
        ensures
            1 <= r <= 9,
            self.has(r as int),
            forall|d: int| #[trigger] self.has(d) ==> d == r,
    {
        proof {
            lemma_count_positive(self.bits, 9);
            let d = choose|d: int| 1 <= d <= 9 && #[trigger] mask_has(self.bits, d);
            assert(self.has(d));
        }
        let r = self.lowest();
        proof {
            assert forall|d: int| #[trigger] self.has(d) implies d == r by {
                if 1 <= d <= 9 {
                    lemma_count_two(self.bits, 9, d, r as int);
                }
            }
        }
        r
    }
}

/// Taking `d` out of a set keeps every other digit and drops `d`.
pub proof fn lemma_without(s: CandidateSet, d: int)
    requires
        1 <= d <= 9,
    ensures
        forall|e: int| #[trigger] s.without(d).has(e) == (s.has(e) && e != d),
{
    assert forall|e: int| #[trigger] s.without(d).has(e) == (s.has(e) && e != d) by {
        if 1 <= e <= 9 {
            let k = (d - 1) as u16;
            let j = (e - 1) as u16;
            let m = s.bits;
            assert((((m & !(1u16 << k)) >> j) & 1u16 == 1u16) == (j != k && (m >> j) & 1u16 == 1u16))
                by (bit_vector)
                requires
                    k < 9,
                    j < 9,
            ;
        }
    }
}

/// Every digit from 1 to 9 is in the full mask.
pub proof fn lemma_full_has(d: int)
    requires
        1 <= d <= 9,
    ensures
        mask_has(FULL_MASK, d),
{
    let k = (d - 1) as u16;
    assert((0x1ffu16 >> k) & 1u16 == 1u16) by (bit_vector)
        requires
            k < 9,
    ;
}

/// A mask with a digit among 1 to n counts at least one.
pub proof fn lemma_count_positive(m: u16, n: int)
    requires
        0 <= n <= 9,
        count_upto(m, n) >= 1,
    ensures
        exists|d: int| 1 <= d <= n && #[trigger] mask_has(m, d),
    decreases n,
{
    if n > 0 && !mask_has(m, n) {
        lemma_count_positive(m, n - 1);
        let d = choose|d: int| 1 <= d <= n - 1 && #[trigger] mask_has(m, d);
        assert(1 <= d <= n && mask_has(m, d));
    }
}

/// Two digits among 1 to n in a mask that counts one are equal.
pub proof fn lemma_count_two(m: u16, n: int, a: int, b: int)
    requires
        0 <= n <= 9,
        count_upto(m, n) == 1,
        1 <= a <= n,
        1 <= b <= n,
        mask_has(m, a),
        mask_has(m, b),
    ensures
        a == b,
    decreases n,
{
    if a != b {
        if a == n {
            lemma_count_has(m, n - 1, b);
        } else if b == n {
            lemma_count_has(m, n - 1, a);
        } else if mask_has(m, n) {
            lemma_count_has(m, n - 1, a);
        } else {
            lemma_count_two(m, n - 1, a, b);
        }
    }
}

/// A digit among 1 to n in the mask makes the count at least one.
pub proof fn lemma_count_has(m: u16, n: int, a: int)
    requires
        0 <= n <= 9,
        1 <= a <= n,
        mask_has(m, a),
    ensures
        count_upto(m, n) >= 1,
    decreases n,
{
    if a < n {
        lemma_count_has(m, n - 1, a);
    }
}

/// Counting is monotone under inclusion, and strict where a digit is missing.
pub proof fn lemma_count_subset(a: u16, b: u16, n: int)
    requires
        0 <= n <= 9,
        forall|d: int| #[trigger] mask_has(a, d) ==> mask_has(b, d),
    ensures
        count_upto(a, n) <= count_upto(b, n),
        (exists|d: int| 1 <= d <= n && mask_has(b, d) && !#[trigger] mask_has(a, d)) ==> count_upto(a, n)
            < count_upto(b, n),
    decreases n,
{
    if n > 0 {
        lemma_count_subset(a, b, n - 1);
        if exists|d: int| 1 <= d <= n && mask_has(b, d) && !#[trigger] mask_has(a, d) {
            let d = choose|d: int| 1 <= d <= n && mask_has(b, d) && !#[trigger] mask_has(a, d);
            if d < n {
                assert(1 <= d <= n - 1 && mask_has(b, d) && !mask_has(a, d));
            }
        }
    }
}

} // verus!
