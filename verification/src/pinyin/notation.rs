//! Sets of pinyin notations.
use vstd::prelude::*;

verus! {

/// The number of notations.
pub const NOTATION_COUNT: usize = 10;

/// Index of the first-letter notation: `p` for 拼.
pub const ASCII_FIRST_LETTER: usize = 0;

/// Index of full pinyin without tone: `pin`.
pub const ASCII: usize = 1;

/// Index of full pinyin followed by the tone digit: `pin1`.
pub const ASCII_TONE: usize = 2;

/// Index of pinyin with tone marks: `pīn`.
pub const UNICODE: usize = 3;

/// Index of the ABC double pinyin scheme.
pub const DILETTER_ABC: usize = 4;

/// Index of the Jiajia double pinyin scheme.
pub const DILETTER_JIAJIA: usize = 5;

/// Index of the Microsoft double pinyin scheme.
pub const DILETTER_MICROSOFT: usize = 6;

/// Index of the Thunisoft double pinyin scheme.
pub const DILETTER_THUNISOFT: usize = 7;

/// Index of the Xiaohe double pinyin scheme.
pub const DILETTER_XIAOHE: usize = 8;

/// Index of the Zrm double pinyin scheme.
pub const DILETTER_ZRM: usize = 9;

/// A set of pinyin notations, one bit for each notation index.
#[derive(Clone, Copy, Debug, PartialEq, Eq, Structural)]
pub struct PinyinNotation {
    bits: u32,
}

proof fn lemma_bits_union(a: u32, b: u32, k: u32)
    requires
        k < 32,
    ensures
        (((a | b) >> k) & 1 == 1) <==> (((a >> k) & 1 == 1) || ((b >> k) & 1 == 1)),
{
    assert((((a | b) >> k) & 1 == 1) <==> (((a >> k) & 1 == 1) || ((b >> k) & 1 == 1)))
        by (bit_vector)
        requires
            k < 32,
    ;
}

proof fn lemma_bits_single(j: u32, k: u32)
    requires
        j < 32,
        k < 32,
    ensures
        (((1u32 << j) >> k) & 1 == 1) <==> j == k,
{
    assert((((1u32 << j) >> k) & 1 == 1) <==> j == k) by (bit_vector)
        requires
            j < 32,
            k < 32,
    ;
}

proof fn lemma_bits_zero(k: u32)
    requires
        k < 32,
    ensures
        (0u32 >> k) & 1 == 0,
{
    assert((0u32 >> k) & 1 == 0) by (bit_vector)
        requires
            k < 32,
    ;
}

impl PinyinNotation {
    /// Whether the notation with index `k` is in the set.
    pub closed spec fn has(self, k: int) -> bool {
        0 <= k < NOTATION_COUNT && (self.bits >> (k as u32)) & 1 == 1
    }

    /// Only the indices below `NOTATION_COUNT` can be in a set.
    pub proof fn lemma_has_range(self, k: int)
        ensures
            self.has(k) ==> 0 <= k < NOTATION_COUNT,
    {
    }

    /// The empty set.
    pub fn empty() -> (r: Self)
        ensures
            forall|k: int| !r.has(k),
    {
        let r = PinyinNotation { bits: 0 };
        proof {
            assert forall|k: int| !r.has(k) by {
                if 0 <= k < 32 {
                    lemma_bits_zero(k as u32);
                }
            }
        }
        r
    }

    /// The set that holds only the notation with index `k`.
    pub fn single(k: usize) -> (r: Self)
        requires
            k < NOTATION_COUNT,
        ensures
            forall|j: int| r.has(j) == (j == k),
    {
        let r = PinyinNotation { bits: 1u32 << (k as u32) };
        proof {
            assert forall|j: int| r.has(j) == (j == k) by {
                if 0 <= j < 32 {
                    lemma_bits_single(k as u32, j as u32);
                }
            }
        }
        r
    }

    /// `p`: the first letter of the full pinyin.
    pub fn ascii_first_letter() -> (r: Self)
        ensures
            forall|j: int| r.has(j) == (j == ASCII_FIRST_LETTER),
    {
        Self::single(ASCII_FIRST_LETTER)
    }

    /// `pin`: full pinyin without tone.
    pub fn ascii() -> (r: Self)
        ensures
            forall|j: int| r.has(j) == (j == ASCII),
    {
        Self::single(ASCII)
    }

    /// `pin1`: full pinyin with the tone digit.
    pub fn ascii_tone() -> (r: Self)
        ensures
            forall|j: int| r.has(j) == (j == ASCII_TONE),
    {
        Self::single(ASCII_TONE)
    }

    /// The notations of `self` together with those of `other`.
    pub fn union(self, other: Self) -> (r: Self)
        ensures
            forall|k: int|
                #![trigger r.has(k)]
                #![trigger self.has(k)]
                #![trigger other.has(k)]
                r.has(k) == (self.has(k) || other.has(k)),
    {
        let r = PinyinNotation { bits: self.bits | other.bits };
        proof {
            assert forall|k: int| r.has(k) == (self.has(k) || other.has(k)) by {
                if 0 <= k < 32 {
                    lemma_bits_union(self.bits, other.bits, k as u32);
                }
            }
        }
        r
    }

    /// Whether the set holds the notation with index `k`.
    pub fn contains_index(self, k: usize) -> (r: bool)
        ensures
            r == self.has(k as int),
    {
        k < NOTATION_COUNT && (self.bits >> (k as u32)) & 1 == 1
    }

    /// Whether every notation of `other` is in `self`.
    pub fn contains(self, other: Self) -> (r: bool)
        ensures
            r == (forall|k: int| other.has(k) ==> self.has(k)),
    {
        let mut k: usize = 0;
        while k < NOTATION_COUNT
            invariant
                k <= NOTATION_COUNT,
                forall|j: int| 0 <= j < k && other.has(j) ==> self.has(j),
            decreases NOTATION_COUNT - k,
        {
            if other.contains_index(k) && !self.contains_index(k) {
                return false;
            }
            k += 1;
        }
        true
    }

    /// Whether the set holds no notation.
    pub fn is_empty(self) -> (r: bool)
        ensures
            r == (forall|k: int| !self.has(k)),
    {
        let e = Self::empty();
        e.contains(self)
    }
}

} // verus!
