//! Letters of a 26-symbol alphabet and bitmask subsets of it.

use vstd::prelude::*;

verus! {

/// One validated letter of the 26-letter alphabet, stored as a value in
/// 1..=26. A zero sentinel can never be constructed.
#[derive(Clone, Copy, PartialEq, Eq, Structural, Debug, Hash)]
pub struct FChar {
    value: u8,
}

/// The numeric letter value that a character denotes: ASCII letters map to
/// 1..=26, case-insensitively; everything else is rejected.
pub open spec fn letter_of_char(c: char) -> Option<u8> {
    let u = c as u32;
    if 97 <= u && u <= 122 {
        Some((u - 96) as u8)
    } else if 65 <= u && u <= 90 {
        Some((u - 64) as u8)
    } else {
        None
    }
}

impl FChar {
    /// The letter's numeric value.
    pub closed spec fn spec_value(self) -> u8 {
        self.value
    }

    /// A letter is well formed when its value lies in 1..=26.
    pub open spec fn wf(self) -> bool {
        1 <= self.spec_value() && self.spec_value() <= 26
    }

    /// Builds the letter with the given value, which must be in range.
    pub fn new(u: u8) -> (r: FChar)
        requires
            1 <= u <= 26,
        ensures
            r.spec_value() == u,
            r.wf(),
    {
        FChar { value: u }
    }

    /// The letter's numeric value, in 1..=26.
    pub fn value(self) -> (r: u8)
        ensures
            r == self.spec_value(),
    {
        self.value
    }

    /// Parses one character: exactly the ASCII letters are accepted, upper
    /// or lower case, and map to their alphabet position.
    pub fn from_char(c: char) -> (r: Result<FChar, &'static str>)
        ensures
            match r {
                Ok(f) => letter_of_char(c) == Some(f.spec_value()) && f.wf(),
                Err(_) => letter_of_char(c) is None,
            },
    {
        let u = c as u32;
        if 97 <= u && u <= 122 {
            Ok(FChar { value: (u - 96) as u8 })
        } else if 65 <= u && u <= 90 {
            Ok(FChar { value: (u - 64) as u8 })
        } else {
            Err("Invalid character")
        }
    }

    /// One letter drawn uniformly from the alphabet.
    pub fn random(rng: &mut rand::rngs::StdRng) -> (r: FChar)
        ensures
            r.wf(),
    {
        let v = crate::rng::rng_below(rng, 26) as u8;
        FChar { value: v + 1 }
    }

    /// The lower-case character that denotes this letter.
    pub fn to_char(self) -> (c: char)
        requires
            self.wf(),
        ensures
            c as u32 == 96 + self.spec_value(),
            letter_of_char(c) == Some(self.spec_value()),
    {
        (96 + self.value) as char
    }
}

/// Mask with the bit of every letter set: bits 1..=26 of a 32-bit word.
pub const FULL_MASK: u32 = 0x07FF_FFFE;

/// Whether bit `c` of the mask is set.
pub open spec fn mask_contains(m: u32, c: u8) -> bool {
    m & (1u32 << (c as u32)) != 0
}

/// The mask with bit `c` set.
pub open spec fn mask_set(m: u32, c: u8) -> u32 {
    m | (1u32 << (c as u32))
}

/// The mask with bit `c` cleared.
pub open spec fn mask_clear(m: u32, c: u8) -> u32 {
    m & !(1u32 << (c as u32))
}

/// How setting one bit changes membership, for every other bit.
pub proof fn lemma_mask_set(m: u32, c: u8, d: u8)
    by (bit_vector)
    requires
        c < 32,
        d < 32,
    ensures
        mask_contains(mask_set(m, c), d) <==> (mask_contains(m, d) || d == c),
{
}

/// How clearing one bit changes membership, for every other bit.
pub proof fn lemma_mask_clear(m: u32, c: u8, d: u8)
    by (bit_vector)
    requires
        c < 32,
        d < 32,
    ensures
        mask_contains(mask_clear(m, c), d) <==> (mask_contains(m, d) && d != c),
{
}

/// Setting a bit never clears another.
pub proof fn lemma_mask_set_preserves(m: u32, c: u8, d: u8)
    by (bit_vector)
    requires
        c < 32,
        d < 32,
    ensures
        mask_contains(m, d) ==> mask_contains(mask_set(m, c), d),
{
}

/// The full mask contains every letter and nothing else.
pub proof fn lemma_mask_full(c: u8)
    by (bit_vector)
    requires
        c < 32,
    ensures
        mask_contains(FULL_MASK, c) <==> (1 <= c && c <= 26),
{
}

/// For every letter: the full set contains it; the singleton made by setting
/// it in the empty set contains it; and clearing it from that singleton
/// leaves the empty mask.
pub proof fn lemma_letter_set_basics(c: u8)
    requires
        1 <= c <= 26,
    ensures
        mask_contains(FULL_MASK, c),
        mask_contains(mask_set(0, c), c),
        mask_clear(mask_set(0, c), c) == 0,
{
    lemma_mask_full(c);
    lemma_mask_set(0, c, c);
    assert(mask_clear(mask_set(0u32, c), c) == 0) by (bit_vector)
        requires
            c < 32,
    ;
}

/// A subset of the alphabet as a bitmask; bit `c` stands for the letter with
/// value `c`, so bits 1..=26 are used and the others stay clear.
#[derive(Clone, Copy, PartialEq, Eq, Structural, Debug, Hash)]
pub struct CharSet {
    bits: u32,
}

impl CharSet {
    /// The raw mask.
    pub closed spec fn spec_bits(self) -> u32 {
        self.bits
    }

    /// Whether the set contains the letter with value `c`.
    pub open spec fn contains(self, c: u8) -> bool {
        mask_contains(self.spec_bits(), c)
    }

    /// The empty set.
    pub fn empty() -> (r: CharSet)
        ensures
            r.spec_bits() == 0,
    {
        CharSet { bits: 0 }
    }

    /// The set of all 26 letters.
    pub fn full() -> (r: CharSet)
        ensures
            r.spec_bits() == FULL_MASK,
            forall|c: u8| 1 <= c <= 26 ==> r.contains(c),
    {
        let r = CharSet { bits: FULL_MASK };
        proof {
            assert forall|c: u8| 1 <= c <= 26 implies r.contains(c) by {
                lemma_mask_full(c);
            }
        }
        r
    }

    /// The set with the given letter added.
    #[must_use]
    pub fn set(self, c: FChar) -> (r: CharSet)
        requires
            c.wf(),
        ensures
            r.spec_bits() == mask_set(self.spec_bits(), c.spec_value()),
            forall|d: u8|
                d < 32 ==> (r.contains(d) <==> (self.contains(d) || d == c.spec_value())),
    {
        let r = CharSet { bits: self.bits | (1u32 << (c.value as u32)) };
        proof {
            assert forall|d: u8| d < 32 implies (r.contains(d) <==> (self.contains(d) || d
                == c.spec_value())) by {
                lemma_mask_set(self.bits, c.spec_value(), d);
            }
        }
        r
    }

    /// The set with the given letter removed.
    #[must_use]
    pub fn clear(self, c: FChar) -> (r: CharSet)
        requires
            c.wf(),
        ensures
            r.spec_bits() == mask_clear(self.spec_bits(), c.spec_value()),
            forall|d: u8|
                d < 32 ==> (r.contains(d) <==> (self.contains(d) && d != c.spec_value())),
    {
        let r = CharSet { bits: self.bits & !(1u32 << (c.value as u32)) };
        proof {
            assert forall|d: u8| d < 32 implies (r.contains(d) <==> (self.contains(d) && d
                != c.spec_value())) by {
                lemma_mask_clear(self.bits, c.spec_value(), d);
            }
        }
        r
    }

    /// Membership test.
    pub fn check(self, c: FChar) -> (r: bool)
        requires
            c.wf(),
        ensures
            r == self.contains(c.spec_value()),
    {
        (self.bits & (1u32 << (c.value as u32))) > 0
    }

    /// The letters present in both sets.
    pub fn intersect(self, other: CharSet) -> (r: CharSet)
        ensures
            r.spec_bits() == (self.spec_bits() & other.spec_bits()),
    {
        CharSet { bits: self.bits & other.bits }
    }

    /// The raw 32-bit mask.
    pub fn bits(self) -> (r: u32)
        ensures
            r == self.spec_bits(),
    {
        self.bits
    }

    /// The set denoted by a raw mask.
    pub fn from_bits(bits: u32) -> (r: CharSet)
        ensures
            r.spec_bits() == bits,
    {
        CharSet { bits }
    }

    /// The members of the set in increasing letter order.
    pub fn members(self) -> (r: Vec<FChar>)
        ensures
            forall|i: int|
                0 <= i < r@.len() ==> (#[trigger] r@[i]).wf() && self.contains(r@[i].spec_value()),
            forall|c: u8|
                1 <= c <= 26 ==> (self.contains(c) <==> exists|i: int|
                    0 <= i < r@.len() && (#[trigger] r@[i]).spec_value() == c),
            forall|i: int, j: int|
                0 <= i < j < r@.len() ==> (#[trigger] r@[i]).spec_value() < (
                #[trigger] r@[j]).spec_value(),
    {
        let mut r: Vec<FChar> = Vec::new();
        let mut c: u8 = 1;
        while c <= 26
            invariant
                1 <= c <= 27,
                forall|i: int|
                    0 <= i < r@.len() ==> (#[trigger] r@[i]).wf() && self.contains(
                        r@[i].spec_value(),
                    ),
                forall|d: u8|
                    1 <= d < c ==> (self.contains(d) <==> exists|i: int|
                        0 <= i < r@.len() && (#[trigger] r@[i]).spec_value() == d),
                forall|i: int| 0 <= i < r@.len() ==> (#[trigger] r@[i]).spec_value() < c,
                forall|i: int, j: int|
                    0 <= i < j < r@.len() ==> (#[trigger] r@[i]).spec_value() < (
                    #[trigger] r@[j]).spec_value(),
            decreases 27 - c,
        {
            let f = FChar { value: c };
            let ghost r_prev = r@;
            let contained = self.check(f);
            if contained {
                r.push(f);
            }
            proof {
                assert forall|d: u8| 1 <= d < c + 1 implies (self.contains(d) <==> exists|i: int|
                    0 <= i < r@.len() && (#[trigger] r@[i]).spec_value() == d) by {
                    if d == c {
                        if contained {
                            assert(r@[r@.len() - 1].spec_value() == d);
                        }
                    } else {
                        if self.contains(d) {
                            let i = choose|i: int|
                                0 <= i < r_prev.len() && (#[trigger] r_prev[i]).spec_value() == d;
                            assert(r@[i].spec_value() == d);
                        }
                    }
                }
            }
            c = c + 1;
        }
        r
    }
}

impl Default for CharSet {
    /// The empty set.
    fn default() -> (r: CharSet)
        ensures
            r.spec_bits() == 0,
    {
        CharSet { bits: 0 }
    }
}

/// Walks the members of a [`CharSet`] in increasing letter order, one call
/// to [`CharSetIter::next`] at a time.
pub struct CharSetIter {
    set: CharSet,
    index: u8,
}

impl CharSetIter {
    /// The set being walked.
    pub closed spec fn spec_set(self) -> CharSet {
        self.set
    }

    /// The next letter value that will be considered.
    pub closed spec fn spec_index(self) -> u8 {
        self.index
    }

    pub open spec fn wf(self) -> bool {
        1 <= self.spec_index() <= 27
    }

    /// Starts a walk over the given set.
    pub fn new(set: CharSet) -> (r: CharSetIter)
        ensures
            r.spec_set() == set,
            r.spec_index() == 1,
            r.wf(),
    {
        CharSetIter { set, index: 1 }
    }

    /// The smallest not-yet-visited member, or `None` once the set is
    /// exhausted.
    pub fn next(&mut self) -> (r: Option<FChar>)
        requires
            old(self).wf(),
        ensures
            final(self).wf(),
            final(self).spec_set() == old(self).spec_set(),
            match r {
                Some(f) => {
                    &&& f.wf()
                    &&& old(self).spec_index() <= f.spec_value() <= 26
                    &&& old(self).spec_set().contains(f.spec_value())
                    &&& final(self).spec_index() == f.spec_value() + 1
                    &&& forall|d: u8|
                        old(self).spec_index() <= d < f.spec_value() ==> !old(
                            self,
                        ).spec_set().contains(d)
                },
                None => {
                    &&& final(self).spec_index() == 27
                    &&& forall|d: u8|
                        old(self).spec_index() <= d <= 26 ==> !old(self).spec_set().contains(d)
                },
            },
    {
        while self.index < 27
            invariant
                1 <= old(self).spec_index() <= self.index <= 27,
                self.set == old(self).spec_set(),
                forall|d: u8| old(self).spec_index() <= d < self.index ==> !self.set.contains(d),
            decreases 27 - self.index,
        {
            let f = FChar { value: self.index };
            self.index = self.index + 1;
            if self.set.check(f) {
                return Some(f);
            }
        }
        None
    }
}

} // verus!
