//! Words, partial words and the prefix oracle: a corpus-derived, read-only
//! mapping from a partial word to the set of letters observed to follow it.
//!
//! A partial word is stored as ten slots, each either a letter value in
//! 1..=26 or 0 for "unknown", with the invariant that once a slot is
//! unknown every later slot is unknown too. A partial word is keyed in the
//! oracle's map by its base-27 slot encoding.

use crate::fchar::{lemma_mask_set, lemma_mask_set_preserves, mask_contains, mask_set, CharSet, FChar};
use vstd::prelude::*;

verus! {

use std::collections::HashMap;
use std::hash::BuildHasherDefault;
use vstd::arithmetic::mul::lemma_mul_inequality;

/// The fixed word length.
pub const SIZE: usize = 10;

/// The FNV hasher of the `fnv` crate, the hash function behind the
/// oracle's map.
#[verifier::external_type_specification]
#[verifier::external_body]
pub struct ExFnvHasher(fnv::FnvHasher);

/// `std::hash::BuildHasherDefault`, which builds the FNV hasher from its
/// `Default` impl.
#[verifier::external_type_specification]
#[verifier::external_body]
#[verifier::reject_recursive_types(H)]
pub struct ExBuildHasherDefault<H>(BuildHasherDefault<H>);

/// The oracle's backing map: encoded partial word to letter-set mask,
/// hashed with FNV.
pub type PrefixMap = HashMap<u64, u32, BuildHasherDefault<fnv::FnvHasher>>;

/// Relies on `HashMap::insert` with the deterministic FNV hasher: the map
/// afterwards holds exactly the old entries plus `k` bound to `v`.
#[verifier::external_body]
fn map_insert(m: &mut PrefixMap, k: u64, v: u32)
    ensures
        final(m)@ == old(m)@.insert(k, v),
{
    m.insert(k, v);
}

/// Relies on `HashMap::get` with the deterministic FNV hasher: returns the
/// value bound to `k`, if any.
#[verifier::external_body]
fn map_get(m: &PrefixMap, k: u64) -> (r: Option<u32>)
    ensures
        r == if m@.contains_key(k) {
            Some(m@[k])
        } else {
            None::<u32>
        },
{
    m.get(&k).copied()
}

/// A full training word: exactly ten validated letters.
#[derive(Debug, Clone, PartialEq, Eq, Hash)]
pub struct Word {
    letters: Vec<FChar>,
}

/// The letter value a byte denotes: ASCII letters map to 1..=26,
/// case-insensitively; everything else is rejected.
pub open spec fn letter_of_byte(b: u8) -> Option<u8> {
    if 97 <= b && b <= 122 {
        Some((b - 96) as u8)
    } else if 65 <= b && b <= 90 {
        Some((b - 64) as u8)
    } else {
        None
    }
}

impl Word {
    /// The word as its sequence of letter values.
    pub closed spec fn view(self) -> Seq<u8> {
        self.letters@.map_values(|f: FChar| f.spec_value())
    }

    /// Ten letters, each in range.
    pub open spec fn wf(self) -> bool {
        self@.len() == SIZE && forall|i: int| 0 <= i < self@.len() ==> 1 <= #[trigger] self@[i] <= 26
    }

    /// A word from exactly ten letters.
    pub fn new(letters: Vec<FChar>) -> (r: Word)
        requires
            letters@.len() == SIZE,
            forall|i: int| 0 <= i < letters@.len() ==> (#[trigger] letters@[i]).wf(),
        ensures
            r.wf(),
            r@ == letters@.map_values(|f: FChar| f.spec_value()),
    {
        let r = Word { letters };
        proof {
            assert forall|i: int| 0 <= i < r@.len() implies 1 <= #[trigger] r@[i] <= 26 by {
                assert(r@[i] == r.letters@[i].spec_value());
            }
        }
        r
    }

    /// The letter at position `i`.
    pub fn letter(&self, i: usize) -> (r: FChar)
        requires
            self.wf(),
            i < SIZE,
        ensures
            r.spec_value() == self@[i as int],
            r.wf(),
    {
        self.letters[i]
    }

    /// Parses one corpus line: accepted as a training word only when it
    /// has exactly ten alphabetic characters, case-insensitively.
    pub fn from_bytes(bytes: &Vec<u8>) -> (r: Option<Word>)
        ensures
            match r {
                Some(w) => {
                    &&& bytes@.len() == SIZE
                    &&& forall|i: int| 0 <= i < SIZE ==> letter_of_byte(#[trigger] bytes@[i]) is Some
                    &&& w.wf()
                    &&& w@ == bytes@.map_values(|b: u8| letter_of_byte(b).unwrap())
                },
                None => bytes@.len() != SIZE || exists|i: int|
                    0 <= i < SIZE && letter_of_byte(#[trigger] bytes@[i]) is None,
            },
    {
        if bytes.len() != SIZE {
            return None;
        }
        let mut letters: Vec<FChar> = Vec::new();
        let mut i: usize = 0;
        while i < SIZE
            invariant
                i <= SIZE,
                bytes@.len() == SIZE,
                letters@.len() == i,
                forall|j: int| 0 <= j < i ==> letter_of_byte(#[trigger] bytes@[j]) is Some,
                forall|j: int|
                    0 <= j < i ==> (#[trigger] letters@[j]).wf() && letters@[j].spec_value()
                        == letter_of_byte(bytes@[j]).unwrap(),
            decreases SIZE - i,
        {
            let b = bytes[i];
            let v: u8 = if 97 <= b && b <= 122 {
                b - 96
            } else if 65 <= b && b <= 90 {
                b - 64
            } else {
                return None;
            };
            letters.push(FChar::new(v));
            i = i + 1;
        }
        let w = Word::new(letters);
        proof {
            assert(w@ =~= bytes@.map_values(|b: u8| letter_of_byte(b).unwrap()));
        }
        Some(w)
    }
}

/// The slots of the partial word that knows the first `k` letters of `w`.
pub open spec fn pw_prefix(w: Seq<u8>, k: int) -> Seq<u8> {
    Seq::new(SIZE as nat, |j: int| if j < k { w[j] } else { 0u8 })
}

/// Number of leading known slots.
pub open spec fn known_prefix_len(s: Seq<u8>) -> int
    decreases s.len(),
{
    if s.len() == 0 {
        0
    } else if s[0] == 0 {
        0
    } else {
        1 + known_prefix_len(s.drop_first())
    }
}

/// 27 raised to the `n`.
pub open spec fn pow27(n: nat) -> int
    decreases n,
{
    if n == 0 {
        1
    } else {
        27 * pow27((n - 1) as nat)
    }
}

pub proof fn lemma_pow27_pos(n: nat)
    ensures
        pow27(n) >= 1,
    decreases n,
{
    if n > 0 {
        lemma_pow27_pos((n - 1) as nat);
    }
}

pub proof fn lemma_pow27_le(i: nat, j: nat)
    requires
        i <= j,
    ensures
        pow27(i) <= pow27(j),
    decreases j,
{
    if i < j {
        lemma_pow27_le(i, (j - 1) as nat);
        lemma_pow27_pos((j - 1) as nat);
    }
}

pub proof fn lemma_pow27_ten()
    ensures
        pow27(10) == 205891132094649,
{
    reveal_with_fuel(pow27, 11);
}

/// The base-27 value of a slot sequence: the first slot is the most
/// significant digit, the last the least significant.
pub open spec fn encode_spec(s: Seq<u8>) -> int
    decreases s.len(),
{
    if s.len() == 0 {
        0
    } else {
        encode_spec(s.drop_last()) * 27 + s.last()
    }
}

/// A slot sequence with in-range slots encodes below 27^len.
pub proof fn lemma_encode_bounds(s: Seq<u8>)
    requires
        forall|i: int| 0 <= i < s.len() ==> #[trigger] s[i] <= 26,
    ensures
        0 <= encode_spec(s) < pow27(s.len()),
    decreases s.len(),
{
    if s.len() > 0 {
        lemma_encode_bounds(s.drop_last());
        let e = encode_spec(s.drop_last());
        let p = pow27((s.len() - 1) as nat);
        lemma_mul_inequality(e, p - 1, 27);
        assert(s.last() <= 26);
    }
}

/// Slot sequences with in-range slots have distinct encodings: base-27
/// digit strings of one length denote distinct numbers.
pub proof fn lemma_encode_injective(s1: Seq<u8>, s2: Seq<u8>)
    requires
        s1.len() == s2.len(),
        forall|i: int| 0 <= i < s1.len() ==> #[trigger] s1[i] <= 26,
        forall|i: int| 0 <= i < s2.len() ==> #[trigger] s2[i] <= 26,
        encode_spec(s1) == encode_spec(s2),
    ensures
        s1 == s2,
    decreases s1.len(),
{
    if s1.len() > 0 {
        let e1 = encode_spec(s1.drop_last());
        let e2 = encode_spec(s2.drop_last());
        lemma_encode_bounds(s1.drop_last());
        lemma_encode_bounds(s2.drop_last());
        assert(e1 * 27 + s1.last() == e2 * 27 + s2.last());
        assert(e1 == e2 && s1.last() == s2.last());
        lemma_encode_injective(s1.drop_last(), s2.drop_last());
        assert(s1 =~= s1.drop_last().push(s1.last()));
        assert(s2 =~= s2.drop_last().push(s2.last()));
    } else {
        assert(s1 =~= s2);
    }
}

/// The oracle key of a partial word: its base-27 slot encoding.
pub open spec fn key_of(s: Seq<u8>) -> u64 {
    encode_spec(s) as u64
}

/// Distinct partial words get distinct oracle keys.
pub proof fn lemma_key_injective(s1: Seq<u8>, s2: Seq<u8>)
    requires
        s1.len() == SIZE,
        s2.len() == SIZE,
        forall|i: int| 0 <= i < s1.len() ==> #[trigger] s1[i] <= 26,
        forall|i: int| 0 <= i < s2.len() ==> #[trigger] s2[i] <= 26,
        key_of(s1) == key_of(s2),
    ensures
        s1 == s2,
{
    lemma_encode_bounds(s1);
    lemma_encode_bounds(s2);
    lemma_pow27_ten();
    lemma_encode_injective(s1, s2);
}

/// A fixed-length sequence of known letters followed by unknown slots.
#[derive(Debug, Clone, PartialEq, Eq, Hash)]
pub struct PartialWord {
    slots: Vec<u8>,
}

impl PartialWord {
    /// The ten slots: a letter value in 1..=26, or 0 for unknown.
    pub closed spec fn view(self) -> Seq<u8> {
        self.slots@
    }

    /// Ten slots, each in range, and once a slot is unknown every later
    /// slot is unknown too.
    pub open spec fn wf(self) -> bool {
        &&& self@.len() == SIZE
        &&& forall|i: int| 0 <= i < self@.len() ==> #[trigger] self@[i] <= 26
        &&& forall|i: int, j: int| 0 <= i < j < self@.len() && self@[i] == 0 ==> self@[j] == 0
    }

    /// The all-unknown partial word.
    pub fn empty() -> (r: PartialWord)
        ensures
            r.wf(),
            r@ == pw_prefix(Seq::<u8>::empty(), 0),
            forall|i: int| 0 <= i < SIZE ==> #[trigger] r@[i] == 0,
    {
        let mut slots: Vec<u8> = Vec::new();
        let mut i: usize = 0;
        while i < SIZE
            invariant
                i <= SIZE,
                slots@.len() == i,
                forall|j: int| 0 <= j < i ==> #[trigger] slots@[j] == 0,
            decreases SIZE - i,
        {
            slots.push(0);
            i = i + 1;
        }
        let r = PartialWord { slots };
        proof {
            assert(r@ =~= pw_prefix(Seq::<u8>::empty(), 0));
        }
        r
    }

    /// The slot at position `i`: a letter value, or 0 when unknown.
    pub fn slot(&self, i: usize) -> (r: u8)
        requires
            self.wf(),
            i < SIZE,
        ensures
            r == self@[i as int],
    {
        self.slots[i]
    }

    /// Fills the first unknown slot, at position `i`, with a letter.
    pub fn fill(&mut self, i: usize, f: FChar)
        requires
            old(self).wf(),
            i < SIZE,
            old(self)@[i as int] == 0,
            forall|j: int| 0 <= j < i ==> #[trigger] old(self)@[j] != 0,
            f.wf(),
        ensures
            final(self).wf(),
            final(self)@ == old(self)@.update(i as int, f.spec_value()),
    {
        let v = f.value();
        self.slots[i] = v;
    }

    /// The partial word that knows the first `k` letters of `w`.
    pub fn from_word_prefix(w: &Word, k: usize) -> (r: PartialWord)
        requires
            w.wf(),
            k <= SIZE,
        ensures
            r.wf(),
            r@ == pw_prefix(w@, k as int),
    {
        let mut slots: Vec<u8> = Vec::new();
        let mut i: usize = 0;
        while i < SIZE
            invariant
                i <= SIZE,
                w.wf(),
                k <= SIZE,
                slots@.len() == i,
                forall|j: int|
                    0 <= j < i ==> #[trigger] slots@[j] == (if j < k {
                        w@[j]
                    } else {
                        0u8
                    }),
            decreases SIZE - i,
        {
            if i < k {
                slots.push(w.letter(i).value());
            } else {
                slots.push(0);
            }
            i = i + 1;
        }
        let r = PartialWord { slots };
        proof {
            assert(r@ =~= pw_prefix(w@, k as int));
        }
        r
    }

    /// The partial word's oracle key.
    pub fn encode_key(&self) -> (r: u64)
        requires
            self.wf(),
        ensures
            r == key_of(self@),
            r as int == encode_spec(self@),
    {
        let mut key: u64 = 0;
        let mut i: usize = 0;
        proof {
            lemma_pow27_ten();
        }
        while i < SIZE
            invariant
                i <= SIZE,
                self.wf(),
                key as int == encode_spec(self@.take(i as int)),
                key < pow27(i as nat),
                pow27(10) == 205891132094649,
            decreases SIZE - i,
        {
            proof {
                lemma_encode_bounds(self@.take(i as int));
                lemma_encode_bounds(self@.take(i + 1));
                assert(self@.take(i + 1).drop_last() =~= self@.take(i as int));
                assert(self@.take(i + 1).last() == self@[i as int]);
                lemma_pow27_le((i + 1) as nat, 10);
                assert(key * 27 + self@[i as int] == encode_spec(self@.take(i + 1)));
                assert(encode_spec(self@.take(i + 1)) < pow27((i + 1) as nat));
            }
            key = key * 27 + (self.slots[i] as u64);
            i = i + 1;
        }
        proof {
            assert(self@.take(SIZE as int) =~= self@);
        }
        key
    }
}

/// The entry for `key`, or the empty mask when the key is absent.
pub open spec fn map_entry(m: Map<u64, u32>, key: u64) -> u32 {
    if m.contains_key(key) {
        m[key]
    } else {
        0u32
    }
}

/// One prefix registration: the entry for `key` gains the letter `c`,
/// starting from the empty set when the key is new.
pub open spec fn upd_entry(m: Map<u64, u32>, key: u64, c: u8) -> Map<u64, u32> {
    m.insert(key, mask_set(map_entry(m, key), c))
}

/// Registers the strict prefixes of `w` of lengths `i-1` down to 0, each
/// against the letter that follows it.
pub open spec fn add_word_from(m: Map<u64, u32>, w: Seq<u8>, i: int) -> Map<u64, u32>
    decreases i,
{
    if i <= 0 {
        m
    } else {
        add_word_from(upd_entry(m, key_of(pw_prefix(w, i - 1)), w[i - 1]), w, i - 1)
    }
}

/// The oracle content derived from a corpus: every strict prefix of every
/// word, registered against the letter that follows it.
pub open spec fn build_map(ws: Seq<Seq<u8>>) -> Map<u64, u32>
    decreases ws.len(),
{
    if ws.len() == 0 {
        Map::empty()
    } else {
        add_word_from(build_map(ws.drop_last()), ws.last(), SIZE as int)
    }
}

/// A slot sequence that is a full training word: ten letters in range.
pub open spec fn word_slots_wf(s: Seq<u8>) -> bool {
    s.len() == SIZE && forall|j: int| 0 <= j < s.len() ==> 1 <= #[trigger] s[j] <= 26
}

/// A registration never clears a bit of any entry.
pub proof fn lemma_upd_entry_preserves(m: Map<u64, u32>, k2: u64, c2: u8, key: u64, c: u8)
    requires
        c < 32,
        c2 < 32,
        mask_contains(map_entry(m, key), c),
    ensures
        mask_contains(map_entry(upd_entry(m, k2, c2), key), c),
{
    if key == k2 {
        lemma_mask_set_preserves(map_entry(m, key), c2, c);
    }
}

/// Registering a word's prefixes never clears a bit of any entry.
pub proof fn lemma_add_word_preserves(m: Map<u64, u32>, w: Seq<u8>, i: int, key: u64, c: u8)
    requires
        c < 32,
        word_slots_wf(w),
        i <= w.len(),
        mask_contains(map_entry(m, key), c),
    ensures
        mask_contains(map_entry(add_word_from(m, w, i), key), c),
    decreases i,
{
    if i > 0 {
        let m1 = upd_entry(m, key_of(pw_prefix(w, i - 1)), w[i - 1]);
        lemma_upd_entry_preserves(m, key_of(pw_prefix(w, i - 1)), w[i - 1], key, c);
        lemma_add_word_preserves(m1, w, i - 1, key, c);
    }
}

/// After registering a word's prefixes of lengths below `i`, the entry
/// for each such prefix contains the letter that follows it.
pub proof fn lemma_add_word_registers(m: Map<u64, u32>, w: Seq<u8>, i: int, k: int)
    requires
        word_slots_wf(w),
        0 <= k < i <= w.len(),
    ensures
        mask_contains(map_entry(add_word_from(m, w, i), key_of(pw_prefix(w, k))), w[k]),
    decreases i,
{
    let m1 = upd_entry(m, key_of(pw_prefix(w, i - 1)), w[i - 1]);
    if k == i - 1 {
        lemma_mask_set(map_entry(m, key_of(pw_prefix(w, k))), w[k], w[k]);
        lemma_add_word_preserves(m1, w, i - 1, key_of(pw_prefix(w, k)), w[k]);
    } else {
        lemma_add_word_registers(m1, w, i - 1, k);
    }
}

/// In the oracle content built from a corpus, every strict prefix of
/// every accepted word maps to a set containing the letter that followed
/// it in that word.
pub proof fn lemma_build_map_complete(ws: Seq<Seq<u8>>, i: int, k: int)
    requires
        forall|a: int| 0 <= a < ws.len() ==> word_slots_wf(#[trigger] ws[a]),
        0 <= i < ws.len(),
        0 <= k < SIZE,
    ensures
        mask_contains(map_entry(build_map(ws), key_of(pw_prefix(ws[i], k))), ws[i][k]),
    decreases ws.len(),
{
    let rest = build_map(ws.drop_last());
    if i == ws.len() - 1 {
        lemma_add_word_registers(rest, ws.last(), SIZE as int, k);
    } else {
        assert forall|a: int| 0 <= a < ws.drop_last().len() implies word_slots_wf(
            #[trigger] ws.drop_last()[a],
        ) by {
            assert(ws.drop_last()[a] == ws[a]);
        }
        lemma_build_map_complete(ws.drop_last(), i, k);
        lemma_add_word_preserves(
            rest,
            ws.last(),
            SIZE as int,
            key_of(pw_prefix(ws.drop_last()[i], k)),
            ws.drop_last()[i][k],
        );
    }
}

/// A partial-word shape: ten slots, each in range.
pub open spec fn slots_in_range(s: Seq<u8>) -> bool {
    s.len() == SIZE && forall|i: int| 0 <= i < s.len() ==> #[trigger] s[i] <= 26
}

/// Some corpus word continues the prefix `p` with the letter `c`.
pub open spec fn observed(ws: Seq<Seq<u8>>, p: Seq<u8>, c: u8) -> bool {
    exists|i: int, k: int|
        0 <= i < ws.len() && 0 <= k < SIZE && p == #[trigger] pw_prefix(ws[i], k) && c == ws[i][k]
}

/// Registering one word adds nothing but that word's own continuations.
pub proof fn lemma_add_word_sound(m: Map<u64, u32>, w: Seq<u8>, i: int, p: Seq<u8>, c: u8)
    requires
        word_slots_wf(w),
        slots_in_range(p),
        c < 32,
        i <= SIZE,
        mask_contains(map_entry(add_word_from(m, w, i), key_of(p)), c),
    ensures
        mask_contains(map_entry(m, key_of(p)), c) || exists|k: int|
            0 <= k < i && p == #[trigger] pw_prefix(w, k) && c == w[k],
    decreases i,
{
    if i > 0 {
        let keyp = key_of(pw_prefix(w, i - 1));
        let m1 = upd_entry(m, keyp, w[i - 1]);
        lemma_add_word_sound(m1, w, i - 1, p, c);
        if mask_contains(map_entry(m1, key_of(p)), c) && !(exists|k: int|
            0 <= k < i && p == #[trigger] pw_prefix(w, k) && c == w[k])
            && !mask_contains(map_entry(m, key_of(p)), c) {
            assert(key_of(p) == keyp);
            assert(slots_in_range(pw_prefix(w, i - 1)));
            lemma_key_injective(p, pw_prefix(w, i - 1));
            lemma_mask_set(map_entry(m, keyp), w[i - 1], c);
            assert(c == w[i - 1]);
            assert(p == pw_prefix(w, i - 1) && c == w[i - 1]);
        }
    }
}

/// Only observed continuations stand in the built oracle content: every
/// letter in a partial word's entry was put there by a corpus word that
/// continues that exact prefix with that letter.
pub proof fn lemma_build_map_sound(ws: Seq<Seq<u8>>, p: Seq<u8>, c: u8)
    requires
        forall|a: int| 0 <= a < ws.len() ==> word_slots_wf(#[trigger] ws[a]),
        slots_in_range(p),
        c < 32,
        mask_contains(map_entry(build_map(ws), key_of(p)), c),
    ensures
        observed(ws, p, c),
    decreases ws.len(),
{
    if ws.len() == 0 {
        assert(!mask_contains(0u32, c)) by (bit_vector)
            requires
                c < 32,
        ;
    } else {
        let rest = build_map(ws.drop_last());
        lemma_add_word_sound(rest, ws.last(), SIZE as int, p, c);
        if mask_contains(map_entry(rest, key_of(p)), c) {
            assert forall|a: int| 0 <= a < ws.drop_last().len() implies word_slots_wf(
                #[trigger] ws.drop_last()[a],
            ) by {
                assert(ws.drop_last()[a] == ws[a]);
            }
            lemma_build_map_sound(ws.drop_last(), p, c);
            let (i, k): (int, int) = choose|i: int, k: int|
                0 <= i < ws.drop_last().len() && 0 <= k < SIZE && p == #[trigger] pw_prefix(
                    ws.drop_last()[i],
                    k,
                ) && c == ws.drop_last()[i][k];
            assert(ws.drop_last()[i] == ws[i]);
            assert(p == pw_prefix(ws[i], k) && c == ws[i][k]);
        } else {
            let k = choose|k: int|
                0 <= k < SIZE && p == #[trigger] pw_prefix(ws.last(), k) && c == ws.last()[k];
            assert(ws.last() == ws[ws.len() - 1]);
            assert(p == pw_prefix(ws[ws.len() - 1], k) && c == ws[ws.len() - 1][k]);
        }
    }
}

/// The read-only prefix oracle, built once from the corpus.
#[derive(Debug)]
pub struct Oracle {
    map: PrefixMap,
}

impl Oracle {
    /// The oracle's content: encoded partial word to letter-set mask.
    pub closed spec fn view(self) -> Map<u64, u32> {
        self.map@
    }

    /// The letter-set mask for a partial word: the stored entry, or the
    /// empty set when the key was never observed.
    pub open spec fn lookup_spec(self, s: Seq<u8>) -> u32 {
        map_entry(self@, key_of(s))
    }

    /// Builds the oracle from the training words, registering each strict
    /// prefix of each word against the letter that follows it.
    pub fn build(words: &Vec<Word>) -> (o: Oracle)
        requires
            forall|i: int| 0 <= i < words@.len() ==> (#[trigger] words@[i]).wf(),
        ensures
            o@ == build_map(words@.map_values(|w: Word| w@)),
    {
        let ghost ws = words@.map_values(|w: Word| w@);
        let mut map: PrefixMap = HashMap::default();
        let mut n: usize = 0;
        proof {
            assert(ws.take(0) =~= Seq::<Seq<u8>>::empty());
            assert(map@ == build_map(ws.take(0)));
        }
        while n < words.len()
            invariant
                n <= words@.len(),
                ws == words@.map_values(|w: Word| w@),
                forall|i: int| 0 <= i < words@.len() ==> (#[trigger] words@[i]).wf(),
                map@ == build_map(ws.take(n as int)),
            decreases words@.len() - n,
        {
            let ghost target = add_word_from(build_map(ws.take(n as int)), ws[n as int], SIZE as int);
            let w = &words[n];
            proof {
                assert(w@ == ws[n as int]);
            }
            let mut i: usize = SIZE;
            while i > 0
                invariant
                    i <= SIZE,
                    n < words@.len(),
                    w.wf(),
                    w@ == ws[n as int],
                    add_word_from(map@, w@, i as int) == target,
                decreases i,
            {
                let pw = PartialWord::from_word_prefix(w, i - 1);
                let key = pw.encode_key();
                let prev: u32 = match map_get(&map, key) {
                    Some(v) => v,
                    None => 0,
                };
                let c = w.letter(i - 1);
                let v = CharSet::from_bits(prev).set(c).bits();
                let ghost m0 = map@;
                map_insert(&mut map, key, v);
                proof {
                    assert(map@ == upd_entry(m0, key_of(pw_prefix(w@, i - 1)), w@[i - 1]));
                    assert(add_word_from(m0, w@, i as int) == add_word_from(map@, w@, i - 1));
                }
                i = i - 1;
            }
            proof {
                assert(ws.take(n + 1).drop_last() =~= ws.take(n as int));
                assert(ws.take(n + 1).last() == w@);
                assert(map@ == build_map(ws.take(n + 1)));
            }
            n = n + 1;
        }
        proof {
            assert(ws.take(ws.len() as int) =~= ws);
        }
        Oracle { map }
    }

    /// A built oracle offers, after every strict prefix of an accepted
    /// word, at least the letter that followed it there — so sampling
    /// along a corpus word never dead-ends before the word runs out.
    pub proof fn lemma_complete(self, ws: Seq<Seq<u8>>, i: int, k: int)
        requires
            self@ == build_map(ws),
            forall|a: int| 0 <= a < ws.len() ==> word_slots_wf(#[trigger] ws[a]),
            0 <= i < ws.len(),
            0 <= k < SIZE,
        ensures
            mask_contains(self.lookup_spec(pw_prefix(ws[i], k)), ws[i][k]),
    {
        lemma_build_map_complete(ws, i, k);
    }

    /// What a built oracle holds, exactly: it offers a letter after a
    /// partial word if and only if some corpus word continues that exact
    /// prefix with that letter.
    pub proof fn lemma_characterize(self, ws: Seq<Seq<u8>>, p: Seq<u8>, c: u8)
        requires
            self@ == build_map(ws),
            forall|a: int| 0 <= a < ws.len() ==> word_slots_wf(#[trigger] ws[a]),
            slots_in_range(p),
            c < 32,
        ensures
            mask_contains(self.lookup_spec(p), c) <==> observed(ws, p, c),
    {
        if observed(ws, p, c) {
            let (i, k): (int, int) = choose|i: int, k: int|
                0 <= i < ws.len() && 0 <= k < SIZE && p == #[trigger] pw_prefix(ws[i], k) && c
                    == ws[i][k];
            self.lemma_complete(ws, i, k);
        }
        if mask_contains(self.lookup_spec(p), c) {
            lemma_build_map_sound(ws, p, c);
        }
    }

    /// The set of letters observed to follow the partial word; empty when
    /// the key was never observed.
    pub fn lookup(&self, pw: &PartialWord) -> (r: CharSet)
        requires
            pw.wf(),
        ensures
            r.spec_bits() == self.lookup_spec(pw@),
    {
        let key = pw.encode_key();
        match map_get(&self.map, key) {
            Some(v) => CharSet::from_bits(v),
            None => CharSet::empty(),
        }
    }
}

} // verus!
