//! Ternary weights and their packed storage.
use vstd::prelude::*;
use vstd::std_specs::cmp::{PartialEqSpec, PartialEqSpecImpl};

verus! {

/// A single ternary weight: -1, 0 or +1, stored as two bits (`0b00`, `0b01`, `0b10`).
#[derive(Debug, Clone, Copy, PartialEq, Eq, Structural)]
pub enum Trit {
    /// -1, stored as `0b00`.
    Neg,
    /// 0, stored as `0b01`.
    Zero,
    /// +1, stored as `0b10`.
    Pos,
}

impl Trit {
    /// The number that the weight stands for.
    pub open spec fn value(self) -> int {
        match self {
            Trit::Neg => -1,
            Trit::Zero => 0,
            Trit::Pos => 1,
        }
    }

    /// The two bits that store the weight.
    pub open spec fn code(self) -> u8 {
        match self {
            Trit::Neg => 0,
            Trit::Zero => 1,
            Trit::Pos => 2,
        }
    }

    /// The weight that the low two bits of `b` store; `0b11` stores none.
    pub open spec fn decode(b: u8) -> Option<Trit> {
        if b % 4 == 0 {
            Some(Trit::Neg)
        } else if b % 4 == 1 {
            Some(Trit::Zero)
        } else if b % 4 == 2 {
            Some(Trit::Pos)
        } else {
            None
        }
    }

    pub fn to_i8(self) -> (r: i8)
        ensures
            r == self.value(),
    {
        match self {
            Trit::Neg => -1,
            Trit::Zero => 0,
            Trit::Pos => 1,
        }
    }

    pub fn to_bits(self) -> (r: u8)
        ensures
            r == self.code(),
    {
        match self {
            Trit::Neg => 0,
            Trit::Zero => 1,
            Trit::Pos => 2,
        }
    }

    /// Reads the low two bits; `0b11` is unused.
    pub fn from_bits(b: u8) -> (r: Option<Self>)
        ensures
            r == Trit::decode(b),
    {
        assert(b & 0b11 == b % 4) by (bit_vector);
        match b & 0b11 {
            0 => Some(Trit::Neg),
            1 => Some(Trit::Zero),
            2 => Some(Trit::Pos),
            _ => None,
        }
    }
}

/// A weight survives encoding, and whatever bits decode at all are the code of the
/// weight that they decode to.
pub proof fn trit_code_roundtrip(t: Trit, b: u8)
    ensures
        Trit::decode(t.code()) == Some(t),
        Trit::decode(b) matches Some(d) ==> d.code() == b % 4,
        Trit::decode(b) is None <==> b % 4 == 3,
{
}

/// The two bits that `word` holds at position `slot`, of 16 positions.
spec fn slot_bits(word: u32, slot: u32) -> u32 {
    (word >> (2 * slot) as u32) & 3
}

/// The weight that `word` holds at position `slot`.
spec fn slot_trit(word: u32, slot: u32) -> Trit {
    match Trit::decode(slot_bits(word, slot) as u8) {
        Some(t) => t,
        None => Trit::Zero,
    }
}

proof fn lemma_fill_slot(word: u32, slot: u32, code: u32, other: u32)
    requires
        slot < 16,
        other < 16,
        code < 4,
        slot_bits(word, slot) == 0,
    ensures
        slot_bits(word | (code << (2 * slot) as u32), slot) == code,
        other != slot ==> slot_bits(word | (code << (2 * slot) as u32), other) == slot_bits(
            word,
            other,
        ),
{
    let shift: u32 = (2 * slot) as u32;
    let away: u32 = (2 * other) as u32;
    assert((word | (code << shift)) >> shift & 3 == code) by (bit_vector)
        requires
            shift <= 30,
            code < 4,
            (word >> shift) & 3 == 0,
    ;
    if other < slot {
        assert((word | (code << shift)) >> away & 3 == (word >> away) & 3) by (bit_vector)
            requires
                shift <= 30,
                away + 2 <= shift,
        ;
    } else if slot < other {
        assert((word | (code << shift)) >> away & 3 == (word >> away) & 3) by (bit_vector)
            requires
                away <= 30,
                shift + 2 <= away,
                code < 4,
        ;
    }
}

/// A word is determined by what its 16 positions hold.
proof fn lemma_slots_determine_word(left: u32, right: u32)
    requires
        forall|slot: u32| slot < 16 ==> #[trigger] slot_bits(left, slot) == slot_bits(right, slot),
    ensures
        left == right,
{
    assert(slot_bits(left, 0) == slot_bits(right, 0));
    assert(slot_bits(left, 1) == slot_bits(right, 1));
    assert(slot_bits(left, 2) == slot_bits(right, 2));
    assert(slot_bits(left, 3) == slot_bits(right, 3));
    assert(slot_bits(left, 4) == slot_bits(right, 4));
    assert(slot_bits(left, 5) == slot_bits(right, 5));
    assert(slot_bits(left, 6) == slot_bits(right, 6));
    assert(slot_bits(left, 7) == slot_bits(right, 7));
    assert(slot_bits(left, 8) == slot_bits(right, 8));
    assert(slot_bits(left, 9) == slot_bits(right, 9));
    assert(slot_bits(left, 10) == slot_bits(right, 10));
    assert(slot_bits(left, 11) == slot_bits(right, 11));
    assert(slot_bits(left, 12) == slot_bits(right, 12));
    assert(slot_bits(left, 13) == slot_bits(right, 13));
    assert(slot_bits(left, 14) == slot_bits(right, 14));
    assert(slot_bits(left, 15) == slot_bits(right, 15));
    assert(left == right) by (bit_vector)
        requires
            (left >> 0u32) & 3 == (right >> 0u32) & 3,
            (left >> 2u32) & 3 == (right >> 2u32) & 3,
            (left >> 4u32) & 3 == (right >> 4u32) & 3,
            (left >> 6u32) & 3 == (right >> 6u32) & 3,
            (left >> 8u32) & 3 == (right >> 8u32) & 3,
            (left >> 10u32) & 3 == (right >> 10u32) & 3,
            (left >> 12u32) & 3 == (right >> 12u32) & 3,
            (left >> 14u32) & 3 == (right >> 14u32) & 3,
            (left >> 16u32) & 3 == (right >> 16u32) & 3,
            (left >> 18u32) & 3 == (right >> 18u32) & 3,
            (left >> 20u32) & 3 == (right >> 20u32) & 3,
            (left >> 22u32) & 3 == (right >> 22u32) & 3,
            (left >> 24u32) & 3 == (right >> 24u32) & 3,
            (left >> 26u32) & 3 == (right >> 26u32) & 3,
            (left >> 28u32) & 3 == (right >> 28u32) & 3,
            (left >> 30u32) & 3 == (right >> 30u32) & 3,
    ;
}

/// The two bits that `words` hold for the weight at `j`.
spec fn stored_bits(words: Seq<u32>, j: int) -> u32 {
    slot_bits(words[j / 16], (j % 16) as u32)
}

/// How many words hold `count` weights, 16 to a word.
pub open spec fn words_for(count: nat) -> nat {
    (count + 15) / 16
}

/// The weight at `i`; positions without a weight read as zero.
pub open spec fn weight_at(weights: Seq<Trit>, i: int) -> Trit {
    if 0 <= i < weights.len() {
        weights[i]
    } else {
        Trit::Zero
    }
}

/// Words with just enough room for the weights that they hold.
#[derive(Debug)]
pub struct PackedTrits {
    words: Vec<u32>,
    count: usize,
}

impl PackedTrits {
    /// There are just enough words, every weight is stored by its own code, and the unused
    /// bits of the last word are zero.
    #[verifier::type_invariant]
    pub closed spec fn canonical(self) -> bool {
        &&& self.words@.len() == words_for(self.count as nat)
        &&& forall|j: int|
            0 <= j < 16 * self.words@.len() ==> #[trigger] stored_bits(self.words@, j) == (if j
                < self.count {
                self@[j].code() as u32
            } else {
                0
            })
    }

    /// The words that the weights are stored in.
    pub closed spec fn stored(self) -> Seq<u32> {
        self.words@
    }
}

impl View for PackedTrits {
    type V = Seq<Trit>;

    /// The weights, in order.
    closed spec fn view(&self) -> Seq<Trit> {
        Seq::new(
            self.count as nat,
            |i: int| slot_trit(self.words@[i / 16], (i % 16) as u32),
        )
    }
}

impl PartialEq for PackedTrits {
    fn eq(&self, other: &Self) -> (same: bool) {
        proof {
            use_type_invariant(self);
            use_type_invariant(other);
            equal_weights_are_stored_alike(*self, *other);
        }
        if self.count != other.count {
            return false;
        }
        let mut w: usize = 0;
        while w < self.words.len()
            invariant
                w <= self.words@.len(),
                self.words@.len() == other.words@.len(),
                forall|k: int| 0 <= k < w ==> #[trigger] self.words@[k] == other.words@[k],
                self@ == other@ ==> self.words@ == other.words@,
            decreases self.words@.len() - w,
        {
            if self.words[w] != other.words[w] {
                return false;
            }
            w = w + 1;
        }
        assert(self.words@ =~= other.words@);
        true
    }
}

impl PartialEqSpecImpl for PackedTrits {
    open spec fn obeys_eq_spec() -> bool {
        true
    }

    /// Equal where they hold the same weights.
    open spec fn eq_spec(&self, other: &Self) -> bool {
        self@ == other@
    }
}

impl Clone for PackedTrits {
    fn clone(&self) -> (copy: Self)
        ensures
            copy@ == self@,
            copy.canonical(),
    {
        proof {
            use_type_invariant(self);
        }
        let words = self.words.clone();
        assert(words@ =~= self.words@);
        PackedTrits { words, count: self.count }
    }
}

/// Packed ternary weights, 16 to a `u32`.
#[derive(Debug)]
pub struct WeightBank {
    pub packed: PackedTrits,
    /// Logical version for hotswap tracking.
    pub version: u32,
}

impl View for WeightBank {
    type V = Seq<Trit>;

    /// The weights, in order.
    open spec fn view(&self) -> Seq<Trit> {
        self.packed@
    }
}

impl PartialEq for WeightBank {
    fn eq(&self, other: &Self) -> (same: bool) {
        self.version == other.version && self.packed == other.packed
    }
}

impl PartialEqSpecImpl for WeightBank {
    open spec fn obeys_eq_spec() -> bool {
        true
    }

    /// Equal where they hold the same weights under the same version.
    open spec fn eq_spec(&self, other: &Self) -> bool {
        self@ == other@ && self.version == other.version
    }
}

impl Clone for WeightBank {
    fn clone(&self) -> (copy: Self)
        ensures
            copy@ == self@,
            copy.version == self.version,
            copy.packed.canonical(),
    {
        WeightBank { packed: self.packed.clone(), version: self.version }
    }
}

impl WeightBank {
    /// Packs `trits` under the given version.
    pub fn pack(trits: &[Trit], version: u32) -> (bank: Self)
        ensures
            bank@ == trits@,
            bank.version == version,
            bank.packed.canonical(),
    {
        let count: usize = trits.len();
        let full: usize = count / 16;
        let n_words: usize = if count % 16 == 0 { full } else { full + 1 };
        let mut words: Vec<u32> = Vec::new();
        let mut w: usize = 0;
        while w < n_words
            invariant
                w <= n_words,
                words@.len() == w,
                forall|k: int| 0 <= k < w ==> words@[k] == 0,
            decreases n_words - w,
        {
            words.push(0);
            w = w + 1;
        }
        let mut i: usize = 0;
        assert forall|slot: u32| slot < 16 implies #[trigger] slot_bits(0, slot) == 0 by {
            let shift: u32 = (2 * slot) as u32;
            assert((0u32 >> shift) & 3 == 0) by (bit_vector);
        }
        while i < count
            invariant
                i <= count,
                count == trits@.len(),
                n_words == words_for(count as nat),
                words@.len() == n_words,
                forall|j: int|
                    0 <= j < 16 * n_words ==> #[trigger] stored_bits(words@, j) == (if j < i {
                        trits@[j].code() as u32
                    } else {
                        0
                    }),
            decreases count - i,
        {
            let word: usize = i / 16;
            let slot: u32 = (i % 16) as u32;
            let code: u32 = trits[i].to_bits() as u32;
            let ghost before = words@;
            let filled: u32 = words[word] | (code << (2 * slot));
            words.set(word, filled);
            proof {
                assert(stored_bits(before, i as int) == 0);
                assert forall|j: int| 0 <= j < 16 * n_words implies #[trigger] stored_bits(
                    words@,
                    j,
                ) == (if j == i {
                    code
                } else {
                    stored_bits(before, j)
                }) by {
                    lemma_fill_slot(before[word as int], slot, code, (j % 16) as u32);
                }
            }
            i = i + 1;
        }
        assert forall|j: int| 0 <= j < count implies #[trigger] slot_trit(
            words@[j / 16],
            (j % 16) as u32,
        ) == trits@[j] by {
            assert(stored_bits(words@, j) == trits@[j].code() as u32);
        }
        let packed = PackedTrits { words, count };
        let bank = WeightBank { packed, version };
        assert(bank@ =~= trits@);
        bank
    }

    /// The weight at `idx`; zero past the end.
    pub fn get(&self, idx: usize) -> (t: Trit)
        ensures
            t == weight_at(self@, idx as int),
            idx < self@.len() ==> t == self@[idx as int],
            idx >= self@.len() ==> t == Trit::Zero,
    {
        if idx >= self.packed.count {
            return Trit::Zero;
        }
        proof {
            use_type_invariant(&self.packed);
        }
        let slot: u32 = (idx % 16) as u32;
        let bits: u8 = ((self.packed.words[idx / 16] >> (2 * slot)) & 0b11) as u8;
        match Trit::from_bits(bits) {
            Some(t) => t,
            None => Trit::Zero,
        }
    }

    /// The number of weights.
    pub fn len(&self) -> (n: usize)
        ensures
            n == self@.len(),
    {
        self.packed.count
    }

    /// The storage taken by the packed weights.
    pub fn bytes_used(&self) -> (n: usize)
        ensures
            n == 4 * words_for(self@.len()),
    {
        proof {
            use_type_invariant(&self.packed);
        }
        self.packed.words.len() * 4
    }

    /// The storage that the same weights would take at four bytes each.
    pub fn bytes_fp32_equivalent(&self) -> (n: usize)
        requires
            4 * self@.len() <= usize::MAX,
        ensures
            n == 4 * self@.len(),
    {
        self.packed.count * 4
    }
}

/// Banks are values: with the weights stored canonically, the same weights mean the same
/// words, and the same number of weights in the same words means the same weights.
pub proof fn equal_weights_are_stored_alike(left: PackedTrits, right: PackedTrits)
    requires
        left.canonical(),
        right.canonical(),
    ensures
        left@ == right@ <==> left@.len() == right@.len() && left.stored() == right.stored(),
{
    assert(left@.len() == left.count && right@.len() == right.count);
    if left@ == right@ {
        assert forall|w: int| 0 <= w < left.words@.len() implies #[trigger] left.words@[w]
            == right.words@[w] by {
            assert forall|slot: u32| slot < 16 implies #[trigger] slot_bits(left.words@[w], slot)
                == slot_bits(right.words@[w], slot) by {
                let j = 16 * w + slot;
                assert(j / 16 == w && j % 16 == slot);
                assert(stored_bits(left.words@, j) == stored_bits(right.words@, j));
            }
            lemma_slots_determine_word(left.words@[w], right.words@[w]);
        }
        assert(left.words@ =~= right.words@);
    }
    if left@.len() == right@.len() && left.stored() == right.stored() {
        assert(left@ =~= right@);
    }
}

/// Two banks compare equal exactly where they hold the same weights under the same version:
/// packing loses nothing, and the unused bits of the last word decide nothing.
pub proof fn banks_compare_by_value(left: WeightBank, right: WeightBank)
    requires
        left.packed.canonical(),
        right.packed.canonical(),
    ensures
        PartialEqSpec::eq_spec(&left, &right) <==> left@ == right@ && left.version
            == right.version,
        PartialEqSpec::eq_spec(&left, &right) <==> {
            &&& left@.len() == right@.len()
            &&& left.packed.stored() == right.packed.stored()
            &&& left.version == right.version
        },
{
    equal_weights_are_stored_alike(left.packed, right.packed);
}

/// Packing is up to 16 times as dense as four-byte weights: exactly so where the
/// weights fill their words, and within one word of it always.
pub proof fn packing_density(weights: Seq<Trit>)
    ensures
        16 * (4 * words_for(weights.len())) >= 4 * weights.len(),
        16 * (4 * words_for(weights.len())) < 4 * weights.len() + 64,
        weights.len() % 16 == 0 ==> 16 * (4 * words_for(weights.len())) == 4 * weights.len(),
        weights.len() > 1 ==> 4 * words_for(weights.len()) < 4 * weights.len(),
{
}

/// Reading a weight gives back the weight stored there, and zero where none is stored.
pub proof fn weights_read_back(weights: Seq<Trit>, i: int)
    ensures
        0 <= i < weights.len() ==> weight_at(weights, i) == weights[i],
        !(0 <= i < weights.len()) ==> weight_at(weights, i).value() == 0,
{
}

/// Weights, codes and bits stand for each other one to one.
pub proof fn trit_values_and_codes(t: Trit)
    ensures
        t.value() == t.code() - 1,
        -1 <= t.value() <= 1,
        t == Trit::Neg <==> t.value() == -1,
        t == Trit::Pos <==> t.value() == 1,
{
}

} // verus!
