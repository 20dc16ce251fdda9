//! A boolean that may be missing, and a packed vector of such values.

use vstd::prelude::*;
use vstd::std_specs::convert::FromSpecImpl;

verus! {

/// A three-state boolean: true, false, or unassigned.
#[derive(Debug, Clone, Copy, PartialEq, Eq, Structural)]
pub enum OptBool {
    False,
    True,
    Unassigned,
}

impl OptBool {
    /// The assigned state that holds `value`.
    pub open spec fn of(value: bool) -> OptBool {
        if value {
            OptBool::True
        } else {
            OptBool::False
        }
    }

    /// A value is held.
    pub open spec fn spec_is_some(self) -> bool {
        self != OptBool::Unassigned
    }

    /// No value is held.
    pub open spec fn spec_is_none(self) -> bool {
        self == OptBool::Unassigned
    }

    /// Assigned, and to true.
    pub open spec fn spec_is_true(self) -> bool {
        self == OptBool::True
    }

    /// Assigned, and to false.
    pub open spec fn spec_is_false(self) -> bool {
        self == OptBool::False
    }

    /// Assigned, and to exactly `val`.
    pub open spec fn spec_is_bool(self, val: bool) -> bool {
        self == OptBool::of(val)
    }

    /// The boolean held, or `default` where none is held.
    pub open spec fn spec_unwrap_or(self, default: bool) -> bool {
        match self {
            OptBool::True => true,
            OptBool::False => false,
            OptBool::Unassigned => default,
        }
    }

    /// The boolean held. False where none is held.
    pub open spec fn spec_unwrap(self) -> bool {
        self == OptBool::True
    }

    /// Whether a value is held.
    #[verifier::when_used_as_spec(spec_is_some)]
    pub fn is_some(self) -> (some: bool)
        ensures
            some == self.spec_is_some(),
    {
        match self {
            OptBool::Unassigned => false,
            _ => true,
        }
    }

    /// Whether no value is held.
    #[verifier::when_used_as_spec(spec_is_none)]
    pub fn is_none(self) -> (none: bool)
        ensures
            none == self.spec_is_none(),
    {
        match self {
            OptBool::Unassigned => true,
            _ => false,
        }
    }

    /// Whether the value held is true.
    #[verifier::when_used_as_spec(spec_is_true)]
    pub fn is_true(self) -> (t: bool)
        ensures
            t == self.spec_is_true(),
    {
        match self {
            OptBool::True => true,
            _ => false,
        }
    }

    /// Whether the value held is false.
    #[verifier::when_used_as_spec(spec_is_false)]
    pub fn is_false(self) -> (f: bool)
        ensures
            f == self.spec_is_false(),
    {
        match self {
            OptBool::False => true,
            _ => false,
        }
    }

    /// True iff the value is assigned and equal to `val`.
    #[verifier::when_used_as_spec(spec_is_bool)]
    pub fn is_bool(self, val: bool) -> (same: bool)
        ensures
            same == self.spec_is_bool(val),
    {
        match self {
            OptBool::True => val,
            OptBool::False => !val,
            OptBool::Unassigned => false,
        }
    }

    /// The boolean held. The value must be assigned.
    #[verifier::when_used_as_spec(spec_unwrap)]
    pub fn unwrap(self) -> (value: bool)
        requires
            self.spec_is_some(),
        ensures
            value == self.spec_unwrap(),
            self == OptBool::of(value),
    {
        self.is_true()
    }

    /// The boolean held, or `default` if the value is unassigned.
    #[verifier::when_used_as_spec(spec_unwrap_or)]
    pub fn unwrap_or(self, default: bool) -> (value: bool)
        ensures
            value == self.spec_unwrap_or(default),
    {
        match self {
            OptBool::True => true,
            OptBool::False => false,
            OptBool::Unassigned => default,
        }
    }
}

impl From<bool> for OptBool {
    /// The assigned state that holds `b`.
    fn from(b: bool) -> (state: OptBool) {
        if b {
            OptBool::True
        } else {
            OptBool::False
        }
    }
}

impl FromSpecImpl<bool> for OptBool {
    open spec fn obeys_from_spec() -> bool {
        true
    }

    open spec fn from_spec(b: bool) -> OptBool {
        OptBool::of(b)
    }
}

/// Items that one word of an `OptBoolVec` holds, two bits each.
pub const ITEMS_PER_WORD: usize = 32;

/// A word in which every item is unassigned.
pub const UNASSIGNED_WORD: u64 = 0xAAAA_AAAA_AAAA_AAAA;

/// The two bits of item `k` of a word.
pub open spec fn slot_bits(word: u64, k: u64) -> u64 {
    (word >> (2 * k)) & 3
}

/// The state that two bits stand for: 0 is false, 1 is true, the rest
/// unassigned.
pub open spec fn decode_bits(bits: u64) -> OptBool {
    if bits == 0 {
        OptBool::False
    } else if bits == 1 {
        OptBool::True
    } else {
        OptBool::Unassigned
    }
}

/// Every slot of the word of unassigned items reads as unassigned.
proof fn lemma_unassigned_word(k: u64)
    by (bit_vector)
    requires
        k < 32,
    ensures
        (0xAAAA_AAAA_AAAA_AAAAu64 >> (2 * k)) & 3 == 2,
{
}

/// Writing a slot of a word sets that slot and leaves the others.
proof fn lemma_write_slot(word: u64, bits: u64, i: u64, k: u64)
    by (bit_vector)
    requires
        i < 32,
        k < 32,
        bits <= 2,
    ensures
        (((word & !(3u64 << (2 * i))) | (bits << (2 * i))) >> (2 * k)) & 3 == if k == i {
            bits
        } else {
            (word >> (2 * k)) & 3
        },
{
}

/// A vector of `OptBool` that packs each item into two bits.
pub struct OptBoolVec {
    words: Vec<u64>,
    len: usize,
}

impl View for OptBoolVec {
    type V = Seq<OptBool>;

    closed spec fn view(&self) -> Seq<OptBool> {
        Seq::new(
            self.len as nat,
            |i: int| decode_bits(slot_bits(self.words@[i / 32], (i % 32) as u64)),
        )
    }
}

impl OptBoolVec {
    /// Every item has a word to live in.
    pub closed spec fn wf(&self) -> bool {
        self.words@.len() * 32 >= self.len
    }

    /// A vector without items.
    pub fn new() -> (v: OptBoolVec)
        ensures
            v.wf(),
            v@ == Seq::<OptBool>::empty(),
    {
        OptBoolVec { words: Vec::new(), len: 0 }
    }

    /// A vector of `len` items, all unassigned.
    pub fn new_unassigned(len: usize) -> (v: OptBoolVec)
        ensures
            v.wf(),
            v@.len() == len,
            forall|i: int| 0 <= i < len ==> v@[i] == OptBool::Unassigned,
    {
        let extra: usize = if len % ITEMS_PER_WORD == 0 { 0 } else { 1 };
        let num_words: usize = len / ITEMS_PER_WORD + extra;
        let mut words: Vec<u64> = Vec::new();
        let mut n: usize = 0;
        while n < num_words
            invariant
                n <= num_words,
                words@.len() == n,
                forall|j: int| 0 <= j < n ==> words@[j] == UNASSIGNED_WORD,
            decreases num_words - n,
        {
            words.push(UNASSIGNED_WORD);
            n = n + 1;
        }
        let v = OptBoolVec { words, len };
        assert forall|i: int| 0 <= i < len implies v@[i] == OptBool::Unassigned by {
            lemma_unassigned_word((i % 32) as u64);
        }
        v
    }

    /// The number of items.
    pub fn len(&self) -> (n: usize)
        ensures
            n == self@.len(),
    {
        self.len
    }

    /// Whether the vector holds no item.
    pub fn is_empty(&self) -> (empty: bool)
        ensures
            empty == (self@.len() == 0),
    {
        self.len == 0
    }

    /// The item at `index`, which must be below the length.
    pub fn get_unchecked(&self, index: usize) -> (state: OptBool)
        requires
            self.wf(),
            index < self@.len(),
        ensures
            state == self@[index as int],
    {
        let word_idx: usize = index / ITEMS_PER_WORD;
        let k: u64 = (index % ITEMS_PER_WORD) as u64;
        let word: u64 = self.words[word_idx];
        let bits: u64 = (word >> (2 * k)) & 3;
        if bits == 0 {
            OptBool::False
        } else if bits == 1 {
            OptBool::True
        } else {
            OptBool::Unassigned
        }
    }

    /// Writes `value` at `index`, which must be below the length, and leaves
    /// every other item as it was.
    pub fn set_unchecked(&mut self, index: usize, value: OptBool)
        requires
            old(self).wf(),
            index < old(self)@.len(),
        ensures
            final(self).wf(),
            final(self)@ == old(self)@.update(index as int, value),
    {
        let word_idx: usize = index / ITEMS_PER_WORD;
        let k: u64 = (index % ITEMS_PER_WORD) as u64;
        let bits: u64 = match value {
            OptBool::False => 0,
            OptBool::True => 1,
            OptBool::Unassigned => 2,
        };
        let word: u64 = self.words[word_idx];
        let fresh: u64 = (word & !(3u64 << (2 * k))) | (bits << (2 * k));
        self.words.set(word_idx, fresh);
        assert forall|i: int| 0 <= i < self.len implies self@[i] == old(self)@.update(
            index as int,
            value,
        )[i] by {
            if i / 32 == word_idx as int {
                lemma_write_slot(word, bits, k, (i % 32) as u64);
            }
        }
        assert(self@ =~= old(self)@.update(index as int, value));
    }
}

} // verus!
