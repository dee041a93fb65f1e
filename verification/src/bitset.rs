//! A packed bit array over 64-bit words, the backing store of every Bloom
//! filter.  The view of a bitset is the sequence of its bits; all operations
//! are specified against that view.

use vstd::prelude::*;

verus! {

/// Whether bit `k` of word `w` is set; meaningful for `k < 64`.
pub open spec fn word_bit(w: u64, k: u64) -> bool {
    (w >> k) & 1u64 == 1u64
}

proof fn lemma_zero_word_bit(k: u64)
    requires k < 64,
    ensures !word_bit(0u64, k),
{
    assert((0u64 >> k) & 1u64 == 0u64) by (bit_vector);
}

proof fn lemma_set_bit_true(w: u64, k: u64, j: u64)
    requires k < 64, j < 64,
    ensures word_bit(w | (1u64 << k), j) == (j == k || word_bit(w, j)),
{
    assert((((w | (1u64 << k)) >> j) & 1u64 == 1u64) == (j == k || (w >> j) & 1u64 == 1u64))
        by (bit_vector)
        requires k < 64, j < 64;
}

proof fn lemma_set_bit_false(w: u64, k: u64, j: u64)
    requires k < 64, j < 64,
    ensures word_bit(w & !(1u64 << k), j) == (j != k && word_bit(w, j)),
{
    assert((((w & !(1u64 << k)) >> j) & 1u64 == 1u64) == (j != k && (w >> j) & 1u64 == 1u64))
        by (bit_vector)
        requires k < 64, j < 64;
}

proof fn lemma_or_bit(a: u64, b: u64, j: u64)
    requires j < 64,
    ensures word_bit(a | b, j) == (word_bit(a, j) || word_bit(b, j)),
{
    assert((((a | b) >> j) & 1u64 == 1u64) == ((a >> j) & 1u64 == 1u64 || (b >> j) & 1u64
        == 1u64)) by (bit_vector)
        requires j < 64;
}

proof fn lemma_and_bit(a: u64, b: u64, j: u64)
    requires j < 64,
    ensures word_bit(a & b, j) == (word_bit(a, j) && word_bit(b, j)),
{
    assert((((a & b) >> j) & 1u64 == 1u64) == ((a >> j) & 1u64 == 1u64 && (b >> j) & 1u64
        == 1u64)) by (bit_vector)
        requires j < 64;
}

/// How many entries of `s` are true.
pub open spec fn count_trues(s: Seq<bool>) -> nat
    decreases s.len(),
{
    if s.len() == 0 {
        0
    } else {
        count_trues(s.drop_last()) + (if s.last() { 1nat } else { 0nat })
    }
}

/// A fixed-size array of bits, packed 64 to a word.
#[derive(Clone, Debug)]
pub struct Bitset {
    words: Vec<u64>,
    nbits: usize,
}

impl View for Bitset {
    type V = Seq<bool>;

    closed spec fn view(&self) -> Seq<bool> {
        Seq::new(self.nbits as nat, |i: int| word_bit(self.words@[i / 64], (i % 64) as u64))
    }
}

impl Bitset {
    /// The words hold exactly the bits, and every slack bit past the end
    /// stays clear, so equal views mean equal words.
    pub closed spec fn well_formed(&self) -> bool {
        &&& self.words@.len() == (self.nbits + 63) / 64
        &&& forall|i: int| self.nbits <= i < self.words@.len() * 64
            ==> !word_bit(#[trigger] self.words@[i / 64], (i % 64) as u64)
    }

    /// How many bits the set holds.
    pub fn size(&self) -> (r: usize)
        ensures r == self@.len(),
    {
        self.nbits
    }

    /// The bit count always fits a machine word.
    pub proof fn lemma_len_bound(&self)
        ensures self@.len() <= usize::MAX,
    {
    }

    /// A bitset of `size` bits, all clear.
    pub fn new(size: usize) -> (r: Bitset)
        requires size + 63 <= usize::MAX,
        ensures
            r.well_formed(),
            r@.len() == size,
            forall|i: int| 0 <= i < size ==> !r@[i],
    {
        let nwords = (size + 63) / 64;
        let mut words: Vec<u64> = Vec::new();
        let mut i: usize = 0;
        while i < nwords
            invariant
                i <= nwords,
                words@.len() == i,
                forall|j: int| 0 <= j < i ==> words@[j] == 0u64,
            decreases nwords - i,
        {
            words.push(0u64);
            i += 1;
        }
        let r = Bitset { words, nbits: size };
        proof {
            assert forall|j: int| 0 <= j < r.words@.len() * 64 implies !word_bit(
                #[trigger] r.words@[j / 64],
                (j % 64) as u64,
            ) by {
                lemma_zero_word_bit((j % 64) as u64);
            }
        }
        r
    }

    /// Read bit `index`.
    pub fn get(&self, index: usize) -> (r: bool)
        requires
            self.well_formed(),
            index < self@.len(),
        ensures r == self@[index as int],
    {
        let w = self.words[index / 64];
        let k = (index % 64) as u64;
        (w >> k) & 1u64 == 1u64
    }

    /// Write bit `index`; every other bit is unchanged.
    pub fn set(&mut self, index: usize, value: bool)
        requires
            old(self).well_formed(),
            index < old(self)@.len(),
        ensures
            final(self).well_formed(),
            final(self)@ =~= old(self)@.update(index as int, value),
    {
        let wi = index / 64;
        let k = (index % 64) as u64;
        let w = self.words[wi];
        let new_w = if value {
            w | (1u64 << k)
        } else {
            w & !(1u64 << k)
        };
        self.words.set(wi, new_w);
        proof {
            assert forall|j: int| 0 <= j < self.words@.len() * 64 implies (word_bit(
                #[trigger] self.words@[j / 64],
                (j % 64) as u64,
            ) == if j == index {
                value
            } else {
                word_bit(old(self).words@[j / 64], (j % 64) as u64)
            }) by {
                if value {
                    lemma_set_bit_true(w, k, (j % 64) as u64);
                } else {
                    lemma_set_bit_false(w, k, (j % 64) as u64);
                }
            }
        }
    }

    /// Whether the two sets hold the same number of bits.
    pub fn eq_size(&self, other: &Bitset) -> (r: bool)
        ensures r == (self@.len() == other@.len()),
    {
        self.nbits == other.nbits
    }

    /// Bitwise OR with an equally sized set.
    pub fn union(&self, other: &Bitset) -> (r: Bitset)
        requires
            self.well_formed(),
            other.well_formed(),
            self@.len() == other@.len(),
        ensures
            r.well_formed(),
            r@.len() == self@.len(),
            forall|i: int| 0 <= i < r@.len() ==> r@[i] == (self@[i] || other@[i]),
    {
        let mut words: Vec<u64> = Vec::new();
        let n = self.words.len();
        let mut i: usize = 0;
        while i < n
            invariant
                i <= n,
                n == self.words@.len(),
                self.words@.len() == other.words@.len(),
                words@.len() == i,
                forall|j: int| 0 <= j < i ==> words@[j] == (self.words@[j] | other.words@[j]),
            decreases n - i,
        {
            words.push(self.words[i] | other.words[i]);
            i += 1;
        }
        let r = Bitset { words, nbits: self.nbits };
        proof {
            assert forall|j: int| 0 <= j < r.words@.len() * 64 implies (word_bit(
                #[trigger] r.words@[j / 64],
                (j % 64) as u64,
            ) == (word_bit(self.words@[j / 64], (j % 64) as u64) || word_bit(
                other.words@[j / 64],
                (j % 64) as u64,
            ))) by {
                lemma_or_bit(self.words@[j / 64], other.words@[j / 64], (j % 64) as u64);
            }
        }
        r
    }

    /// Bitwise AND with an equally sized set.
    pub fn intersect(&self, other: &Bitset) -> (r: Bitset)
        requires
            self.well_formed(),
            other.well_formed(),
            self@.len() == other@.len(),
        ensures
            r.well_formed(),
            r@.len() == self@.len(),
            forall|i: int| 0 <= i < r@.len() ==> r@[i] == (self@[i] && other@[i]),
    {
        let mut words: Vec<u64> = Vec::new();
        let n = self.words.len();
        let mut i: usize = 0;
        while i < n
            invariant
                i <= n,
                n == self.words@.len(),
                self.words@.len() == other.words@.len(),
                words@.len() == i,
                forall|j: int| 0 <= j < i ==> words@[j] == (self.words@[j] & other.words@[j]),
            decreases n - i,
        {
            words.push(self.words[i] & other.words[i]);
            i += 1;
        }
        let r = Bitset { words, nbits: self.nbits };
        proof {
            assert forall|j: int| 0 <= j < r.words@.len() * 64 implies (word_bit(
                #[trigger] r.words@[j / 64],
                (j % 64) as u64,
            ) == (word_bit(self.words@[j / 64], (j % 64) as u64) && word_bit(
                other.words@[j / 64],
                (j % 64) as u64,
            ))) by {
                lemma_and_bit(self.words@[j / 64], other.words@[j / 64], (j % 64) as u64);
            }
        }
        r
    }

    /// How many bits are set.
    pub fn count_ones(&self) -> (r: usize)
        requires self.well_formed(),
        ensures r == count_trues(self@),
    {
        let mut count: usize = 0;
        let mut i: usize = 0;
        while i < self.nbits
            invariant
                self.well_formed(),
                i <= self@.len(),
                self.nbits == self@.len(),
                count == count_trues(self@.subrange(0, i as int)),
                count <= i,
            decreases self@.len() - i,
        {
            proof {
                assert(self@.subrange(0, i + 1).drop_last() =~= self@.subrange(0, i as int));
                assert(self@.subrange(0, i + 1).last() == self@[i as int]);
            }
            if self.get(i) {
                count += 1;
            }
            i += 1;
        }
        proof {
            assert(self@.subrange(0, self@.len() as int) =~= self@);
        }
        count
    }

    /// The packed words, little-endian, eight bytes per word; slack bits
    /// are clear, so the bytes are determined by the view.
    pub fn to_bytes(&self) -> (r: Vec<u8>)
        ensures
            r@ == bytes_of_words(self.to_words()),
            r@.len() == self.to_words().len() * 8,
    {
        let mut out: Vec<u8> = Vec::new();
        let mut i: usize = 0;
        while i < self.words.len()
            invariant
                i <= self.words@.len(),
                out@ =~= bytes_of_words(self.words@.subrange(0, i as int)),
                out@.len() == i * 8,
            decreases self.words@.len() - i,
        {
            let word_bytes = vstd::bytes::u64_to_le_bytes(self.words[i]);
            crate::digest::append_bytes(&mut out, &word_bytes);
            i += 1;
            proof {
                assert(self.words@.subrange(0, i as int).drop_last() =~= self.words@.subrange(
                    0,
                    i - 1,
                ));
                assert(out@ =~= bytes_of_words(self.words@.subrange(0, i as int)));
            }
        }
        proof {
            assert(self.words@.subrange(0, self.words@.len() as int) =~= self.words@);
        }
        out
    }

    /// Rebuild a bitset from `size` and packed little-endian words.
    pub fn from_parts(size: usize, bytes: &Vec<u8>) -> (r: Option<Bitset>)
        requires size + 63 <= usize::MAX,
        ensures
            r is Some <==> (bytes@.len() == ((size + 63) / 64) * 8 && slack_ok(
                size as int,
                words_of_bytes(bytes@),
            )),
            match r {
                Some(b) => {
                    &&& b.well_formed()
                    &&& b@.len() == size
                    &&& b.to_words() == words_of_bytes(bytes@)
                    &&& bytes@.len() == ((size + 63) / 64) * 8
                },
                None => true,
            },
    {
        let nwords = (size + 63) / 64;
        if bytes.len() != nwords * 8 {
            return None;
        }
        let mut words: Vec<u64> = Vec::new();
        let mut i: usize = 0;
        while i < nwords
            invariant
                i <= nwords,
                bytes@.len() == nwords * 8,
                bytes@.len() <= usize::MAX,
                words@.len() == i,
                words@ =~= words_of_bytes(bytes@).subrange(0, i as int),
            decreases nwords - i,
        {
            let mut chunk: Vec<u8> = Vec::new();
            let mut j: usize = 0;
            while j < 8
                invariant
                    j <= 8,
                    i < nwords,
                    bytes@.len() == nwords * 8,
                    bytes@.len() <= usize::MAX,
                    chunk@ =~= bytes@.subrange(i * 8, i * 8 + j),
                decreases 8 - j,
            {
                proof {
                    assert(i * 8 + j < nwords * 8);
                }
                chunk.push(bytes[i * 8 + j]);
                j += 1;
                proof {
                    assert(chunk@ =~= bytes@.subrange(i * 8, i * 8 + j as int));
                }
            }
            let w = vstd::bytes::u64_from_le_bytes(chunk.as_slice());
            words.push(w);
            i += 1;
            proof {
                assert(words@ =~= words_of_bytes(bytes@).subrange(0, i as int));
            }
        }
        proof {
            assert(words@ =~= words_of_bytes(bytes@));
        }
        let r = Bitset { words, nbits: size };
        if r.slack_clear() {
            Some(r)
        } else {
            None
        }
    }

    /// The raw words, for specification purposes.
    pub closed spec fn to_words(&self) -> Seq<u64> {
        self.words@
    }

    /// An exact copy, sharing nothing with the original.
    pub fn duplicate(&self) -> (r: Bitset)
        ensures
            r.to_words() == self.to_words(),
            r@ == self@,
            r.well_formed() == self.well_formed(),
    {
        let mut words: Vec<u64> = Vec::new();
        let mut i: usize = 0;
        while i < self.words.len()
            invariant
                i <= self.words@.len(),
                words@ =~= self.words@.subrange(0, i as int),
            decreases self.words@.len() - i,
        {
            words.push(self.words[i]);
            i += 1;
            proof {
                assert(words@ =~= self.words@.subrange(0, i as int));
            }
        }
        proof {
            assert(words@ =~= self.words@);
        }
        Bitset { words, nbits: self.nbits }
    }

    /// Decide well-formedness of an arbitrary bitset value.
    pub fn is_well_formed(&self) -> (r: bool)
        ensures r == self.well_formed(),
    {
        let need = if self.nbits % 64 == 0 {
            self.nbits / 64
        } else {
            self.nbits / 64 + 1
        };
        proof {
            assert(need == (self.nbits + 63) / 64);
        }
        if self.words.len() != need {
            return false;
        }
        self.slack_clear()
    }

    /// Check that every bit past the logical end is clear.
    fn slack_clear(&self) -> (r: bool)
        requires
            self.words@.len() == (self.nbits + 63) / 64,
        ensures r == self.well_formed(),
    {
        let total: u128 = (self.words.len() as u128) * 64;
        let mut i: u128 = self.nbits as u128;
        proof {
            assert(total == self.words@.len() * 64);
        }
        while i < total
            invariant
                self.nbits <= i,
                i <= total,
                total == self.words@.len() * 64,
                self.words@.len() == (self.nbits + 63) / 64,
                forall|j: int| self.nbits <= j < i
                    ==> !word_bit(#[trigger] self.words@[j / 64], (j % 64) as u64),
            decreases total - i,
        {
            proof {
                assert((i / 64) < self.words@.len());
            }
            let w = self.words[(i / 64) as usize];
            let k = (i % 64) as u64;
            if (w >> k) & 1u64 == 1u64 {
                return false;
            }
            i += 1;
        }
        true
    }
}

/// Whether every bit of the words at or past `size` is clear.
pub open spec fn slack_ok(size: int, ws: Seq<u64>) -> bool {
    forall|i: int| size <= i < ws.len() * 64 ==> !word_bit(#[trigger] ws[i / 64], (i % 64) as u64)
}

/// Reading words from a dump of words gives the words back.
pub proof fn lemma_words_round_trip(ws: Seq<u64>)
    ensures words_of_bytes(bytes_of_words(ws)) == ws,
    decreases ws.len(),
{
    vstd::bytes::lemma_auto_spec_u64_to_from_le_bytes();
    lemma_bytes_of_words_len(ws);
    if ws.len() == 0 {
        assert(words_of_bytes(bytes_of_words(ws)) =~= ws);
    } else {
        let b = bytes_of_words(ws);
        let front = bytes_of_words(ws.drop_last());
        lemma_bytes_of_words_len(ws.drop_last());
        lemma_words_round_trip(ws.drop_last());
        assert forall|i: int| 0 <= i < ws.len() implies words_of_bytes(b)[i] == ws[i] by {
            if i < ws.len() - 1 {
                assert(b.subrange(i * 8, i * 8 + 8) =~= front.subrange(i * 8, i * 8 + 8));
                assert(words_of_bytes(front)[i] == ws.drop_last()[i]);
            } else {
                assert(b.subrange(i * 8, i * 8 + 8) =~= vstd::bytes::spec_u64_to_le_bytes(
                    ws.last(),
                ));
            }
        }
        assert(words_of_bytes(bytes_of_words(ws)) =~= ws);
    }
}

/// The little-endian byte dump of a word sequence.
pub open spec fn bytes_of_words(ws: Seq<u64>) -> Seq<u8>
    decreases ws.len(),
{
    if ws.len() == 0 {
        Seq::<u8>::empty()
    } else {
        bytes_of_words(ws.drop_last()) + vstd::bytes::spec_u64_to_le_bytes(ws.last())
    }
}

/// A byte dump is eight bytes per word.
pub proof fn lemma_bytes_of_words_len(ws: Seq<u64>)
    ensures bytes_of_words(ws).len() == ws.len() * 8,
    decreases ws.len(),
{
    vstd::bytes::lemma_auto_spec_u64_to_from_le_bytes();
    if ws.len() > 0 {
        lemma_bytes_of_words_len(ws.drop_last());
    }
}

/// The words read back from a little-endian byte dump.
pub open spec fn words_of_bytes(bs: Seq<u8>) -> Seq<u64> {
    Seq::new(bs.len() / 8, |i: int| vstd::bytes::spec_u64_from_le_bytes(bs.subrange(i * 8, i * 8 + 8)))
}

} // verus!
