//! A growable, indexable sequence of single bits, packed into fixed-width
//! 64-bit words. The abstract value of a `BitVector` is a `Seq<bool>`; bits
//! beyond the logical length live in the backing words but are never exposed.

use vstd::prelude::*;

verus! {

/// Bit `offset` of the word `word`, as a boolean.
pub open spec fn bit_of(word: u64, offset: u64) -> bool {
    (word >> offset) & 1 == 1
}

#[derive(Debug)]
pub struct BitVector {
    len: usize,
    words: Vec<u64>,
}

impl PartialEq for BitVector {
    /// Two bit containers are equal when they hold the same bits; backing
    /// words beyond the logical length do not count.
    fn eq(&self, other: &BitVector) -> (r: bool) {
        if self.len != other.len {
            return false;
        }
        let mut i: usize = 0;
        while i < self.len
            invariant
                i <= self.len,
                self@.len() == self.len,
                other@.len() == self.len,
                forall|j: int| 0 <= j < i ==> self@[j] == other@[j],
            decreases self.len - i,
        {
            let a = match self.get(i) {
                Some(x) => x,
                None => false,
            };
            let b = match other.get(i) {
                Some(x) => x,
                None => false,
            };
            if a != b {
                return false;
            }
            i = i + 1;
        }
        proof {
            assert(self@ =~= other@);
        }
        true
    }
}

impl Eq for BitVector {

}

impl vstd::std_specs::cmp::PartialEqSpecImpl for BitVector {
    open spec fn obeys_eq_spec() -> bool {
        true
    }

    open spec fn eq_spec(&self, other: &BitVector) -> bool {
        self@ == other@
    }
}

impl View for BitVector {
    type V = Seq<bool>;

    closed spec fn view(&self) -> Seq<bool> {
        Seq::new(self.len as nat, |i: int| bit_of(self.words@[i / 64], (i % 64) as u64))
    }
}

/// `x >> 6` and `x & 63` are division and remainder by the word width.
proof fn lemma_word_split(x: usize)
    by (bit_vector)
    ensures
        x >> 6 == x / 64,
        x & 63 == x % 64,
        x & 63 < 64,
{
}

/// Setting or clearing one bit of a word changes that bit alone.
proof fn lemma_bit_update(w: u64, k: u64, v: bool)
    by (bit_vector)
    requires
        k < 64,
    ensures
        bit_of(w & !(1u64 << k) | ((if v { 0xffff_ffff_ffff_ffffu64 } else { 0u64 }) & (1u64 << k)), k) == v,
        forall|j: u64|
            j < 64 && j != k ==> bit_of(
                w & !(1u64 << k) | ((if v { 0xffff_ffff_ffff_ffffu64 } else { 0u64 }) & (1u64 << k)),
                j,
            ) == bit_of(w, j),
{
}

/// The all-zero and all-one words read as constant bits at every offset.
proof fn lemma_constant_words()
    by (bit_vector)
    ensures
        forall|j: u64| j < 64 ==> !bit_of(0u64, j),
        forall|j: u64| j < 64 ==> bit_of(0xffff_ffff_ffff_ffffu64, j),
        forall|j: u64| 0 < j < 64 ==> !bit_of(1u64, j),
        bit_of(1u64, 0),
{
}

impl BitVector {
    /// Logical length is covered by the backing words.
    #[verifier::type_invariant]
    spec fn wf(&self) -> bool {
        self.len as int <= self.words@.len() * 64
    }

    pub fn new() -> (r: BitVector)
        ensures
            r@ == Seq::<bool>::empty(),
    {
        let r = BitVector { len: 0, words: Vec::new() };
        proof {
            assert(r@ =~= Seq::<bool>::empty());
        }
        r
    }

    pub fn len(&self) -> (r: usize)
        ensures
            r == self@.len(),
    {
        self.len
    }

    /// The logical length always fits the platform's word.
    pub proof fn lemma_len_fits(&self)
        ensures
            self@.len() <= usize::MAX,
    {
    }

    pub fn is_empty(&self) -> (r: bool)
        ensures
            r == (self@.len() == 0),
    {
        self.len == 0
    }

    pub fn get(&self, index: usize) -> (r: Option<bool>)
        ensures
            r == if (index as int) < self@.len() {
                Some(self@[index as int])
            } else {
                None::<bool>
            },
    {
        proof {
            use_type_invariant(&*self);
        }
        if index >= self.len {
            return None;
        }
        let word_index = index >> 6;
        let word_offset = (index & 63) as u64;
        proof {
            lemma_word_split(index);
            vstd::arithmetic::div_mod::lemma_fundamental_div_mod(index as int, 64);
            assert(index as int / 64 < self.words@.len());
        }
        Some(self.words[word_index] >> word_offset & 1 == 1)
    }

    pub fn push(&mut self, value: bool)
        requires
            old(self)@.len() < usize::MAX,
        ensures
            final(self)@ == old(self)@.push(value),
    {
        proof {
            use_type_invariant(&*self);
        }
        let ghost prior = *self;
        let n = self.len;
        let word_index = n >> 6;
        proof {
            lemma_word_split(n);
            vstd::arithmetic::div_mod::lemma_fundamental_div_mod(n as int, 64);
        }
        // Growing the backing store may reallocate, so it happens on a local
        // vector, with the invariant-carrying fields parked in a safe state.
        self.len = 0;
        let mut words: Vec<u64> = Vec::new();
        core::mem::swap(&mut words, &mut self.words);
        if word_index == words.len() {
            words.push(if value {
                1
            } else {
                0
            });
            proof {
                lemma_constant_words();
            }
        } else {
            let word_offset = (n & 63) as u64;
            let word = words[word_index];
            let set_bit = 1u64 << word_offset;
            words[word_index] = word & !set_bit | Self::fill_word(value) & set_bit;
            proof {
                lemma_bit_update(word, word_offset, value);
            }
        }
        core::mem::swap(&mut words, &mut self.words);
        self.len = n + 1;
        proof {
            assert forall|i: int| 0 <= i < prior.len implies self@[i] == prior@[i] by {
                vstd::arithmetic::div_mod::lemma_fundamental_div_mod(i, 64);
                vstd::arithmetic::div_mod::lemma_fundamental_div_mod(prior.len as int, 64);
            }
            assert(self@ =~= prior@.push(value));
        }
    }

    /// The word whose every bit is `value`.
    fn fill_word(value: bool) -> (r: u64)
        ensures
            r == if value { 0xffff_ffff_ffff_ffffu64 } else { 0u64 },
    {
        if value {
            0xffff_ffff_ffff_ffff
        } else {
            0
        }
    }

    pub fn pop(&mut self) -> (r: Option<bool>)
        ensures
            match r {
                None => old(self)@.len() == 0 && final(self)@ == old(self)@,
                Some(b) => old(self)@.len() > 0 && b == old(self)@.last() && final(self)@
                    == old(self)@.drop_last(),
            },
    {
        proof {
            use_type_invariant(&*self);
        }
        if self.len == 0 {
            return None;
        }
        let last = self.len - 1;
        let r = self.get(last);
        self.len = last;
        proof {
            assert(self@ =~= old(self)@.drop_last());
        }
        r
    }

    pub fn set(&mut self, index: usize, value: bool) -> (r: Option<()>)
        ensures
            match r {
                None => index as int >= old(self)@.len() && final(self)@ == old(self)@,
                Some(u) => (index as int) < old(self)@.len() && final(self)@ == old(self)@.update(
                    index as int,
                    value,
                ),
            },
    {
        proof {
            use_type_invariant(&*self);
        }
        if index >= self.len {
            return None;
        }
        let word_index = index >> 6;
        let word_offset = (index & 63) as u64;
        proof {
            lemma_word_split(index);
            vstd::arithmetic::div_mod::lemma_fundamental_div_mod(index as int, 64);
        }
        let word = self.words[word_index];
        let set_bit = 1u64 << word_offset;
        self.words[word_index] = word & !set_bit | Self::fill_word(value) & set_bit;
        proof {
            lemma_bit_update(word, word_offset, value);
            assert forall|i: int| 0 <= i < self@.len() && i != index as int implies self@[i]
                == old(self)@[i] by {
                vstd::arithmetic::div_mod::lemma_fundamental_div_mod(i, 64);
            }
            assert(self@ =~= old(self)@.update(index as int, value));
        }
        Some(())
    }

    pub fn clear(&mut self)
        ensures
            final(self)@ == Seq::<bool>::empty(),
    {
        self.len = 0;
        proof {
            assert(self@ =~= Seq::<bool>::empty());
        }
    }

    /// Overwrites every bit within the logical length, one word at a time.
    pub fn fill(&mut self, value: bool)
        ensures
            final(self)@.len() == old(self)@.len(),
            forall|i: int| 0 <= i < final(self)@.len() ==> final(self)@[i] == value,
    {
        let filled = Self::fill_word(value);
        proof {
            use_type_invariant(&*self);
            lemma_word_split(self.len);
            vstd::arithmetic::div_mod::lemma_fundamental_div_mod(self.len as int, 64);
        }
        let tail: usize = if self.len & 63 > 0 {
            1
        } else {
            0
        };
        let n_words = (self.len >> 6) + tail;
        proof {
            assert(n_words <= self.words@.len());
        }
        let mut k: usize = 0;
        while k < n_words
            invariant
                self.wf(),
                k <= n_words,
                n_words <= self.words@.len(),
                self.len == old(self).len,
                self.words@.len() == old(self).words@.len(),
                forall|w: int| 0 <= w < k ==> self.words@[w] == filled,
                forall|w: int| k <= w < self.words@.len() ==> self.words@[w] == old(
                    self,
                ).words@[w],
                filled == if value { 0xffff_ffff_ffff_ffffu64 } else { 0u64 },
            decreases n_words - k,
        {
            self.words[k] = filled;
            k = k + 1;
        }
        proof {
            lemma_constant_words();
            assert forall|i: int| 0 <= i < self@.len() implies self@[i] == value by {
                vstd::arithmetic::div_mod::lemma_fundamental_div_mod(i, 64);
                vstd::arithmetic::div_mod::lemma_fundamental_div_mod(self.len as int, 64);
                assert(i / 64 < n_words);
            }
        }
    }

    /// Appends every bit of `other`, reserving backing words up front.
    pub fn extend(&mut self, other: &BitVector)
        requires
            old(self)@.len() + other@.len() <= usize::MAX,
        ensures
            final(self)@ == old(self)@ + other@,
    {
        proof {
            use_type_invariant(&*self);
        }
        let extra = other.len();
        proof {
            lemma_word_split(extra);
            vstd::arithmetic::div_mod::lemma_fundamental_div_mod(extra as int, 64);
        }
        // Reserving may reallocate, so it happens on a local vector, with the
        // invariant-carrying fields parked in a safe state.
        let n = self.len;
        self.len = 0;
        let mut words: Vec<u64> = Vec::new();
        core::mem::swap(&mut words, &mut self.words);
        words.reserve((extra >> 6) + 1);
        core::mem::swap(&mut words, &mut self.words);
        self.len = n;
        proof {
            assert(self@ =~= old(self)@);
            assert(self@ =~= old(self)@ + other@.take(0));
        }
        let mut i: usize = 0;
        while i < extra
            invariant
                i <= extra,
                extra == other@.len(),
                old(self)@.len() + other@.len() <= usize::MAX,
                self@ == old(self)@ + other@.take(i as int),
            decreases extra - i,
        {
            match other.get(i) {
                Some(b) => {
                    self.push(b);
                    proof {
                        assert(self@ =~= old(self)@ + other@.take(i + 1));
                    }
                },
                None => {},
            }
            i = i + 1;
        }
        proof {
            assert(other@.take(extra as int) =~= other@);
        }
    }

    /// Builds a bit container holding exactly the given bits.
    pub fn from_bools(values: &Vec<bool>) -> (r: BitVector)
        ensures
            r@ == values@,
    {
        let mut r = BitVector::new();
        let mut i: usize = 0;
        while i < values.len()
            invariant
                i <= values@.len(),
                r@ == values@.take(i as int),
            decreases values@.len() - i,
        {
            r.push(values[i]);
            proof {
                assert(r@ =~= values@.take(i + 1));
            }
            i = i + 1;
        }
        proof {
            assert(values@.take(values@.len() as int) =~= values@);
        }
        r
    }

    pub fn with_capacity(capacity: usize) -> (r: BitVector)
        ensures
            r@ == Seq::<bool>::empty(),
    {
        proof {
            lemma_word_split(capacity);
            vstd::arithmetic::div_mod::lemma_fundamental_div_mod(capacity as int, 64);
        }
        let tail: usize = if capacity & 63 > 0 {
            1
        } else {
            0
        };
        let r = BitVector { len: 0, words: Vec::with_capacity((capacity >> 6) + tail) };
        proof {
            assert(r@ =~= Seq::<bool>::empty());
        }
        r
    }

    /// How many bits fit in the backing store the allocator has granted: a
    /// whole number of words, at least the current length, beyond that
    /// allocator-dependent. A store too large to measure in bits reads as
    /// the platform maximum.
    pub fn capacity(&self) -> (r: usize)
        ensures
            r >= self@.len(),
            r == usize::MAX || r as int % 64 == 0,
    {
        proof {
            use_type_invariant(&*self);
        }
        let words_cap = vec_capacity(&self.words);
        if words_cap > usize::MAX / 64 {
            usize::MAX
        } else {
            proof {
                vstd::arithmetic::div_mod::lemma_fundamental_div_mod(usize::MAX as int, 64);
                vstd::arithmetic::div_mod::lemma_mod_multiples_basic(words_cap as int, 64);
            }
            words_cap * 64
        }
    }

    /// One-shot iteration over the bits, left to right.
    pub fn iter(&self) -> (r: Iter<'_>)
        ensures
            r.source() == self@,
            r.cursor() == 0,
    {
        Iter { bits: self, index: 0 }
    }

    /// One-shot iteration over the bits, consuming the container.
    pub fn into_iter(self) -> (r: IntoIter)
        ensures
            r.source() == self@,
            r.cursor() == 0,
    {
        IntoIter { bits: self, index: 0 }
    }

    /// One-shot emission as packed bytes, least-significant bit first.
    pub fn bytes(&self) -> (r: Bytes<'_>)
        ensures
            r.stream() == self@,
            r.cursor() == 0,
    {
        Bytes { bits: self, byte_index: 0 }
    }
}

/// Relies on std's `Vec::capacity`: a vector's capacity is documented to be
/// at least its length.
#[verifier::external_body]
fn vec_capacity(v: &Vec<u64>) -> (r: usize)
    ensures
        r >= v@.len(),
{
    v.capacity()
}

/// Bit `offset` of the byte `byte`, as a boolean.
pub open spec fn bit_of8(byte: u8, offset: u64) -> bool {
    (byte >> offset) & 1 == 1
}

pub struct Iter<'a> {
    bits: &'a BitVector,
    index: usize,
}

impl<'a> Iter<'a> {
    #[verifier::type_invariant]
    spec fn wf(&self) -> bool {
        self.index as int <= self.bits@.len()
    }

    pub closed spec fn source(&self) -> Seq<bool> {
        self.bits@
    }

    pub closed spec fn cursor(&self) -> int {
        self.index as int
    }

    pub fn next(&mut self) -> (r: Option<bool>)
        ensures
            final(self).source() == old(self).source(),
            if old(self).cursor() < old(self).source().len() {
                r == Some(old(self).source()[old(self).cursor()]) && final(self).cursor() == old(
                    self,
                ).cursor() + 1
            } else {
                r is None && final(self).cursor() == old(self).cursor()
            },
    {
        proof {
            use_type_invariant(&*self);
        }
        let r = self.bits.get(self.index);
        if r.is_some() {
            self.index = self.index + 1;
        }
        r
    }
}

pub struct IntoIter {
    bits: BitVector,
    index: usize,
}

impl IntoIter {
    #[verifier::type_invariant]
    spec fn wf(&self) -> bool {
        self.index as int <= self.bits@.len()
    }

    pub closed spec fn source(&self) -> Seq<bool> {
        self.bits@
    }

    pub closed spec fn cursor(&self) -> int {
        self.index as int
    }

    pub fn next(&mut self) -> (r: Option<bool>)
        ensures
            final(self).source() == old(self).source(),
            if old(self).cursor() < old(self).source().len() {
                r == Some(old(self).source()[old(self).cursor()]) && final(self).cursor() == old(
                    self,
                ).cursor() + 1
            } else {
                r is None && final(self).cursor() == old(self).cursor()
            },
    {
        proof {
            use_type_invariant(&*self);
        }
        let r = self.bits.get(self.index);
        if r.is_some() {
            self.index = self.index + 1;
        }
        r
    }
}

pub struct Bytes<'a> {
    bits: &'a BitVector,
    byte_index: usize,
}

/// The byte at offset `off` of the word `w`, keeping only its low `rem` bits
/// when `rem < 8`, reads exactly the bits of the word.
proof fn lemma_extract_byte(w: u64, off: u64, b: u8, rem: u64)
    by (bit_vector)
    requires
        off <= 56,
        off % 8 == 0,
        1 <= rem <= 8,
        b == if rem < 8 {
            ((w >> off) as u8) & (((1u8 << rem) - 1) as u8)
        } else {
            (w >> off) as u8
        },
    ensures
        forall|j: u64| j < 8 ==> (bit_of8(b, j) <==> (j < rem && bit_of(w, (off + j) as u64))),
{
}

impl<'a> Bytes<'a> {
    #[verifier::type_invariant]
    spec fn wf(&self) -> bool {
        8 * (self.byte_index as int) <= self.bits@.len() + 8
    }

    pub closed spec fn stream(&self) -> Seq<bool> {
        self.bits@
    }

    pub closed spec fn cursor(&self) -> int {
        self.byte_index as int
    }

    /// The next packed byte: eight bits, least-significant-bit first; in the
    /// final partial byte the unused high positions are zero.
    pub fn next(&mut self) -> (r: Option<u8>)
        ensures
            final(self).stream() == old(self).stream(),
            if 8 * old(self).cursor() < old(self).stream().len() {
                &&& final(self).cursor() == old(self).cursor() + 1
                &&& match r {
                    Some(b) => forall|j: u64|
                        j < 8 ==> (bit_of8(b, j) <==> (8 * old(self).cursor() + j
                            < old(self).stream().len() && old(self).stream()[8 * old(self).cursor()
                            + j])),
                    None => false,
                }
            } else {
                r is None && final(self).cursor() == old(self).cursor()
            },
    {
        proof {
            use_type_invariant(&*self);
            use_type_invariant(&*self.bits);
        }
        let len = self.bits.len;
        if self.bits.len == 0 || self.byte_index > (self.bits.len - 1) / 8 {
            proof {
                vstd::arithmetic::div_mod::lemma_fundamental_div_mod(len as int - 1, 8);
            }
            return None;
        }
        let k = self.byte_index;
        proof {
            vstd::arithmetic::div_mod::lemma_fundamental_div_mod(len as int - 1, 8);
            assert(8 * (k as int) < len as int);
        }
        let bit_index = 8 * k;
        let word_index = bit_index >> 6;
        let word_offset = (bit_index & 63) as u64;
        proof {
            lemma_word_split(bit_index);
            vstd::arithmetic::div_mod::lemma_fundamental_div_mod(bit_index as int, 64);
            vstd::arithmetic::div_mod::lemma_fundamental_div_mod(bit_index as int, 8);
            lemma_offset_of_byte(bit_index);
            assert(bit_index as int / 64 < self.bits.words@.len());
        }
        let word = self.bits.words[word_index];
        let whole = #[verifier::truncate] ((word >> word_offset) as u8);
        let rem_bits = len - bit_index;
        let b = if rem_bits < 8 {
            let shift_amt = rem_bits as u64;
            proof {
                assert(1u8 << shift_amt >= 2) by (bit_vector)
                    requires
                        1 <= shift_amt && shift_amt < 8,
                ;
            }
            whole & ((1u8 << shift_amt) - 1)
        } else {
            whole
        };
        let ghost rem: u64 = if rem_bits < 8 {
            rem_bits as u64
        } else {
            8u64
        };
        self.byte_index = k + 1;
        proof {
            lemma_extract_byte(word, word_offset, b, rem@);
            assert forall|j: u64| j < 8 implies (bit_of8(b, j) <==> (8 * k as int + j
                < self.bits@.len() && self.bits@[8 * k as int + j])) by {
                if j < rem@ {
                    vstd::arithmetic::div_mod::lemma_fundamental_div_mod_converse(
                        8 * k as int + j,
                        64,
                        bit_index as int / 64,
                        word_offset as int + j,
                    );
                }
            }
        }
        Some(b)
    }
}

/// A bit index that is a multiple of eight sits at a byte-aligned offset
/// within its word.
proof fn lemma_offset_of_byte(bit_index: usize)
    by (bit_vector)
    requires
        bit_index % 8 == 0,
    ensures
        (bit_index & 63) % 8 == 0,
        bit_index & 63 <= 56,
{
}

} // verus!
