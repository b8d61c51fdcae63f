//! A growable sequence of bits that behaves as an infinite vector of bits:
//! indices past the stored words read as zero, and trailing zeros are not
//! observable.

use vstd::prelude::*;

verus! {

/// A collection of bits that behaves as an "infinite" vector of bits.
#[derive(Debug)]
pub struct Bits {
    words: Vec<u64>,
}

/// Bit indices handed to `set` and capacities handed to `with_capacity` stay
/// below this limit, so that word counts and bit positions never approach the
/// `usize` range.
pub const BIT_INDEX_LIMIT: usize = 0x0400_0000;

proof fn lemma_zero_word_shift()
    ensures
        forall|sh: u64| (0u64 >> sh) & 1 == 0,
{
    assert(forall|sh: u64| (0u64 >> sh) & 1 == 0) by (bit_vector);
}

impl Bits {
    /// Stored words stay small enough that a bit index never overflows a `usize`.
    #[verifier::type_invariant]
    closed spec fn wf(&self) -> bool {
        self.words.len() <= 0x0010_0000
    }

    /// The bit at position `i`; positions beyond the stored words are zero.
    pub closed spec fn bit(&self, i: int) -> bool {
        0 <= i && i / 64 < self.words.len() && (self.words[i / 64] >> (i % 64) as u64) & 1 == 1
    }

    /// An upper bound past which every bit is zero.
    pub closed spec fn ubound(&self) -> int {
        self.words.len() * 64
    }

    pub proof fn lemma_ubound_nonneg(&self)
        ensures
            self.ubound() >= 0,
    {
        assert(self.words.len() * 64 >= 0) by (nonlinear_arith);
    }

    pub proof fn lemma_bit_negative(&self, i: int)
        requires
            i < 0,
        ensures
            !self.bit(i),
    {
    }

    pub proof fn lemma_bit_past_ubound(&self, i: int)
        requires
            i >= self.ubound(),
        ensures
            !self.bit(i),
    {
        if i >= 0 {
            assert(i / 64 >= self.words.len()) by (nonlinear_arith)
                requires
                    i >= self.words.len() * 64,
                    i >= 0,
            ;
        }
    }

    pub fn new() -> (r: Self)
        ensures
            forall|i: int| !r.bit(i),
    {
        let r = Bits { words: Vec::new() };
        assert(forall|i: int| !r.bit(i));
        r
    }

    pub fn with_capacity(capacity: usize) -> (r: Self)
        requires
            capacity < BIT_INDEX_LIMIT,
        ensures
            forall|i: int| !r.bit(i),
    {
        let mut words: Vec<u64> = Vec::new();
        let q = capacity / 64;
        let n = q + 1;
        proof {
            assert(q * 64 <= capacity) by (nonlinear_arith)
                requires
                    q == capacity / 64,
            ;
            assert(n <= 0x0010_0000) by (nonlinear_arith)
                requires
                    q * 64 <= capacity,
                    capacity < 0x0400_0000usize,
                    n == q + 1,
            ;
        }
        while words.len() < n
            invariant
                n <= 0x0010_0000,
                words.len() <= n,
                forall|j: int| 0 <= j < words.len() ==> words[j] == 0u64,
            decreases n - words.len(),
        {
            words.push(0u64);
        }
        let r = Bits { words };
        assert forall|i: int| !r.bit(i) by {
            lemma_zero_word_shift();
            if 0 <= i && i / 64 < r.words.len() {
                assert(r.words[i / 64] == 0u64);
            }
        }
        r
    }

    pub fn get(&self, index: usize) -> (r: bool)
        ensures
            r == self.bit(index as int),
    {
        let w = index / 64;
        if w < self.words.len() {
            (self.words[w] >> ((index % 64) as u64)) & 1 == 1
        } else {
            false
        }
    }

    pub fn set(&mut self, index: usize, value: bool)
        requires
            index < BIT_INDEX_LIMIT,
        ensures
            final(self).bit(index as int) == value,
            forall|j: int| j != index ==> final(self).bit(j) == old(self).bit(j),
    {
        let w = index / 64;
        let b = (index % 64) as u64;
        proof {
            use_type_invariant(&*self);
        }
        if w >= self.words.len() && !value {
            proof {
                let iv = index as int;
                assert(iv / 64 >= self.words.len());
                assert(!self.bit(iv));
            }
            return ;
        }
        let ghost orig = *self;
        let mut words: Vec<u64> = Vec::new();
        core::mem::swap(&mut self.words, &mut words);
        while words.len() <= w
            invariant
                w == index / 64,
                words.len() <= orig.words.len() || words.len() <= w + 1,
                orig.words.len() <= words.len(),
                forall|j: int| 0 <= j < orig.words.len() ==> words[j] == orig.words[j],
                forall|j: int| orig.words.len() <= j < words.len() ==> words[j] == 0u64,
            decreases w + 1 - words.len(),
        {
            words.push(0u64);
        }
        let old_word = words[w];
        let new_word = if value {
            old_word | (1u64 << b)
        } else {
            old_word & !(1u64 << b)
        };
        words.set(w, new_word);
        proof {
            if words.len() > orig.words.len() {
                assert(w + 1 <= 0x0010_0000) by (nonlinear_arith)
                    requires
                        w == index / 64,
                        index < 0x0400_0000usize,
                ;
            }
        }
        core::mem::swap(&mut self.words, &mut words);
        proof {
            lemma_zero_word_shift();
            let iv = index as int;
            assert(iv / 64 == w as int && iv % 64 == b as int);
            if value {
                assert(((old_word | (1u64 << b)) >> b) & 1 == 1) by (bit_vector)
                    requires
                        b < 64,
                ;
                assert(forall|ob: u64|
                    ob < 64 && ob != b ==> ((old_word | (1u64 << b)) >> ob) & 1 == (old_word >> ob)
                        & 1) by (bit_vector);
            } else {
                assert(((old_word & !(1u64 << b)) >> b) & 1 == 0) by (bit_vector)
                    requires
                        b < 64,
                ;
                assert(forall|ob: u64|
                    ob < 64 && ob != b ==> ((old_word & !(1u64 << b)) >> ob) & 1 == (old_word >> ob)
                        & 1) by (bit_vector);
            }
            assert(self.bit(iv) == value);
            assert forall|j: int| j != iv implies self.bit(j) == orig.bit(j) by {
                if 0 <= j {
                    if j / 64 == w as int {
                        assert(j % 64 != b as int) by {
                            if j % 64 == b as int {
                                assert(j == (j / 64) * 64 + j % 64);
                                assert(iv == (iv / 64) * 64 + iv % 64);
                            }
                        }
                        assert(0 <= j % 64 < 64);
                        let ob = (j % 64) as u64;
                        assert(ob < 64 && ob != b);
                        assert(self.words[j / 64] == new_word);
                        if value {
                            assert(((old_word | (1u64 << b)) >> ob) & 1 == (old_word >> ob) & 1);
                        } else {
                            assert(((old_word & !(1u64 << b)) >> ob) & 1 == (old_word >> ob) & 1);
                        }
                        if (w as int) < orig.words.len() {
                            assert(orig.words[j / 64] == old_word);
                        } else {
                            assert(old_word == 0u64);
                            assert((0u64 >> ob) & 1 == 0);
                        }
                    } else if j / 64 < self.words.len() {
                        if j / 64 < orig.words.len() {
                            assert(self.words[j / 64] == orig.words[j / 64]);
                        } else {
                            assert(self.words[j / 64] == 0u64);
                            assert((0u64 >> (j % 64) as u64) & 1 == 0);
                        }
                    } else {
                        if j / 64 < orig.words.len() {
                            assert(false);
                        }
                    }
                }
            }
        }
    }

    /// The number of stored words times 64: every bit at or past this index is zero.
    pub fn size(&self) -> (r: usize)
        ensures
            r == self.ubound(),
            r <= BIT_INDEX_LIMIT,
            forall|i: int| i >= r ==> !self.bit(i),
    {
        proof {
            use_type_invariant(&*self);
            assert forall|i: int| i >= self.words.len() * 64 implies !self.bit(i) by {
                self.lemma_bit_past_ubound(i);
            }
            assert(self.words.len() * 64 <= 0x0400_0000usize) by (nonlinear_arith)
                requires
                    self.words.len() <= 0x0010_0000,
            ;
        }
        self.words.len() * 64
    }

    /// How many of the bits below `n` are ones.
    pub open spec fn count_ones_below(&self, n: int) -> nat
        decreases n,
    {
        if n <= 0 {
            0
        } else {
            self.count_ones_below(n - 1) + (if self.bit(n - 1) {
                1nat
            } else {
                0nat
            })
        }
    }

    pub proof fn lemma_count_le(&self, n: int)
        requires
            0 <= n,
        ensures
            self.count_ones_below(n) <= n,
        decreases n,
    {
        if n > 0 {
            self.lemma_count_le(n - 1);
        }
    }

    pub proof fn lemma_count_stable(&self, n: int, m: int)
        requires
            self.ubound() <= n <= m,
        ensures
            self.count_ones_below(n) == self.count_ones_below(m),
        decreases m - n,
    {
        if n < m {
            self.lemma_bit_past_ubound(m - 1);
            self.lemma_count_stable(n, m - 1);
        }
    }

    /// Returns the index of the last '1' bit.
    pub fn last_one(&self) -> (r: Option<usize>)
        ensures
            match r {
                Some(i) => self.bit(i as int) && i < BIT_INDEX_LIMIT && forall|j: int|
                    j > i ==> !self.bit(j),
                None => forall|j: int| !self.bit(j),
            },
    {
        let n = self.size();
        let mut best: Option<usize> = None;
        let mut i: usize = 0;
        while i < n
            invariant
                n == self.ubound(),
                i <= n,
                match best {
                    Some(b) => self.bit(b as int) && b < i && forall|j: int|
                        b < j < i ==> !self.bit(j),
                    None => forall|j: int| j < i ==> !self.bit(j),
                },
            decreases n - i,
        {
            if self.get(i) {
                best = Some(i);
            }
            i += 1;
        }
        proof {
            assert forall|j: int| j >= n implies !self.bit(j) by {
                self.lemma_bit_past_ubound(j);
            }
        }
        best
    }

    /// The positions of the '1' bits, in increasing order.
    pub fn iter_ones(&self) -> (r: Vec<usize>)
        ensures
            forall|k: int| 0 <= k < r.len() ==> self.bit(#[trigger] r[k] as int),
            forall|k1: int, k2: int| 0 <= k1 < k2 < r.len() ==> r[k1] < r[k2],
            forall|i: int| 0 <= i && self.bit(i) ==> exists|k: int|
                0 <= k < r.len() && r[k] == i,
            r.len() == self.count_ones_below(self.ubound()),
    {
        let n = self.size();
        let mut r: Vec<usize> = Vec::new();
        let mut i: usize = 0;
        while i < n
            invariant
                n == self.ubound(),
                i <= n,
                forall|k: int| 0 <= k < r.len() ==> self.bit(#[trigger] r[k] as int),
                forall|k: int| 0 <= k < r.len() ==> r[k] < i,
                forall|k1: int, k2: int| 0 <= k1 < k2 < r.len() ==> r[k1] < r[k2],
                forall|j: int| 0 <= j < i && self.bit(j) ==> exists|k: int|
                    0 <= k < r.len() && r[k] == j,
                r.len() == self.count_ones_below(i as int),
            decreases n - i,
        {
            let ghost rpre = r@;
            if self.get(i) {
                r.push(i);
            }
            proof {
                assert forall|j: int| 0 <= j < i + 1 && self.bit(j) implies exists|k: int|
                    0 <= k < r@.len() && r@[k] == j by {
                    if j == i {
                        assert(r@[r@.len() - 1] == i as int);
                    } else {
                        let k = choose|k: int| 0 <= k < rpre.len() && rpre[k] == j;
                        assert(r@[k] == j);
                    }
                }
            }
            i += 1;
        }
        r
    }

    pub fn is_all_zero(&self) -> (r: bool)
        ensures
            r == forall|i: int| !self.bit(i),
    {
        match self.last_one() {
            Some(_) => false,
            None => true,
        }
    }

    pub fn count_ones(&self) -> (r: usize)
        ensures
            r == self.count_ones_below(self.ubound()),
    {
        let n = self.size();
        let mut count: usize = 0;
        let mut i: usize = 0;
        while i < n
            invariant
                n == self.ubound(),
                i <= n,
                count == self.count_ones_below(i as int),
                count <= i,
            decreases n - i,
        {
            if self.get(i) {
                count += 1;
            }
            i += 1;
        }
        count
    }

    /// Calculates self & !other, bit by bit.
    pub fn and_not(&self, other: &Self) -> (r: Self)
        ensures
            forall|i: int| r.bit(i) == (self.bit(i) && !other.bit(i)),
    {
        let n = self.size();
        let mut r = Bits::new();
        let mut i: usize = 0;
        while i < n
            invariant
                n == self.ubound(),
                n <= BIT_INDEX_LIMIT,
                i <= n,
                forall|j: int| j >= i ==> !r.bit(j),
                forall|j: int| 0 <= j < i ==> r.bit(j) == (self.bit(j) && !other.bit(j)),
            decreases n - i,
        {
            if self.get(i) && !other.get(i) {
                r.set(i, true);
            }
            i += 1;
        }
        proof {
            assert forall|j: int| j >= n implies !self.bit(j) by {
                self.lemma_bit_past_ubound(j);
            }
        }
        r
    }

    /// An exact copy.
    pub fn duplicate(&self) -> (r: Self)
        ensures
            forall|i: int| r.bit(i) == self.bit(i),
            r.ubound() == self.ubound(),
    {
        proof {
            use_type_invariant(&*self);
        }
        let mut words: Vec<u64> = Vec::new();
        let mut k: usize = 0;
        while k < self.words.len()
            invariant
                k <= self.words.len(),
                words.len() == k,
                forall|j: int| 0 <= j < k ==> words[j] == self.words[j],
            decreases self.words.len() - k,
        {
            words.push(self.words[k]);
            k += 1;
        }
        let r = Bits { words };
        assert(forall|i: int| r.bit(i) == self.bit(i));
        r
    }
}

impl Clone for Bits {
    /// A clone holds exactly the same bits.
    fn clone(&self) -> (r: Self)
        ensures
            forall|i: int| r.bit(i) == self.bit(i),
    {
        self.duplicate()
    }
}

impl PartialEq for Bits {
    /// Two bit vectors are equal when every position holds the same bit;
    /// trailing zeros are ignored.
    fn eq(&self, other: &Self) -> (r: bool) {
        let n = if self.size() > other.size() {
            self.size()
        } else {
            other.size()
        };
        let mut i: usize = 0;
        let mut same = true;
        while i < n
            invariant
                i <= n,
                n >= self.ubound(),
                n >= other.ubound(),
                same == forall|j: int| 0 <= j < i ==> self.bit(j) == other.bit(j),
            decreases n - i,
        {
            if self.get(i) != other.get(i) {
                proof {
                    let wit = i as int;
                    assert(self.bit(wit) != other.bit(wit));
                }
                same = false;
            }
            i += 1;
        }
        proof {
            if same {
                assert forall|j: int| self.bit(j) == other.bit(j) by {
                    if j >= n {
                        self.lemma_bit_past_ubound(j);
                        other.lemma_bit_past_ubound(j);
                    } else if j < 0 {
                    }
                }
            }
        }
        same
    }
}

impl Eq for Bits {

}

impl vstd::std_specs::cmp::PartialEqSpecImpl for Bits {
    open spec fn obeys_eq_spec() -> bool {
        true
    }

    open spec fn eq_spec(&self, other: &Self) -> bool {
        forall|i: int| self.bit(i) == other.bit(i)
    }
}

} // verus!
