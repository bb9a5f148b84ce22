//! A growable bit vector backed by 32-bit words with an explicit logical
//! length.  Bits beyond the logical length are kept at zero, so the word
//! array is a canonical serialized form of the bit set.

use vstd::prelude::*;

verus! {

/// Whether bit `k` of word `w` is one.
pub open spec fn nth_bit(w: u32, k: u32) -> bool {
    (w >> k) & 1 == 1
}

/// The bit at position `i` of a word sequence, least significant bit of
/// the first word first.
pub open spec fn word_bit_at(ws: Seq<u32>, i: int) -> bool {
    nth_bit(ws[i / 32], (i % 32) as u32)
}

/// The bit at position `i` of `s`, reading positions past the end as zero.
pub open spec fn bit_of(s: Seq<bool>, i: int) -> bool {
    0 <= i < s.len() && s[i]
}

/// The bit sequence encoded by a sequence of words.
pub open spec fn bits_of_words(ws: Seq<u32>) -> Seq<bool> {
    Seq::new(ws.len() * 32, |i: int| word_bit_at(ws, i))
}

/// `s` with bit `i` set, grown to length at least `i + 1`.
pub open spec fn with_bit(s: Seq<bool>, i: int) -> Seq<bool> {
    Seq::new(
        if s.len() >= i + 1 {
            s.len()
        } else {
            (i + 1) as nat
        },
        |j: int| j == i || bit_of(s, j),
    )
}

/// How many words are needed to hold `n` bits.
pub open spec fn word_count(n: nat) -> nat {
    if n == 0 {
        0
    } else {
        ((n - 1) / 32 + 1) as nat
    }
}

/// The positions of the one bits of `s`, in ascending order.
pub open spec fn ones_of(s: Seq<bool>) -> Seq<int>
    decreases s.len(),
{
    if s.len() == 0 {
        Seq::empty()
    } else {
        ones_of(s.drop_last()) + if s.last() {
            seq![s.len() as int - 1]
        } else {
            Seq::empty()
        }
    }
}

/// Every position listed by `ones_of` carries a one bit, and every one
/// bit is listed.
pub proof fn lemma_ones_of_membership(s: Seq<bool>)
    ensures
        forall|m: int| 0 <= m < ones_of(s).len() ==> bit_of(s, #[trigger] ones_of(s)[m]),
        forall|i: int| bit_of(s, i) ==> ones_of(s).contains(i),
    decreases s.len(),
{
    if s.len() != 0 {
        let t = s.drop_last();
        lemma_ones_of_membership(t);
        assert forall|m: int| 0 <= m < ones_of(s).len() implies bit_of(
            s,
            #[trigger] ones_of(s)[m],
        ) by {
            if m < ones_of(t).len() {
                assert(ones_of(s)[m] == ones_of(t)[m]);
                assert(bit_of(t, ones_of(t)[m]));
            } else {
                assert(s.last());
                assert(ones_of(s)[m] == s.len() - 1);
            }
        }
        assert forall|i: int| bit_of(s, i) implies ones_of(s).contains(i) by {
            if i < s.len() - 1 {
                assert(bit_of(t, i));
                let m = choose|m: int| 0 <= m < ones_of(t).len() && ones_of(t)[m] == i;
                assert(ones_of(s)[m] == i);
            } else {
                assert(ones_of(s)[ones_of(s).len() - 1] == i);
            }
        }
    }
}

/// Two bit sequences with the same zero-extended bits have the same list
/// of one positions.
pub proof fn lemma_ones_of_ext(a: Seq<bool>, b: Seq<bool>)
    requires
        forall|i: int| bit_of(a, i) == bit_of(b, i),
    ensures
        ones_of(a) == ones_of(b),
    decreases a.len() + b.len(),
{
    if a.len() > b.len() {
        assert(!bit_of(b, a.len() - 1));
        assert(!a.last());
        assert(ones_of(a.drop_last()) + Seq::<int>::empty() =~= ones_of(a.drop_last()));
        assert forall|i: int| bit_of(a.drop_last(), i) == bit_of(b, i) by {
            if 0 <= i < a.len() - 1 {
                assert(a.drop_last()[i] == a[i]);
            }
        }
        lemma_ones_of_ext(a.drop_last(), b);
    } else if b.len() > a.len() {
        assert(!bit_of(a, b.len() - 1));
        assert(!b.last());
        assert(ones_of(b.drop_last()) + Seq::<int>::empty() =~= ones_of(b.drop_last()));
        assert forall|i: int| bit_of(a, i) == bit_of(b.drop_last(), i) by {
            if 0 <= i < b.len() - 1 {
                assert(b.drop_last()[i] == b[i]);
            }
        }
        lemma_ones_of_ext(a, b.drop_last());
    } else {
        assert forall|i: int| 0 <= i < a.len() implies a[i] == b[i] by {
            assert(bit_of(a, i) == bit_of(b, i));
        }
        assert(a =~= b);
    }
}

/// Round trip: a bit set's serialized word form, reloaded, yields the
/// identical list of set-bit positions.  The hypothesis is what
/// [`BitMap::into_vec`] ensures of the words it hands out, and
/// [`BitMap::from_vec`] reads the words back as `bits_of_words`.
pub proof fn lemma_serialize_round_trip(bits: Seq<bool>, words: Seq<u32>)
    requires
        forall|i: int| bit_of(bits_of_words(words), i) == bit_of(bits, i),
    ensures
        ones_of(bits_of_words(words)) == ones_of(bits),
{
    lemma_ones_of_ext(bits_of_words(words), bits);
}

proof fn lemma_div32(j: int)
    by (nonlinear_arith)
    requires
        0 <= j,
    ensures
        j == 32 * (j / 32) + j % 32,
        0 <= j % 32 < 32,
{
}

proof fn lemma_word_count(n: nat)
    by (nonlinear_arith)
    ensures
        n <= word_count(n) * 32,
        word_count(n) * 32 < n + 32,
{
}

proof fn lemma_word_count_mono(a: nat, b: nat)
    by (nonlinear_arith)
    requires
        a <= b,
    ensures
        word_count(a) <= word_count(b),
{
}

proof fn lemma_word_index(n: nat, i: int)
    by (nonlinear_arith)
    requires
        0 <= i < n,
    ensures
        0 <= i / 32 < word_count(n),
        0 <= i % 32 < 32,
{
}

proof fn lemma_wc_split(n: nat)
    by (nonlinear_arith)
    ensures
        word_count(n) == n / 32 + if n % 32 == 0 {
            0nat
        } else {
            1nat
        },
{
}

proof fn lemma_from_vec_len(ws: Seq<u32>)
    by (nonlinear_arith)
    ensures
        word_count((ws.len() * 32) as nat) == ws.len(),
{
}

proof fn lemma_zero_bit(k: u32)
    by (bit_vector)
    requires
        k < 32,
    ensures
        !nth_bit(0u32, k),
{
}

proof fn lemma_full_bit(k: u32)
    by (bit_vector)
    requires
        k < 32,
    ensures
        nth_bit(0xffff_ffffu32, k),
{
}

proof fn lemma_mask_bit(r: u32, k: u32)
    by (bit_vector)
    requires
        0 < r < 32,
        k < 32,
    ensures
        nth_bit(((1u32 << r) - 1) as u32, k) == (k < r),
{
}

proof fn lemma_set_bit(w: u32, b: u32, k: u32)
    by (bit_vector)
    requires
        b < 32,
        k < 32,
    ensures
        nth_bit(w | (1u32 << b), k) == (k == b || nth_bit(w, k)),
{
}

proof fn lemma_or_bit(a: u32, b: u32, k: u32)
    by (bit_vector)
    requires
        k < 32,
    ensures
        nth_bit(a | b, k) == (nth_bit(a, k) || nth_bit(b, k)),
{
}

proof fn lemma_and_bit(a: u32, b: u32, k: u32)
    by (bit_vector)
    requires
        k < 32,
    ensures
        nth_bit(a & b, k) == (nth_bit(a, k) && nth_bit(b, k)),
{
}

proof fn lemma_xor_bit(a: u32, b: u32, k: u32)
    by (bit_vector)
    requires
        k < 32,
    ensures
        nth_bit(a ^ b, k) == (nth_bit(a, k) != nth_bit(b, k)),
{
}

proof fn lemma_and_not_bit(a: u32, b: u32, k: u32)
    by (bit_vector)
    requires
        k < 32,
    ensures
        nth_bit(a & !b, k) == (nth_bit(a, k) && !nth_bit(b, k)),
{
}

/// A growable bit vector.  `words` is the backing array; `nbits` is the
/// logical length in bits, which may be less than `32 * words.len()`.
pub struct BitMap {
    words: Vec<u32>,
    nbits: usize,
}

impl View for BitMap {
    type V = Seq<bool>;

    closed spec fn view(&self) -> Seq<bool> {
        Seq::new(self.nbits as nat, |i: int| word_bit_at(self.words@, i))
    }
}

impl BitMap {
    /// The backing array has exactly the words the logical length needs,
    /// and every bit at or beyond the logical length is zero.
    pub closed spec fn wf(&self) -> bool {
        &&& self.words@.len() == word_count(self.nbits as nat)
        &&& forall|i: int|
            self.nbits <= i < self.words@.len() * 32 ==> !#[trigger] word_bit_at(self.words@, i)
    }

    /// An empty bit set of logical length zero.
    pub fn new() -> (r: BitMap)
        ensures
            r.wf(),
            r@ =~= Seq::<bool>::empty(),
    {
        BitMap { words: Vec::new(), nbits: 0 }
    }

    /// Reconstructs a bit set from its serialized word form.  The logical
    /// length is the full width of the given words.
    pub fn from_vec(vec: Vec<u32>) -> (r: BitMap)
        requires
            vec@.len() * 32 <= usize::MAX,
        ensures
            r.wf(),
            r@ =~= bits_of_words(vec@),
    {
        proof {
            lemma_from_vec_len(vec@);
        }
        let n: usize = vec.len() * 32;
        BitMap { words: vec, nbits: n }
    }

    /// A bit set of logical length exactly `len` with every bit one.
    pub fn ones(len: usize) -> (r: BitMap)
        ensures
            r.wf(),
            r@.len() == len,
            forall|i: int| 0 <= i < len ==> r@[i],
    {
        let nfull: usize = len / 32;
        let rem: usize = len % 32;
        let mut words: Vec<u32> = Vec::new();
        let mut k: usize = 0;
        while k < nfull
            invariant
                k <= nfull,
                words@.len() == k,
                forall|t: int| 0 <= t < k ==> words@[t] == 0xffff_ffffu32,
            decreases nfull - k,
        {
            words.push(0xffff_ffffu32);
            k += 1;
        }
        if rem > 0 {
            proof {
                assert(1u32 << (rem as u32) >= 1) by (bit_vector)
                    requires
                        (rem as u32) < 32,
                ;
            }
            words.push((1u32 << (rem as u32)) - 1);
        }
        proof {
            lemma_wc_split(len as nat);
            lemma_div32(len as int);
        }
        let r = BitMap { words, nbits: len };
        proof {
            assert forall|i: int| len <= i < r.words@.len() * 32 implies !#[trigger] word_bit_at(
                r.words@,
                i,
            ) by {
                lemma_div32(i);
                lemma_word_index((r.words@.len() * 32) as nat, i);
                assert(i / 32 == nfull as int && rem > 0);
                lemma_mask_bit(rem as u32, (i % 32) as u32);
            }
            assert forall|i: int| 0 <= i < len implies r@[i] by {
                lemma_div32(i);
                lemma_word_index(len as nat, i);
                if i / 32 < nfull as int {
                    lemma_full_bit((i % 32) as u32);
                } else {
                    assert(i / 32 == nfull as int && rem > 0);
                    lemma_mask_bit(rem as u32, (i % 32) as u32);
                }
            }
        }
        r
    }

    /// Hands out the backing word array, the bit set's serialized form.
    /// The words carry exactly the bit set's bits, zero-padded to a word
    /// boundary.
    pub fn into_vec(self) -> (r: Vec<u32>)
        requires
            self.wf(),
        ensures
            r@.len() == word_count(self@.len() as nat),
            forall|i: int| bit_of(bits_of_words(r@), i) == bit_of(self@, i),
    {
        proof {
            lemma_word_count(self.nbits as nat);
            assert forall|i: int|
                bit_of(bits_of_words(self.words@), i) == bit_of(self@, i) by {
                if 0 <= i < self.words@.len() * 32 {
                    lemma_div32(i);
                }
            }
        }
        self.words
    }

    /// The bit at position `index`, read as zero past the logical length.
    fn get_bit(&self, index: usize) -> (r: bool)
        requires
            self.wf(),
        ensures
            r == bit_of(self@, index as int),
    {
        if index < self.nbits {
            proof {
                lemma_word_index(self.nbits as nat, index as int);
            }
            (self.words[index / 32] >> ((index % 32) as u32)) & 1 == 1
        } else {
            false
        }
    }

    /// Grows the logical length to at least `n`, zero-filling the newly
    /// exposed bits.  The existing bits are unchanged.
    fn grow(&mut self, n: usize)
        requires
            old(self).wf(),
        ensures
            final(self).wf(),
            final(self).nbits == if n > old(self).nbits {
                n
            } else {
                old(self).nbits
            },
            forall|j: int| bit_of(final(self)@, j) == bit_of(old(self)@, j),
    {
        if n > self.nbits {
            let needed: usize = (n - 1) / 32 + 1;
            proof {
                lemma_word_count_mono(self.nbits as nat, n as nat);
            }
            while self.words.len() < needed
                invariant
                    self.nbits == old(self).nbits,
                    old(self).words@.len() <= self.words@.len() <= needed,
                    forall|t: int|
                        0 <= t < old(self).words@.len() ==> self.words@[t] == old(
                            self,
                        ).words@[t],
                    forall|t: int|
                        old(self).words@.len() <= t < self.words@.len() ==> self.words@[t]
                            == 0u32,
                decreases needed - self.words.len(),
            {
                self.words.push(0u32);
            }
            self.nbits = n;
            proof {
                assert forall|i: int|
                    self.nbits <= i < self.words@.len() * 32 implies !#[trigger] word_bit_at(
                    self.words@,
                    i,
                ) by {
                    lemma_div32(i);
                    lemma_word_index((self.words@.len() * 32) as nat, i);
                    if i / 32 < old(self).words@.len() {
                        lemma_word_count(old(self).nbits as nat);
                        assert(!word_bit_at(old(self).words@, i));
                    } else {
                        lemma_zero_bit((i % 32) as u32);
                    }
                }
                assert forall|j: int| bit_of(self@, j) == bit_of(old(self)@, j) by {
                    if 0 <= j < self.nbits {
                        lemma_div32(j);
                        lemma_word_index(self.nbits as nat, j);
                        if j < old(self).nbits {
                            lemma_word_index(old(self).nbits as nat, j);
                        } else {
                            if j / 32 < old(self).words@.len() {
                                lemma_word_count(old(self).nbits as nat);
                                assert(!word_bit_at(old(self).words@, j));
                            } else {
                                lemma_zero_bit((j % 32) as u32);
                            }
                        }
                    }
                }
            }
        }
    }

    /// Sets bit `index` to one, growing the logical length to at least
    /// `index + 1` and zero-filling any newly exposed bits.
    pub fn set(&mut self, index: usize)
        requires
            old(self).wf(),
            index < usize::MAX,
        ensures
            final(self).wf(),
            final(self)@ =~= with_bit(old(self)@, index as int),
    {
        self.grow(index + 1);
        let ghost mid = *self;
        proof {
            lemma_word_index(self.nbits as nat, index as int);
        }
        let w: usize = index / 32;
        let b: u32 = (index % 32) as u32;
        self.words[w] = self.words[w] | (1u32 << b);
        proof {
            lemma_div32(index as int);
            assert forall|i: int|
                self.nbits <= i < self.words@.len() * 32 implies !#[trigger] word_bit_at(
                self.words@,
                i,
            ) by {
                lemma_div32(i);
                lemma_word_index((self.words@.len() * 32) as nat, i);
                if i / 32 == w as int {
                    lemma_set_bit(mid.words@[w as int], b, (i % 32) as u32);
                }
                assert(!word_bit_at(mid.words@, i));
            }
            assert forall|j: int|
                0 <= j < self.nbits implies self@[j] == with_bit(old(self)@, index as int)[j] by {
                lemma_div32(j);
                lemma_word_index(self.nbits as nat, j);
                assert(bit_of(mid@, j) == bit_of(old(self)@, j));
                if j / 32 == w as int {
                    lemma_set_bit(mid.words@[w as int], b, (j % 32) as u32);
                }
                assert(self@[j] == (j == index || bit_of(old(self)@, j)));
            }
            assert(self@ =~= with_bit(old(self)@, index as int));
        }
    }

    /// In-place bitwise OR: afterwards the bit at each position is the OR
    /// of the two operands' bits, the shorter operand read as zero-padded.
    /// The logical length becomes the longer of the two.
    pub fn or(&mut self, bitmap: BitMap)
        requires
            old(self).wf(),
            bitmap.wf(),
        ensures
            final(self).wf(),
            final(self)@.len() == if old(self)@.len() >= bitmap@.len() {
                old(self)@.len()
            } else {
                bitmap@.len()
            },
            forall|j: int|
                #[trigger] bit_of(final(self)@, j) == (bit_of(old(self)@, j) || bit_of(
                    bitmap@,
                    j,
                )),
    {
        self.grow(bitmap.nbits);
        let ghost mid = *self;
        proof {
            lemma_word_count_mono(bitmap.nbits as nat, self.nbits as nat);
        }
        let mut k: usize = 0;
        while k < bitmap.words.len()
            invariant
                k <= bitmap.words@.len() <= self.words@.len(),
                self.nbits == mid.nbits,
                self.words@.len() == mid.words@.len(),
                forall|t: int|
                    0 <= t < k ==> self.words@[t] == (mid.words@[t] | bitmap.words@[t]),
                forall|t: int| k <= t < self.words@.len() ==> self.words@[t] == mid.words@[t],
            decreases bitmap.words@.len() - k,
        {
            self.words[k] = self.words[k] | bitmap.words[k];
            k += 1;
        }
        proof {
            self.lemma_merge_bits(mid, bitmap, old(self)@, true, false, false);
        }
    }

    /// In-place bitwise XOR, with the same length and padding behaviour
    /// as [`BitMap::or`].
    pub fn xor(&mut self, bitmap: BitMap)
        requires
            old(self).wf(),
            bitmap.wf(),
        ensures
            final(self).wf(),
            final(self)@.len() == if old(self)@.len() >= bitmap@.len() {
                old(self)@.len()
            } else {
                bitmap@.len()
            },
            forall|j: int|
                #[trigger] bit_of(final(self)@, j) == (bit_of(old(self)@, j) != bit_of(
                    bitmap@,
                    j,
                )),
    {
        self.grow(bitmap.nbits);
        let ghost mid = *self;
        proof {
            lemma_word_count_mono(bitmap.nbits as nat, self.nbits as nat);
        }
        let mut k: usize = 0;
        while k < bitmap.words.len()
            invariant
                k <= bitmap.words@.len() <= self.words@.len(),
                self.nbits == mid.nbits,
                self.words@.len() == mid.words@.len(),
                forall|t: int|
                    0 <= t < k ==> self.words@[t] == (mid.words@[t] ^ bitmap.words@[t]),
                forall|t: int| k <= t < self.words@.len() ==> self.words@[t] == mid.words@[t],
            decreases bitmap.words@.len() - k,
        {
            self.words[k] = self.words[k] ^ bitmap.words[k];
            k += 1;
        }
        proof {
            self.lemma_merge_bits(mid, bitmap, old(self)@, false, true, false);
        }
    }

    /// In-place set difference: clears exactly the bits set in `bitmap`,
    /// leaving all others untouched.  The logical length still becomes the
    /// longer of the two.
    pub fn and_not(&mut self, bitmap: BitMap)
        requires
            old(self).wf(),
            bitmap.wf(),
        ensures
            final(self).wf(),
            final(self)@.len() == if old(self)@.len() >= bitmap@.len() {
                old(self)@.len()
            } else {
                bitmap@.len()
            },
            forall|j: int|
                #[trigger] bit_of(final(self)@, j) == (bit_of(old(self)@, j) && !bit_of(
                    bitmap@,
                    j,
                )),
    {
        self.grow(bitmap.nbits);
        let ghost mid = *self;
        proof {
            lemma_word_count_mono(bitmap.nbits as nat, self.nbits as nat);
        }
        let mut k: usize = 0;
        while k < bitmap.words.len()
            invariant
                k <= bitmap.words@.len() <= self.words@.len(),
                self.nbits == mid.nbits,
                self.words@.len() == mid.words@.len(),
                forall|t: int|
                    0 <= t < k ==> self.words@[t] == (mid.words@[t] & !bitmap.words@[t]),
                forall|t: int| k <= t < self.words@.len() ==> self.words@[t] == mid.words@[t],
            decreases bitmap.words@.len() - k,
        {
            self.words[k] = self.words[k] & !bitmap.words[k];
            k += 1;
        }
        proof {
            self.lemma_merge_bits(mid, bitmap, old(self)@, false, false, true);
        }
    }

    /// In-place bitwise AND: afterwards a bit is one only where both
    /// operands had a one, the shorter operand read as zero-padded.  The
    /// logical length becomes the longer of the two.
    pub fn and(&mut self, bitmap: BitMap)
        requires
            old(self).wf(),
            bitmap.wf(),
        ensures
            final(self).wf(),
            final(self)@.len() == if old(self)@.len() >= bitmap@.len() {
                old(self)@.len()
            } else {
                bitmap@.len()
            },
            forall|j: int|
                #[trigger] bit_of(final(self)@, j) == (bit_of(old(self)@, j) && bit_of(
                    bitmap@,
                    j,
                )),
    {
        self.grow(bitmap.nbits);
        let ghost mid = *self;
        proof {
            lemma_word_count_mono(bitmap.nbits as nat, self.nbits as nat);
        }
        let mut k: usize = 0;
        while k < self.words.len()
            invariant
                k <= self.words@.len(),
                bitmap.words@.len() <= self.words@.len(),
                self.nbits == mid.nbits,
                self.words@.len() == mid.words@.len(),
                forall|t: int|
                    0 <= t < k && t < bitmap.words@.len() ==> self.words@[t] == (mid.words@[t]
                        & bitmap.words@[t]),
                forall|t: int|
                    0 <= t < k && t >= bitmap.words@.len() ==> self.words@[t] == 0u32,
                forall|t: int| k <= t < self.words@.len() ==> self.words@[t] == mid.words@[t],
            decreases self.words@.len() - k,
        {
            if k < bitmap.words.len() {
                self.words[k] = self.words[k] & bitmap.words[k];
            } else {
                self.words[k] = 0u32;
            }
            k += 1;
        }
        proof {
            assert forall|i: int|
                self.nbits <= i < self.words@.len() * 32 implies !#[trigger] word_bit_at(
                self.words@,
                i,
            ) by {
                lemma_div32(i);
                lemma_word_index((self.words@.len() * 32) as nat, i);
                if i / 32 < bitmap.words@.len() {
                    lemma_and_bit(
                        mid.words@[i / 32],
                        bitmap.words@[i / 32],
                        (i % 32) as u32,
                    );
                    assert(!word_bit_at(mid.words@, i));
                } else {
                    lemma_zero_bit((i % 32) as u32);
                }
            }
            assert forall|j: int|
                #[trigger] bit_of(self@, j) == (bit_of(old(self)@, j) && bit_of(
                bitmap@,
                j,
            )) by {
                if 0 <= j < self.nbits {
                    lemma_div32(j);
                    lemma_word_index(self.nbits as nat, j);
                    assert(bit_of(mid@, j) == word_bit_at(mid.words@, j));
                    assert(bit_of(mid@, j) == bit_of(old(self)@, j));
                    if j / 32 < bitmap.words@.len() {
                        lemma_and_bit(
                            mid.words@[j / 32],
                            bitmap.words@[j / 32],
                            (j % 32) as u32,
                        );
                        if j < bitmap.nbits {
                            lemma_word_index(bitmap.nbits as nat, j);
                            assert(bit_of(bitmap@, j) == word_bit_at(bitmap.words@, j));
                        } else {
                            assert(!word_bit_at(bitmap.words@, j));
                        }
                    } else {
                        lemma_zero_bit((j % 32) as u32);
                        lemma_word_count(bitmap.nbits as nat);
                        assert(!bit_of(bitmap@, j));
                    }
                }
            }
        }
    }

    /// Shared tail proof for `or`, `xor` and `and_not`, whose loops leave
    /// the words beyond the other operand's length unchanged.
    proof fn lemma_merge_bits(
        &self,
        mid: BitMap,
        bitmap: BitMap,
        orig: Seq<bool>,
        is_or: bool,
        is_xor: bool,
        is_and_not: bool,
    )
        requires
            mid.wf(),
            bitmap.wf(),
            is_or ==> is_xor == false && is_and_not == false,
            is_xor ==> is_and_not == false,
            is_or || is_xor || is_and_not,
            self.nbits == mid.nbits,
            mid.nbits >= bitmap.nbits,
            self.words@.len() == mid.words@.len(),
            bitmap.words@.len() <= self.words@.len(),
            forall|j: int| bit_of(mid@, j) == bit_of(orig, j),
            orig.len() <= mid.nbits,
            forall|t: int|
                0 <= t < bitmap.words@.len() ==> self.words@[t] == (if is_or {
                    mid.words@[t] | bitmap.words@[t]
                } else if is_xor {
                    mid.words@[t] ^ bitmap.words@[t]
                } else {
                    mid.words@[t] & !bitmap.words@[t]
                }),
            forall|t: int|
                bitmap.words@.len() <= t < self.words@.len() ==> self.words@[t]
                    == mid.words@[t],
        ensures
            self.wf(),
            forall|j: int|
                #[trigger] bit_of(self@, j) == (if is_or {
                    bit_of(orig, j) || bit_of(bitmap@, j)
                } else if is_xor {
                    bit_of(orig, j) != bit_of(bitmap@, j)
                } else {
                    bit_of(orig, j) && !bit_of(bitmap@, j)
                }),
    {
        assert forall|i: int|
            0 <= i < self.words@.len() * 32 implies #[trigger] word_bit_at(self.words@, i) == (
        if is_or {
            word_bit_at(mid.words@, i) || bit_of(bitmap@, i)
        } else if is_xor {
            word_bit_at(mid.words@, i) != bit_of(bitmap@, i)
        } else {
            word_bit_at(mid.words@, i) && !bit_of(bitmap@, i)
        }) by {
            lemma_div32(i);
            lemma_word_index((self.words@.len() * 32) as nat, i);
            if i / 32 < bitmap.words@.len() {
                lemma_or_bit(mid.words@[i / 32], bitmap.words@[i / 32], (i % 32) as u32);
                lemma_xor_bit(mid.words@[i / 32], bitmap.words@[i / 32], (i % 32) as u32);
                lemma_and_not_bit(mid.words@[i / 32], bitmap.words@[i / 32], (i % 32) as u32);
                if i < bitmap.nbits {
                    lemma_word_index(bitmap.nbits as nat, i);
                } else {
                    assert(!word_bit_at(bitmap.words@, i));
                }
            } else {
                lemma_word_count(bitmap.nbits as nat);
                assert(!bit_of(bitmap@, i));
            }
        }
        assert forall|i: int|
            self.nbits <= i < self.words@.len() * 32 implies !#[trigger] word_bit_at(
            self.words@,
            i,
        ) by {
            assert(!word_bit_at(mid.words@, i));
            assert(!bit_of(bitmap@, i));
        }
        assert forall|j: int|
            #[trigger] bit_of(self@, j) == (if is_or {
            bit_of(orig, j) || bit_of(bitmap@, j)
        } else if is_xor {
            bit_of(orig, j) != bit_of(bitmap@, j)
        } else {
            bit_of(orig, j) && !bit_of(bitmap@, j)
        }) by {
            if 0 <= j < self.nbits {
                lemma_div32(j);
                lemma_word_index(self.nbits as nat, j);
                lemma_word_count(mid.nbits as nat);
                assert(0 <= j < self.words@.len() * 32);
                assert(bit_of(self@, j) == word_bit_at(self.words@, j));
                assert(bit_of(mid@, j) == word_bit_at(mid.words@, j));
                assert(bit_of(mid@, j) == bit_of(orig, j));
                assert(word_bit_at(self.words@, j) == (if is_or {
                    word_bit_at(mid.words@, j) || bit_of(bitmap@, j)
                } else if is_xor {
                    word_bit_at(mid.words@, j) != bit_of(bitmap@, j)
                } else {
                    word_bit_at(mid.words@, j) && !bit_of(bitmap@, j)
                }));
            } else {
                if 0 <= j {
                    lemma_word_count(bitmap.nbits as nat);
                    assert(!bit_of(orig, j));
                    assert(!bit_of(bitmap@, j));
                }
            }
        }
    }

    /// Whether any bit at position `n` or above is one.
    pub fn has_bit_at_or_above(&self, n: usize) -> (r: bool)
        requires
            self.wf(),
        ensures
            r == exists|j: int| n <= j && bit_of(self@, j),
    {
        let mut i: usize = n;
        while i < self.nbits
            invariant
                self.wf(),
                n <= i,
                forall|j: int| n <= j < i ==> !bit_of(self@, j),
            decreases self.nbits - i,
        {
            if self.get_bit(i) {
                return true;
            }
            i += 1;
        }
        proof {
            assert forall|j: int| n <= j implies !bit_of(self@, j) by {
                if j >= i {
                    assert(j >= self@.len());
                }
            }
        }
        false
    }

    /// The positions of the one bits, in ascending order.
    pub fn iter_ones(&self) -> (r: Vec<usize>)
        requires
            self.wf(),
        ensures
            r@.map_values(|u: usize| u as int) == ones_of(self@),
    {
        let mut out: Vec<usize> = Vec::new();
        let mut i: usize = 0;
        while i < self.nbits
            invariant
                self.wf(),
                i <= self.nbits,
                out@.map_values(|u: usize| u as int) == ones_of(self@.take(i as int)),
            decreases self.nbits - i,
        {
            let ghost prefix = self@.take(i as int);
            if self.get_bit(i) {
                out.push(i);
            }
            proof {
                let next = self@.take(i + 1);
                assert(next.drop_last() =~= prefix);
                assert(next.last() == self@[i as int]);
                if self@[i as int] {
                    assert(out@.map_values(|u: usize| u as int) =~= ones_of(prefix) + seq![
                        i as int,
                    ]);
                } else {
                    assert(ones_of(next) =~= ones_of(prefix));
                    assert(out@.map_values(|u: usize| u as int) =~= ones_of(prefix));
                }
            }
            i += 1;
        }
        proof {
            assert(self@.take(self.nbits as int) =~= self@);
        }
        out
    }
}

impl Clone for BitMap {
    /// A clone carries the same bits and the same logical length.
    fn clone(&self) -> (r: Self)
        ensures
            r@ == self@,
            r.wf() == self.wf(),
    {
        let words = self.words.clone();
        proof {
            assert forall|t: int| 0 <= t < self.words@.len() implies words@[t]
                == self.words@[t] by {
                assert(cloned::<u32>(self.words@[t], words@[t]));
            }
            assert(words@ =~= self.words@);
        }
        BitMap { words, nbits: self.nbits }
    }
}

impl Default for BitMap {
    /// The default bit set is empty.
    fn default() -> (r: Self)
        ensures
            r.wf(),
            r@ =~= Seq::<bool>::empty(),
    {
        BitMap::new()
    }
}

} // verus!
