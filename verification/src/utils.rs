//! Bit masks over the 256 values of a byte, and over arrays of 64-bit words.
use vstd::prelude::*;

verus! {

/// Whether bit `j` (counting from the least significant bit) of `w` is set.
pub open spec fn word_bit(w: u64, j: int) -> bool {
    (w >> (j as u64)) & 1u64 == 1u64
}

/// The number of set bits of `w` among its `n` lowest bits.
pub open spec fn word_pop(w: u64, n: nat) -> nat
    decreases n,
{
    if n == 0 {
        0
    } else {
        word_pop(w, (n - 1) as nat) + if word_bit(w, n - 1) { 1nat } else { 0nat }
    }
}

pub proof fn lemma_bit_or(a: u64, b: u64, j: u64)
    requires
        j < 64,
    ensures
        word_bit(a | b, j as int) == (word_bit(a, j as int) || word_bit(b, j as int)),
{
    assert(((a | b) >> j) & 1u64 == 1u64 <==> ((a >> j) & 1u64 == 1u64 || (b >> j) & 1u64 == 1u64))
        by (bit_vector)
        requires
            j < 64,
    ;
}

pub proof fn lemma_bit_and(a: u64, b: u64, j: u64)
    requires
        j < 64,
    ensures
        word_bit(a & b, j as int) == (word_bit(a, j as int) && word_bit(b, j as int)),
{
    assert(((a & b) >> j) & 1u64 == 1u64 <==> ((a >> j) & 1u64 == 1u64 && (b >> j) & 1u64 == 1u64))
        by (bit_vector)
        requires
            j < 64,
    ;
}

pub proof fn lemma_bit_xor(a: u64, b: u64, j: u64)
    requires
        j < 64,
    ensures
        word_bit(a ^ b, j as int) == (word_bit(a, j as int) != word_bit(b, j as int)),
{
    assert(((a ^ b) >> j) & 1u64 == 1u64 <==> ((a >> j) & 1u64 == 1u64) != ((b >> j) & 1u64 == 1u64))
        by (bit_vector)
        requires
            j < 64,
    ;
}

pub proof fn lemma_bit_andn(a: u64, b: u64, j: u64)
    requires
        j < 64,
    ensures
        word_bit(a & !b, j as int) == (word_bit(a, j as int) && !word_bit(b, j as int)),
{
    assert(((a & !b) >> j) & 1u64 == 1u64 <==> ((a >> j) & 1u64 == 1u64 && !((b >> j) & 1u64 == 1u64)))
        by (bit_vector)
        requires
            j < 64,
    ;
}

pub proof fn lemma_bit_not(a: u64, j: u64)
    requires
        j < 64,
    ensures
        word_bit(!a, j as int) == !word_bit(a, j as int),
{
    assert(((!a) >> j) & 1u64 == 1u64 <==> !((a >> j) & 1u64 == 1u64)) by (bit_vector)
        requires
            j < 64,
    ;
}

pub proof fn lemma_bit_single(i: u64, j: u64)
    requires
        i < 64,
        j < 64,
    ensures
        word_bit(1u64 << i, j as int) == (i == j),
{
    assert((((1u64 << i) >> j) & 1u64 == 1u64) <==> i == j) by (bit_vector)
        requires
            i < 64,
            j < 64,
    ;
}

pub proof fn lemma_zero_word(w: u64)
    ensures
        w == 0 <==> forall|j: int| 0 <= j < 64 ==> !#[trigger] word_bit(w, j),
{
    if w != 0 {
        assert(exists|j: u64| j < 64 && (w >> j) & 1u64 == 1u64) by {
            let t = vstd::std_specs::bits::u64_trailing_zeros(w);
            vstd::std_specs::bits::axiom_u64_trailing_zeros(w);
        }
        let j = choose|j: u64| j < 64 && (w >> j) & 1u64 == 1u64;
        assert(word_bit(w, j as int));
    } else {
        assert forall|j: int| 0 <= j < 64 implies !#[trigger] word_bit(w, j) by {
            let jj = j as u64;
            assert(((0u64 >> jj) & 1u64) == 0u64) by (bit_vector);
        }
    }
}


pub proof fn lemma_word_pop_bound(w: u64, n: nat)
    ensures
        word_pop(w, n) <= n,
    decreases n,
{
    if n > 0 {
        lemma_word_pop_bound(w, (n - 1) as nat);
    }
}

/// Two words that agree on their `n` lowest bits have as many set bits there.
pub proof fn lemma_word_pop_agree(x: u64, w: u64, n: nat)
    requires
        forall|j: int| 0 <= j < n ==> word_bit(x, j) == word_bit(w, j),
    ensures
        word_pop(x, n) == word_pop(w, n),
    decreases n,
{
    if n > 0 {
        lemma_word_pop_agree(x, w, (n - 1) as nat);
    }
}

/// A word whose bits at and above `m` are clear among the `n` lowest counts only below `m`.
pub proof fn lemma_word_pop_low(x: u64, n: nat, m: nat)
    requires
        m <= n,
        forall|j: int| m <= j < n ==> !word_bit(x, j),
    ensures
        word_pop(x, n) == word_pop(x, m),
    decreases n,
{
    if n > m {
        lemma_word_pop_low(x, (n - 1) as nat, m);
    }
}

/// The number of set bits in `w`
fn count_ones_u64(w: u64) -> (r: u32)
    ensures
        r as nat == word_pop(w, 64),
{
    let mut n: u32 = 0;
    let mut i: u64 = 0;
    while i < 64
        invariant
            i <= 64,
            n as nat == word_pop(w, i as nat),
            n <= i,
        decreases 64 - i,
    {
        if (w >> i) & 1u64 == 1u64 {
            n = n + 1;
        }
        proof {
            assert(word_pop(w, (i + 1) as nat) == word_pop(w, i as nat) + if word_bit(w, i as int) { 1nat } else { 0nat });
        }
        i = i + 1;
    }
    n
}


/// Bit `i` of a little-endian sequence of words: bit `i % 64` of word `i / 64`.
pub open spec fn words_bit(a: Seq<u64>, i: int) -> bool {
    0 <= i < 64 * a.len() && word_bit(a[i / 64], i % 64)
}

/// The number of set bits of the words `a` below bit position `i`.
pub open spec fn words_count_below(a: Seq<u64>, i: nat) -> nat
    decreases i,
{
    if i == 0 {
        0
    } else {
        words_count_below(a, (i - 1) as nat) + if words_bit(a, i - 1) { 1nat } else { 0nat }
    }
}

/// The number of set bits of the words `a`.
pub open spec fn words_count(a: Seq<u64>) -> nat {
    words_count_below(a, (64 * a.len()) as nat)
}

pub proof fn lemma_count_below_word(a: Seq<u64>, w: int, j: nat)
    requires
        0 <= w < a.len(),
        j <= 64,
    ensures
        words_count_below(a, (64 * w + j) as nat) == words_count_below(a, (64 * w) as nat)
            + word_pop(a[w], j),
    decreases j,
{
    if j > 0 {
        lemma_count_below_word(a, w, (j - 1) as nat);
        let i = 64 * w + j - 1;
        assert(i / 64 == w) by (nonlinear_arith)
            requires
                i == 64 * w + j - 1,
                0 < j <= 64,
        ;
        assert(i % 64 == j - 1) by (nonlinear_arith)
            requires
                i == 64 * w + j - 1,
                0 < j <= 64,
        ;
    }
}

pub proof fn lemma_count_below_monotone(a: Seq<u64>, i: nat, k: nat)
    requires
        i <= k,
    ensures
        words_count_below(a, i) <= words_count_below(a, k),
        words_count_below(a, k) <= words_count_below(a, i) + (k - i),
    decreases k,
{
    if k > i {
        lemma_count_below_monotone(a, i, (k - 1) as nat);
    }
}

pub proof fn lemma_count_below_beyond(a: Seq<u64>, i: nat)
    requires
        i >= 64 * a.len(),
    ensures
        words_count_below(a, i) == words_count(a),
    decreases i,
{
    if i > 64 * a.len() {
        lemma_count_below_beyond(a, (i - 1) as nat);
    }
}

/// The number of bytes below `i` for which `f` holds.
pub open spec fn bytes_count_below(f: spec_fn(int) -> bool, i: nat) -> nat
    decreases i,
{
    if i == 0 {
        0
    } else {
        bytes_count_below(f, (i - 1) as nat) + if f(i - 1) {
            1nat
        } else {
            0nat
        }
    }
}

/// A mask holding the bytes for which `f` holds counts them.
pub proof fn lemma_mask_count(m: ByteMask, f: spec_fn(int) -> bool, i: nat)
    requires
        forall|b: int| 0 <= b < 256 ==> #[trigger] m.has(b) == f(b),
        i <= 256,
    ensures
        m.count_below(i as int) == bytes_count_below(f, i),
        i == 256 ==> m.count() == bytes_count_below(f, i),
    decreases i,
{
    if i > 0 {
        lemma_mask_count(m, f, (i - 1) as nat);
        assert(m.has(i - 1) == f(i - 1));
    }
}

/// Bit-twiddling methods for the masks found on trie nodes, such as a
/// [`ByteMask`] of the bytes below a focus.
pub trait BitMask: Sized {
    /// Whether bit `i` is set.
    spec fn bit_at(&self, i: int) -> bool;

    /// The number of bits the mask holds.
    spec fn bit_width(&self) -> nat;

    /// The number of set bits.
    spec fn set_count(&self) -> nat;

    /// Returns the number of set bits in the mask
    fn count_bits(&self) -> (r: usize)
        requires
            self.bit_width() <= usize::MAX,
        ensures
            r == self.set_count(),
    ;

    /// Returns `true` if all bits in the mask are clear, otherwise returns `false`
    fn is_empty_mask(&self) -> (r: bool)
        ensures
            r <==> forall|i: int| !#[trigger] self.bit_at(i),
    ;

    /// Returns `true` if the `k`th bit in the mask is set, otherwise returns `false`
    fn test_bit(&self, k: u8) -> (r: bool)
        ensures
            r == self.bit_at(k as int),
    ;

    /// Sets the `k`th bit in the mask
    fn set_bit(&mut self, k: u8)
        ensures
            final(self).bit_width() == old(self).bit_width(),
            forall|i: int|
                #![trigger final(self).bit_at(i)]
                final(self).bit_at(i) == (old(self).bit_at(i) || (i == k && i
                    < old(self).bit_width())),
    ;

    /// Clears the `k`th bit in the mask
    fn clear_bit(&mut self, k: u8)
        ensures
            final(self).bit_width() == old(self).bit_width(),
            forall|i: int|
                #![trigger final(self).bit_at(i)]
                final(self).bit_at(i) == (old(self).bit_at(i) && i != k),
    ;

    /// Clears all bits in the mask, restoring it to an empty mask
    fn make_empty(&mut self)
        ensures
            final(self).bit_width() == old(self).bit_width(),
            forall|i: int| !#[trigger] final(self).bit_at(i),
    ;

    /// Returns the bitwise `or` of the two masks
    fn or(&self, other: &Self) -> (r: Self)
        ensures
            r.bit_width() == self.bit_width(),
            forall|i: int|
                #![trigger r.bit_at(i)]
                r.bit_at(i) == ((self.bit_at(i) || other.bit_at(i)) && 0 <= i < self.bit_width()),
    ;

    /// Returns the bitwise `and` of the two masks
    fn and(&self, other: &Self) -> (r: Self)
        ensures
            r.bit_width() == self.bit_width(),
            forall|i: int| #![trigger r.bit_at(i)] r.bit_at(i) == (self.bit_at(i) && other.bit_at(i)),
    ;

    /// Returns the bitwise `xor` of the two masks
    fn xor(&self, other: &Self) -> (r: Self)
        ensures
            r.bit_width() == self.bit_width(),
            forall|i: int|
                #![trigger r.bit_at(i)]
                r.bit_at(i) == ((self.bit_at(i) != other.bit_at(i)) && 0 <= i < self.bit_width()),
    ;

    /// Returns the bitwise `andn` (the bits of `self` that are clear in `other`)
    fn andn(&self, other: &Self) -> (r: Self)
        ensures
            r.bit_width() == self.bit_width(),
            forall|i: int| #![trigger r.bit_at(i)] r.bit_at(i) == (self.bit_at(i) && !other.bit_at(i)),
    ;

    /// Returns the bitwise `not` of the mask
    fn not(&self) -> (r: Self)
        ensures
            r.bit_width() == self.bit_width(),
            forall|i: int|
                #![trigger r.bit_at(i)]
                r.bit_at(i) == (!self.bit_at(i) && 0 <= i < self.bit_width()),
    ;
}


proof fn lemma_bit_index(k: u8)
    ensures
        (k / 64) as int == (k as int) / 64,
        (k % 64) as int == (k as int) % 64,
        (k as int) / 64 < 4,
{
}

impl<const N: usize> BitMask for [u64; N] {
    open spec fn bit_at(&self, i: int) -> bool {
        words_bit(self@, i)
    }

    open spec fn bit_width(&self) -> nat {
        (64 * N) as nat
    }

    open spec fn set_count(&self) -> nat {
        words_count(self@)
    }

    fn count_bits(&self) -> (r: usize) {
        let mut total: usize = 0;
        let mut w: usize = 0;
        while w < N
            invariant
                w <= N,
                self@.len() == N,
                64 * N <= usize::MAX,
                total == words_count_below(self@, (64 * w) as nat),
                total <= 64 * w,
            decreases N - w,
        {
            let c = count_ones_u64(self[w]);
            proof {
                lemma_count_below_word(self@, w as int, 64);
                lemma_word_pop_bound(self@[w as int], 64);
            }
            total = total + c as usize;
            w = w + 1;
        }
        total
    }

    fn is_empty_mask(&self) -> (r: bool) {
        let mut w: usize = 0;
        while w < N
            invariant
                w <= N,
                self@.len() == N,
                forall|i: int| 0 <= i < 64 * w ==> !#[trigger] words_bit(self@, i),
            decreases N - w,
        {
            if self[w] != 0 {
                proof {
                    lemma_zero_word(self@[w as int]);
                    let j = choose|j: int| 0 <= j < 64 && #[trigger] word_bit(self@[w as int], j);
                    let i = 64 * w + j;
                    assert(i / 64 == w && i % 64 == j) by (nonlinear_arith)
                        requires
                            i == 64 * w + j,
                            0 <= j < 64,
                    ;
                    assert(self.bit_at(i));
                }
                return false;
            }
            proof {
                lemma_zero_word(self@[w as int]);
                assert forall|i: int| 0 <= i < 64 * (w + 1) implies !#[trigger] words_bit(self@, i) by {
                    if i >= 64 * w {
                        let j = i - 64 * w;
                        assert(i / 64 == w && i % 64 == j) by (nonlinear_arith)
                            requires
                                i == 64 * w + j,
                                0 <= j < 64,
                        ;
                    }
                }
            }
            w = w + 1;
        }
        proof {
            assert forall|i: int| !#[trigger] self.bit_at(i) by {
                if 0 <= i < 64 * N {
                    assert(!words_bit(self@, i));
                }
            }
        }
        true
    }

    fn test_bit(&self, k: u8) -> (r: bool) {
        let idx = (k / 64) as usize;
        proof {
            lemma_bit_index(k);
        }
        if idx < N {
            let word = self[idx];
            let sh = (k % 64) as u64;
            let r = word & (1u64 << sh) > 0;
            assert(r == word_bit(word, sh as int)) by {
                assert((word & (1u64 << sh) > 0) == ((word >> sh) & 1u64 == 1u64)) by (bit_vector)
                    requires
                        sh < 64,
                ;
            }
            r
        } else {
            false
        }
    }

    fn set_bit(&mut self, k: u8) {
        let idx = (k / 64) as usize;
        proof {
            lemma_bit_index(k);
        }
        if idx < N {
            let sh = (k % 64) as u64;
            let old_word = self[idx];
            let new_word = old_word | (1u64 << sh);
            self[idx] = new_word;
            proof {
                assert forall|i: int|
                    #![trigger self.bit_at(i)]
                    self.bit_at(i) == (old(self).bit_at(i) || (i == k && i < old(self).bit_width())) by {
                    if 0 <= i < 64 * N {
                        let wi = i / 64;
                        let ji = (i % 64) as u64;
                        if wi == idx {
                            lemma_bit_or(old_word, 1u64 << sh, ji);
                            lemma_bit_single(sh, ji);
                            assert(i == k <==> ji == sh) by (nonlinear_arith)
                                requires
                                    wi == i / 64,
                                    ji == i % 64,
                                    wi == k / 64,
                                    sh == k % 64,
                                    0 <= i,
                            ;
                        } else {
                            assert(i != k);
                        }
                    }
                }
            }
        }
    }

    fn clear_bit(&mut self, k: u8) {
        let idx = (k / 64) as usize;
        proof {
            lemma_bit_index(k);
        }
        if idx < N {
            let sh = (k % 64) as u64;
            let old_word = self[idx];
            let new_word = old_word & !(1u64 << sh);
            self[idx] = new_word;
            proof {
                assert forall|i: int|
                    #![trigger self.bit_at(i)]
                    self.bit_at(i) == (old(self).bit_at(i) && i != k) by {
                    if 0 <= i < 64 * N {
                        let wi = i / 64;
                        let ji = (i % 64) as u64;
                        if wi == idx {
                            lemma_bit_andn(old_word, 1u64 << sh, ji);
                            lemma_bit_single(sh, ji);
                            assert(i == k <==> ji == sh) by (nonlinear_arith)
                                requires
                                    wi == i / 64,
                                    ji == i % 64,
                                    wi == k / 64,
                                    sh == k % 64,
                                    0 <= i,
                            ;
                        } else {
                            assert(i != k);
                        }
                    }
                }
            }
        } else {
            assert forall|i: int| #![trigger self.bit_at(i)] self.bit_at(i) == (old(self).bit_at(i) && i != k) by {
                if i == k {
                    assert(i >= 64 * N) by (nonlinear_arith)
                        requires
                            i == k,
                            (k as int) / 64 >= N,
                    ;
                }
            }
        }
    }

    fn make_empty(&mut self) {
        let mut w: usize = 0;
        while w < N
            invariant
                w <= N,
                self@.len() == N,
                forall|x: int| 0 <= x < w ==> self@[x] == 0u64,
            decreases N - w,
        {
            self[w] = 0;
            w = w + 1;
        }
        proof {
            assert forall|i: int| !#[trigger] self.bit_at(i) by {
                if 0 <= i < 64 * N {
                    lemma_zero_word(self@[i / 64]);
                }
            }
        }
    }

    fn or(&self, other: &Self) -> (r: Self) {
        let mut result = *self;
        let mut w: usize = 0;
        while w < N
            invariant
                w <= N,
                result@.len() == N,
                self@.len() == N,
                other@.len() == N,
                forall|x: int| 0 <= x < w ==> result@[x] == self@[x] | other@[x],
            decreases N - w,
        {
            result[w] = self[w] | other[w];
            w = w + 1;
        }
        proof {
            assert forall|i: int|
                #![trigger result.bit_at(i)]
                result.bit_at(i) == ((self.bit_at(i) || other.bit_at(i)) && 0 <= i < self.bit_width()) by {
                if 0 <= i < 64 * N {
                    lemma_bit_or(self@[i / 64], other@[i / 64], (i % 64) as u64);
                }
            }
        }
        result
    }

    fn and(&self, other: &Self) -> (r: Self) {
        let mut result = *self;
        let mut w: usize = 0;
        while w < N
            invariant
                w <= N,
                result@.len() == N,
                self@.len() == N,
                other@.len() == N,
                forall|x: int| 0 <= x < w ==> result@[x] == self@[x] & other@[x],
            decreases N - w,
        {
            result[w] = self[w] & other[w];
            w = w + 1;
        }
        proof {
            assert forall|i: int|
                #![trigger result.bit_at(i)]
                result.bit_at(i) == (self.bit_at(i) && other.bit_at(i)) by {
                if 0 <= i < 64 * N {
                    lemma_bit_and(self@[i / 64], other@[i / 64], (i % 64) as u64);
                }
            }
        }
        result
    }

    fn xor(&self, other: &Self) -> (r: Self) {
        let mut result = *self;
        let mut w: usize = 0;
        while w < N
            invariant
                w <= N,
                result@.len() == N,
                self@.len() == N,
                other@.len() == N,
                forall|x: int| 0 <= x < w ==> result@[x] == self@[x] ^ other@[x],
            decreases N - w,
        {
            result[w] = self[w] ^ other[w];
            w = w + 1;
        }
        proof {
            assert forall|i: int|
                #![trigger result.bit_at(i)]
                result.bit_at(i) == ((self.bit_at(i) != other.bit_at(i)) && 0 <= i < self.bit_width()) by {
                if 0 <= i < 64 * N {
                    lemma_bit_xor(self@[i / 64], other@[i / 64], (i % 64) as u64);
                }
            }
        }
        result
    }

    fn andn(&self, other: &Self) -> (r: Self) {
        let mut result = *self;
        let mut w: usize = 0;
        while w < N
            invariant
                w <= N,
                result@.len() == N,
                self@.len() == N,
                other@.len() == N,
                forall|x: int| 0 <= x < w ==> result@[x] == self@[x] & !other@[x],
            decreases N - w,
        {
            result[w] = self[w] & !other[w];
            w = w + 1;
        }
        proof {
            assert forall|i: int|
                #![trigger result.bit_at(i)]
                result.bit_at(i) == (self.bit_at(i) && !other.bit_at(i)) by {
                if 0 <= i < 64 * N {
                    lemma_bit_andn(self@[i / 64], other@[i / 64], (i % 64) as u64);
                }
            }
        }
        result
    }

    fn not(&self) -> (r: Self) {
        let mut result = *self;
        let mut w: usize = 0;
        while w < N
            invariant
                w <= N,
                result@.len() == N,
                self@.len() == N,
                forall|x: int| 0 <= x < w ==> result@[x] == !self@[x],
            decreases N - w,
        {
            result[w] = !self[w];
            w = w + 1;
        }
        proof {
            assert forall|i: int|
                #![trigger result.bit_at(i)]
                result.bit_at(i) == (!self.bit_at(i) && 0 <= i < self.bit_width()) by {
                if 0 <= i < 64 * N {
                    lemma_bit_not(self@[i / 64], (i % 64) as u64);
                }
            }
        }
        result
    }
}


pub proof fn lemma_trailing_zeros(x: u64)
    ensures
        vstd::std_specs::bits::u64_trailing_zeros(x) <= 64,
        x == 0 <==> vstd::std_specs::bits::u64_trailing_zeros(x) == 64,
        vstd::std_specs::bits::u64_trailing_zeros(x) < 64 ==> word_bit(
            x,
            vstd::std_specs::bits::u64_trailing_zeros(x) as int,
        ),
        forall|j: int|
            0 <= j < vstd::std_specs::bits::u64_trailing_zeros(x) ==> !#[trigger] word_bit(x, j),
{
    vstd::std_specs::bits::axiom_u64_trailing_zeros(x);
    let t = vstd::std_specs::bits::u64_trailing_zeros(x);
    assert forall|j: int| 0 <= j < t implies !#[trigger] word_bit(x, j) by {
        let jj = j as u64;
        assert((x >> jj) & 1u64 == 0u64);
    }
}

pub proof fn lemma_leading_zeros(x: u64)
    ensures
        vstd::std_specs::bits::u64_leading_zeros(x) <= 64,
        x == 0 <==> vstd::std_specs::bits::u64_leading_zeros(x) == 64,
        vstd::std_specs::bits::u64_leading_zeros(x) < 64 ==> word_bit(
            x,
            63 - vstd::std_specs::bits::u64_leading_zeros(x),
        ),
        forall|j: int|
            63 - vstd::std_specs::bits::u64_leading_zeros(x) < j < 64 ==> !#[trigger] word_bit(
                x,
                j,
            ),
{
    vstd::std_specs::bits::axiom_u64_leading_zeros(x);
    let l = vstd::std_specs::bits::u64_leading_zeros(x);
    if l < 64 {
        let s = (63 - l) as u64;
        assert((x >> s) & 1u64 != 0u64 ==> (x >> s) & 1u64 == 1u64) by (bit_vector);
    }
    assert forall|j: int| 63 - l < j < 64 implies !#[trigger] word_bit(x, j) by {
        let jj = j as u64;
        assert((x >> jj) & 1u64 == 0u64);
    }
}

/// Keeping the bits at and above `m`.
pub proof fn lemma_mask_high(w: u64, m: u64, j: u64)
    requires
        m < 64,
        j < 64,
    ensures
        word_bit(w & (!0u64 << m), j as int) == (j >= m && word_bit(w, j as int)),
{
    assert(((w & (!0u64 << m)) >> j) & 1u64 == 1u64 <==> (j >= m && (w >> j) & 1u64 == 1u64))
        by (bit_vector)
        requires
            m < 64,
            j < 64,
    ;
}

/// Keeping the bits at and below `m`.
pub proof fn lemma_mask_low(w: u64, m: u64, j: u64)
    requires
        m < 64,
        j < 64,
    ensures
        word_bit(w & (!0u64 >> ((63 - m) as u64)), j as int) == (j <= m && word_bit(w, j as int)),
{
    assert(((w & (!0u64 >> ((63 - m) as u64))) >> j) & 1u64 == 1u64 <==> (j <= m && (w >> j) & 1u64
        == 1u64)) by (bit_vector)
        requires
            m < 64,
            j < 64,
    ;
}

proof fn lemma_full_word(w: u64, j: u64)
    requires
        j < 64,
    ensures
        word_bit(w & !0u64, j as int) == word_bit(w, j as int),
{
    assert(((w & !0u64) >> j) & 1u64 == (w >> j) & 1u64) by (bit_vector);
}

/// Clearing a set bit `t` of a word removes one from every count that includes it.
pub proof fn lemma_word_pop_clear(w: u64, t: u64, n: nat)
    requires
        t < 64,
        n <= 64,
        word_bit(w, t as int),
    ensures
        word_pop(w ^ (1u64 << t), n) + (if t < n { 1nat } else { 0nat }) == word_pop(w, n),
    decreases n,
{
    if n > 0 {
        lemma_word_pop_clear(w, t, (n - 1) as nat);
        let j = (n - 1) as u64;
        lemma_bit_xor(w, 1u64 << t, j);
        lemma_bit_single(t, j);
    }
}

/// If no set bit below `n` has `k` set bits beneath it, at most `k` bits are set below `n`.
pub proof fn lemma_word_pop_capped(w: u64, n: nat, k: nat)
    requires
        n <= 64,
        forall|j: int| 0 <= j < n && word_bit(w, j) ==> word_pop(w, j as nat) < k,
    ensures
        word_pop(w, n) <= k,
    decreases n,
{
    if n > 0 {
        lemma_word_pop_capped(w, (n - 1) as nat, k);
    }
}

pub proof fn lemma_word_pop_monotone(w: u64, i: nat, k: nat)
    requires
        i <= k,
    ensures
        word_pop(w, i) <= word_pop(w, k),
    decreases k,
{
    if k > i {
        lemma_word_pop_monotone(w, i, (k - 1) as nat);
    }
}

proof fn lemma_full_bit(j: u64)
    requires
        j < 64,
    ensures
        word_bit(!0u64, j as int),
{
    assert(((!0u64) >> j) & 1u64 == 1u64) by (bit_vector)
        requires
            j < 64,
    ;
}

/// The position of the `idx`-th lowest set bit of `word`.
fn nth_lowest_set_bit(word: u64, idx: usize) -> (loc: u32)
    requires
        idx < word_pop(word, 64),
    ensures
        loc < 64,
        word_bit(word, loc as int),
        word_pop(word, loc as nat) == idx,
{
    let ghost orig = word;
    let mut word = word;
    let mut idx = idx;
    let ghost mut k: nat = 0;
    let ghost idx0 = idx;
    proof {
        lemma_trailing_zeros(word);
        lemma_word_pop_bound(orig, 64);
    }
    let mut loc = word.trailing_zeros();
    proof {
        lemma_trailing_zeros(word);
        if loc == 64 {
            lemma_zero_word(word);
            lemma_word_pop_agree(word, 0u64, 64);
            lemma_word_pop_agree(0u64, 0u64, 64);
            assert forall|j: int| 0 <= j < 64 implies !#[trigger] word_bit(0u64, j) by {
                lemma_zero_word(0u64);
            }
            lemma_word_pop_low(0u64, 64, 0);
        }
    }
    while idx > 0
        invariant
            k + idx == idx0,
            idx0 < word_pop(orig, 64),
            forall|j: int|
                0 <= j < 64 ==> #[trigger] word_bit(word, j) == (word_bit(orig, j) && word_pop(
                    orig,
                    j as nat,
                ) >= k),
            word_pop(word, 64) + k == word_pop(orig, 64),
            loc == vstd::std_specs::bits::u64_trailing_zeros(word),
            loc < 64,
        decreases idx,
    {
        proof {
            lemma_trailing_zeros(word);
        }
        let ghost before = word;
        let bit = 1u64 << loc;
        proof {
            lemma_word_pop_clear(before, loc as u64, 64);
        }
        word = word ^ bit;
        proof {
            // the cleared bit was the lowest bit still counted from `k`
            assert(word_pop(orig, loc as nat) <= k) by {
                assert forall|j: int| 0 <= j < loc && word_bit(orig, j) implies word_pop(
                    orig,
                    j as nat,
                ) < k by {
                    assert(!word_bit(before, j));
                }
                lemma_word_pop_capped(orig, loc as nat, k);
            }
            assert forall|j: int|
                0 <= j < 64 implies #[trigger] word_bit(word, j) == (word_bit(orig, j) && word_pop(
                orig,
                j as nat,
            ) >= k + 1) by {
                lemma_bit_xor(before, 1u64 << (loc as u64), j as u64);
                lemma_bit_single(loc as u64, j as u64);
                if j > loc && word_bit(orig, j) {
                    lemma_word_pop_monotone(orig, (loc + 1) as nat, j as nat);
                }
                if j < loc && word_bit(orig, j) && word_pop(orig, j as nat) >= k {
                    assert(word_bit(before, j));
                }
            }
            k = k + 1;
            lemma_trailing_zeros(word);
            if vstd::std_specs::bits::u64_trailing_zeros(word) == 64 {
                lemma_zero_word(word);
                lemma_word_pop_low(word, 64, 0);
            }
        }
        loc = word.trailing_zeros();
        idx = idx - 1;
    }
    proof {
        lemma_trailing_zeros(word);
        assert(word_bit(orig, loc as int));
        assert forall|j: int| 0 <= j < loc && word_bit(orig, j) implies word_pop(
            orig,
            j as nat,
        ) < k by {
            assert(!word_bit(word, j));
        }
        lemma_word_pop_capped(orig, loc as nat, k);
    }
    loc
}

/// A 256-bit type containing a bit for every possible value in a byte
#[derive(Clone, Copy, Default, PartialEq, Eq, Debug)]
pub struct ByteMask(pub [u64; 4]);

impl ByteMask {
    /// Whether byte `b` is in the mask.
    pub open spec fn has(self, b: int) -> bool {
        words_bit(self.0@, b)
    }

    /// The number of bytes in the mask below `b`.
    pub open spec fn count_below(self, b: int) -> nat {
        words_count_below(self.0@, b as nat)
    }

    /// The number of bytes in the mask.
    pub open spec fn count(self) -> nat {
        words_count(self.0@)
    }

    /// The number of bytes in the mask
    pub fn len(&self) -> (r: usize)
        ensures
            r == self.count(),
    {
        self.count_bits()
    }

    /// The empty mask
    pub fn empty() -> (r: ByteMask)
        ensures
            forall|b: int| !#[trigger] r.has(b),
    {
        let r = ByteMask([0u64, 0u64, 0u64, 0u64]);
        proof {
            lemma_zero_word(0u64);
        }
        r
    }

    /// The mask holding every byte
    pub fn full() -> (r: ByteMask)
        ensures
            forall|b: int| #[trigger] r.has(b) <==> 0 <= b < 256,
    {
        let r = ByteMask([!0u64, !0u64, !0u64, !0u64]);
        proof {
            assert forall|b: int| #[trigger] r.has(b) <==> 0 <= b < 256 by {
                if 0 <= b < 256 {
                    let j = (b % 64) as u64;
                    assert(((!0u64) >> j) & 1u64 == 1u64) by (bit_vector)
                        requires
                            j < 64,
                    ;
                }
            }
        }
        r
    }

    /// Create a new empty ByteMask
    pub fn new() -> (r: ByteMask)
        ensures
            forall|b: int| !#[trigger] r.has(b),
    {
        Self::empty()
    }

    /// Unwraps the `ByteMask` type to yield the inner array
    pub fn into_inner(self) -> (r: [u64; 4])
        ensures
            r == self.0,
    {
        self.0
    }

    /// Returns how many set bits precede the requested bit
    pub fn index_of(&self, byte: u8) -> (r: u8)
        ensures
            r == self.count_below(byte as int),
    {
        if byte == 0 {
            return 0;
        }
        let last = ((byte - 1) / 64) as usize;
        let m = ((byte - 1) % 64) as u64;
        let mask = !0u64 >> (63 - m);
        let mut count: u32 = 0;
        let mut w: usize = 0;
        while w < last
            invariant
                w <= last,
                last < 4,
                self.0@.len() == 4,
                count == words_count_below(self.0@, (64 * w) as nat),
                count <= 64 * w,
            decreases last - w,
        {
            let c = count_ones_u64(self.0[w]);
            proof {
                lemma_count_below_word(self.0@, w as int, 64);
                lemma_word_pop_bound(self.0@[w as int], 64);
            }
            count = count + c;
            w = w + 1;
        }
        let active = self.0[last];
        let c = count_ones_u64(active & mask);
        proof {
            assert forall|j: int| 0 <= j < 64 implies #[trigger] word_bit(active & mask, j) == (j
                < m + 1 && word_bit(active, j)) by {
                lemma_mask_low(active, m, j as u64);
            }
            assert forall|j: int| 0 <= j < m + 1 implies word_bit(active & mask, j) == word_bit(
                active,
                j,
            ) by {}
            lemma_word_pop_low(active & mask, 64, (m + 1) as nat);
            lemma_word_pop_agree(active & mask, active, (m + 1) as nat);
            lemma_count_below_word(self.0@, last as int, (m + 1) as nat);
            assert(64 * last + m + 1 == byte);
            lemma_count_below_monotone(self.0@, 0, byte as nat);
        }
        (count + c) as u8
    }

    /// Returns the bit in the mask corresponding to the next highest bit above `byte`, or `None`
    /// if `byte` was at or above the highest set bit in the mask
    pub fn next_bit(&self, byte: u8) -> (r: Option<u8>)
        ensures
            r matches Some(n) ==> byte < n && self.has(n as int) && forall|b: int|
                byte < b < n ==> !#[trigger] self.has(b),
            r is None ==> forall|b: int| byte < b < 256 ==> !#[trigger] self.has(b),
    {
        if byte == 255 {
            return None;
        }
        let start = byte + 1;
        let mut word_idx = (start / 64) as usize;
        let mod_idx = (start % 64) as u64;
        let mut mask = !0u64 << mod_idx;
        proof {
            assert forall|j: int| 0 <= j < 64 implies #[trigger] word_bit(mask, j) == (64
                * word_idx + j >= start) by {
                assert(word_bit(!0u64 & mask, j) == word_bit(mask, j)) by {
                    lemma_full_word(mask, j as u64);
                    assert(!0u64 & mask == mask) by (bit_vector);
                }
                lemma_mask_high(!0u64, mod_idx, j as u64);
                lemma_full_bit(j as u64);
            }
        }
        while word_idx < 4
            invariant
                self.0@.len() == 4,
                start == byte + 1,
                (start as int) / 64 <= word_idx,
                forall|b: int| start <= b < 64 * word_idx ==> !#[trigger] self.has(b),
                forall|j: int|
                    0 <= j < 64 ==> #[trigger] word_bit(mask, j) == (64 * word_idx + j >= start),
            decreases 4 - word_idx,
        {
            let w = self.0[word_idx];
            let x = w & mask;
            let cnt = x.trailing_zeros();
            proof {
                assert(w == self.0@[word_idx as int]);
                lemma_trailing_zeros(x);
                assert forall|j: int| 0 <= j < 64 implies #[trigger] word_bit(x, j) == (word_bit(
                    w,
                    j,
                ) && word_bit(mask, j)) by {
                    lemma_bit_and(w, mask, j as u64);
                }
            }
            if cnt < 64 {
                let n = (word_idx as u8) * 64 + (cnt as u8);
                proof {
                    assert((n as int) / 64 == word_idx && (n as int) % 64 == cnt) by (nonlinear_arith)
                        requires
                            n == 64 * word_idx + cnt,
                            cnt < 64,
                    ;
                    assert forall|b: int| byte < b < n implies !#[trigger] self.has(b) by {
                        if b >= 64 * word_idx {
                            let j = b - 64 * word_idx;
                            assert(b / 64 == word_idx && b % 64 == j) by (nonlinear_arith)
                                requires
                                    b == 64 * word_idx + j,
                                    0 <= j < 64,
                            ;
                            assert(j < cnt);
                            assert(!word_bit(x, j));
                            assert(0 <= j < 64);
                            assert(word_bit(mask, j) == (64 * word_idx + j >= start));
                            assert(b >= start);
                            assert(word_bit(mask, j));
                            assert(!word_bit(w, j));
                            assert(self.0@[b / 64] == w);
                        } else {
                            assert(start <= b);
                        }
                    }
                }
                return Some(n);
            }
            proof {
                lemma_zero_word(x);
                assert forall|b: int| start <= b < 64 * (word_idx + 1) implies !#[trigger] self.has(b) by {
                    if b >= 64 * word_idx {
                        let j = b - 64 * word_idx;
                        assert(b / 64 == word_idx && b % 64 == j) by (nonlinear_arith)
                            requires
                                b == 64 * word_idx + j,
                                0 <= j < 64,
                        ;
                        assert(!word_bit(x, j));
                    }
                }
            }
            mask = !0u64;
            proof {
                assert(64 * (word_idx + 1) > start) by (nonlinear_arith)
                    requires
                        (start as int) / 64 <= word_idx,
                ;
                assert forall|j: int| 0 <= j < 64 implies #[trigger] word_bit(mask, j) == (64 * (
                word_idx + 1) + j >= start) by {
                    lemma_full_bit(j as u64);
                }
            }
            word_idx = word_idx + 1;
        }
        None
    }

    /// Returns the bit in the mask corresponding to the previous bit below `byte`, or `None`
    /// if `byte` was at or below the lowest set bit in the mask
    pub fn prev_bit(&self, byte: u8) -> (r: Option<u8>)
        ensures
            r matches Some(n) ==> n < byte && self.has(n as int) && forall|b: int|
                n < b < byte ==> !#[trigger] self.has(b),
            r is None ==> forall|b: int| 0 <= b < byte ==> !#[trigger] self.has(b),
    {
        if byte == 0 {
            return None;
        }
        let top = byte - 1;
        let mut word_idx: usize = (top / 64) as usize;
        let mod_idx = (top % 64) as u64;
        let mut mask = !0u64 >> (63 - mod_idx);
        proof {
            assert forall|j: int| 0 <= j < 64 implies #[trigger] word_bit(mask, j) == (64
                * word_idx + j <= top) by {
                lemma_mask_low(!0u64, mod_idx, j as u64);
                assert(!0u64 & mask == mask) by (bit_vector);
                lemma_full_bit(j as u64);
            }
        }
        loop
            invariant
                self.0@.len() == 4,
                top + 1 == byte,
                word_idx < 4,
                64 * word_idx <= top,
                forall|b: int| 64 * (word_idx + 1) <= b <= top ==> !#[trigger] self.has(b),
                forall|j: int|
                    0 <= j < 64 ==> #[trigger] word_bit(mask, j) == (64 * word_idx + j <= top),
            decreases word_idx,
        {
            let w = self.0[word_idx];
            let x = w & mask;
            let lz = x.leading_zeros();
            proof {
                assert(w == self.0@[word_idx as int]);
                lemma_leading_zeros(x);
                assert forall|j: int| 0 <= j < 64 implies #[trigger] word_bit(x, j) == (word_bit(
                    w,
                    j,
                ) && word_bit(mask, j)) by {
                    lemma_bit_and(w, mask, j as u64);
                }
            }
            if lz < 64 {
                let loc = 63 - (lz as u8);
                let n = (word_idx as u8) * 64 + loc;
                proof {
                    assert((n as int) / 64 == word_idx && (n as int) % 64 == loc) by (nonlinear_arith)
                        requires
                            n == 64 * word_idx + loc,
                            loc < 64,
                    ;
                    assert forall|b: int| n < b < byte implies !#[trigger] self.has(b) by {
                        if b < 64 * (word_idx + 1) {
                            let j = b - 64 * word_idx;
                            assert(b / 64 == word_idx && b % 64 == j) by (nonlinear_arith)
                                requires
                                    b == 64 * word_idx + j,
                                    0 <= j < 64,
                            ;
                            assert(!word_bit(x, j));
                        }
                    }
                }
                return Some(n);
            }
            proof {
                lemma_zero_word(x);
                assert forall|b: int| 64 * word_idx <= b <= top implies !#[trigger] self.has(b) by {
                    if b < 64 * (word_idx + 1) {
                        let j = b - 64 * word_idx;
                        assert(b / 64 == word_idx && b % 64 == j) by (nonlinear_arith)
                            requires
                                b == 64 * word_idx + j,
                                0 <= j < 64,
                        ;
                        assert(!word_bit(x, j));
                    }
                }
            }
            if word_idx == 0 {
                return None;
            }
            mask = !0u64;
            proof {
                assert forall|j: int| 0 <= j < 64 implies #[trigger] word_bit(mask, j) == (64 * (
                word_idx - 1) + j <= top) by {
                    lemma_full_bit(j as u64);
                }
            }
            word_idx = word_idx - 1;
        }
    }

    /// Returns the byte corresponding to the `idx`-th set bit in the mask, counting forwards
    /// from the lowest byte, or backwards from the highest one
    pub fn indexed_bit<const FORWARD: bool>(&self, idx: usize) -> (r: Option<u8>)
        ensures
            r is None <==> idx >= self.count(),
            r matches Some(b) ==> self.has(b as int),
            r matches Some(b) ==> FORWARD ==> self.count_below(b as int) == idx,
            r matches Some(b) ==> !FORWARD ==> self.count() - self.count_below(b + 1) == idx,
    {
        let ghost idx0 = idx;
        let ghost a = self.0@;
        let mut remaining = idx;
        let mut word_idx: usize = if FORWARD {
            0
        } else {
            3
        };
        proof {
            lemma_count_below_beyond(a, 256);
            lemma_count_below_monotone(a, 0, 256);
        }
        loop
            invariant
                a == self.0@,
                a.len() == 4,
                idx == idx0,
                word_idx < 4,
                FORWARD ==> idx0 == remaining + words_count_below(a, (64 * word_idx) as nat),
                !FORWARD ==> idx0 == remaining + (words_count(a) - words_count_below(
                    a,
                    (64 * (word_idx + 1)) as nat,
                )),
                !FORWARD ==> words_count_below(a, (64 * (word_idx + 1)) as nat) <= words_count(a),
            decreases if FORWARD {
                4 - word_idx
            } else {
                word_idx + 1
            },
        {
            let word = self.0[word_idx];
            let bit_count = count_ones_u64(word) as usize;
            proof {
                lemma_count_below_word(a, word_idx as int, 64);
                lemma_word_pop_bound(word, 64);
                lemma_count_below_monotone(a, (64 * (word_idx + 1)) as nat, 256);
            }
            if remaining < bit_count {
                let loc = nth_set_bit_in_word::<FORWARD>(word, remaining);
                assert(word_idx * 64 + loc < 256);
                let b = (word_idx * 64 + loc as usize) as u8;
                proof {
                    assert(b == 64 * word_idx + loc);
                    assert(words_count(a) == words_count_below(a, 256));
                    assert((b as int) / 64 == word_idx && (b as int) % 64 == loc) by (nonlinear_arith)
                        requires
                            b == 64 * word_idx + loc,
                            loc < 64,
                    ;
                    lemma_count_below_word(a, word_idx as int, loc as nat);
                    lemma_count_below_word(a, word_idx as int, (loc + 1) as nat);
                    lemma_count_below_monotone(a, (b + 1) as nat, 256);
                    lemma_count_below_monotone(a, (64 * word_idx) as nat, (64 * (word_idx + 1)) as nat);
                    assert(words_count_below(a, (64 * word_idx + 64) as nat) == words_count_below(a, (64 * word_idx) as nat) + word_pop(word, 64));
                    assert((64 * word_idx + 64) as nat == (64 * (word_idx + 1)) as nat);
                    assert(words_count_below(a, (64 * (word_idx + 1)) as nat) <= words_count_below(a, 256));
                    assert(self.count() == words_count(a));
                    if FORWARD {
                        assert(idx0 < words_count(a));
                    } else {
                        assert(idx0 < words_count(a));
                        assert(words_count_below(a, (64 * word_idx + loc + 1) as nat) == words_count_below(a, (64 * word_idx) as nat) + word_pop(word, (loc + 1) as nat));
                        assert((b + 1) as nat == (64 * word_idx + loc + 1) as nat);
                        assert(self.count() - self.count_below(b + 1) == idx0);
                    }
                    assert(idx0 < self.count());
                }
                return Some(b);
            }
            remaining = remaining - bit_count;
            if FORWARD {
                if word_idx == 3 {
                    assert(words_count(a) == words_count_below(a, 256));
                    assert((64 * word_idx + 64) as nat == 256);
                    return None;
                }
                word_idx = word_idx + 1;
            } else {
                if word_idx == 0 {
                    assert(words_count_below(a, 0) == 0);
                    return None;
                }
                word_idx = word_idx - 1;
            }
        }
    }

    /// Nth row of the Sierpinski triangle: the bytes whose set bits are all set in `b`
    pub fn subset(b: u8) -> (r: ByteMask)
        ensures
            forall|j: int| #[trigger] r.has(j) <==> 0 <= j < 256 && (b & (j as u8)) == (j as u8),
    {
        let mut r = ByteMask::empty();
        let mut j: u16 = 0;
        while j < 256
            invariant
                j <= 256,
                r.0@.len() == 4,
                forall|x: int|
                    #[trigger] r.has(x) <==> 0 <= x < j && (b & (x as u8)) == (x as u8),
            decreases 256 - j,
        {
            let jb = j as u8;
            let ghost before = r;
            if b & jb == jb {
                r.0.set_bit(jb);
            }
            proof {
                assert forall|x: int|
                    #[trigger] r.has(x) <==> 0 <= x < j + 1 && (b & (x as u8)) == (x as u8) by {
                    assert(r.has(x) == r.0.bit_at(x));
                    assert(before.has(x) == before.0.bit_at(x));
                    if x == j {
                        assert((x as u8) == jb);
                        if b & jb == jb {
                            assert(r.0.bit_at(x));
                        } else {
                            assert(!before.has(x));
                            assert(r == before);
                        }
                    } else {
                        assert(r.0.bit_at(x) == before.0.bit_at(x));
                    }
                }
            }
            j = j + 1;
        }
        r
    }

    /// Constructs a `ByteMask` holding the bytes in the half-open interval `[start, end)`,
    /// where `end` may be 256
    pub fn from_bounds(start: usize, end: usize) -> (r: ByteMask)
        requires
            end <= 256,
        ensures
            forall|b: int| #[trigger] r.has(b) <==> start <= b < end,
    {
        if start >= end {
            return ByteMask::empty();
        }
        let mut mask: [u64; 4] = [0u64, 0u64, 0u64, 0u64];
        let end_idx = end - 1;
        let start_word = start / 64;
        let end_word = end_idx / 64;
        let start_bit = (start % 64) as u64;
        let end_bit = (end_idx % 64) as u64;
        if start_word == end_word {
            let len = end_bit - start_bit + 1;
            mask[start_word] = (u64::MAX >> (64 - len)) << start_bit;
            proof {
                assert forall|b: int| #[trigger] words_bit(mask@, b) <==> start <= b < end by {
                    if 0 <= b < 256 {
                        lemma_word_order(start as int, b);
                        lemma_word_order(b, end_idx as int);
                        let j = (b % 64) as u64;
                        if b / 64 == start_word {
                            lemma_window(start_bit, len, j);
                        } else {
                            lemma_zero_word(0u64);
                        }
                    }
                }
            }
        } else {
            mask[start_word] = (!0u64) << start_bit;
            let mut w = start_word + 1;
            while w < end_word
                invariant
                    mask@.len() == 4,
                    start_word < w <= end_word,
                    end_word < 4,
                    forall|x: int| start_word < x < w ==> mask@[x] == !0u64,
                    forall|x: int| w <= x < 4 ==> mask@[x] == 0u64,
                    mask@[start_word as int] == (!0u64) << start_bit,
                    forall|x: int| 0 <= x < start_word ==> mask@[x] == 0u64,
                decreases end_word - w,
            {
                mask[w] = !0u64;
                w = w + 1;
            }
            mask[end_word] = !0u64 >> (63 - end_bit);
            proof {
                assert forall|b: int| #[trigger] words_bit(mask@, b) <==> start <= b < end by {
                    if 0 <= b < 256 {
                        lemma_word_order(start as int, b);
                        lemma_word_order(b, end_idx as int);
                        let j = (b % 64) as u64;
                        let wb = b / 64;
                        assert(words_bit(mask@, b) == word_bit(mask@[wb], j as int));
                        if wb == start_word {
                            lemma_mask_high(!0u64, start_bit, j);
                            lemma_full_bit(j);
                            assert(!0u64 & ((!0u64) << start_bit) == (!0u64) << start_bit) by (bit_vector);
                            assert(mask@[wb] == (!0u64) << start_bit);
                            assert(word_bit(mask@[wb], j as int) == (j >= start_bit));
                            assert(start <= b <==> j >= start_bit);
                            assert(b < end);
                        } else if wb == end_word {
                            lemma_mask_low(!0u64, end_bit, j);
                            lemma_full_bit(j);
                            assert(!0u64 & (!0u64 >> ((63 - end_bit) as u64)) == !0u64 >> ((63 - end_bit) as u64)) by (bit_vector);
                            assert(mask@[wb] == !0u64 >> ((63 - end_bit) as u64));
                            assert(word_bit(mask@[wb], j as int) == (j <= end_bit));
                            assert(b <= end_idx <==> j <= end_bit);
                            assert(start <= b);
                        } else if start_word < wb < end_word {
                            lemma_full_bit(j);
                            assert(mask@[wb] == !0u64);
                        } else {
                            lemma_zero_word(0u64);
                            assert(mask@[wb] == 0u64);
                        }
                    }
                }
            }
        }
        ByteMask(mask)
    }

    /// Constructs a `ByteMask` with all bits in the given range set
    pub fn from_range<R: ByteRange>(range: R) -> (r: ByteMask)
        ensures
            forall|b: int| #[trigger] r.has(b) <==> range.byte_start() <= b < range.byte_end(),
    {
        let (start, end) = range.byte_bounds();
        Self::from_bounds(start, end)
    }
}

/// Comparing two positions by their word, then by their bit within the word.
proof fn lemma_word_order(x: int, y: int)
    requires
        0 <= x,
        0 <= y,
    ensures
        x <= y <==> (x / 64 < y / 64 || (x / 64 == y / 64 && x % 64 <= y % 64)),
{
    assert(x == 64 * (x / 64) + x % 64) by (nonlinear_arith)
        requires
            0 <= x,
    ;
    assert(y == 64 * (y / 64) + y % 64) by (nonlinear_arith)
        requires
            0 <= y,
    ;
    assert(0 <= x % 64 < 64);
    assert(0 <= y % 64 < 64);
    if x / 64 < y / 64 {
        assert(64 * (x / 64) + 64 <= 64 * (y / 64)) by (nonlinear_arith)
            requires
                x / 64 < y / 64,
        ;
    }
    if x / 64 > y / 64 {
        assert(64 * (y / 64) + 64 <= 64 * (x / 64)) by (nonlinear_arith)
            requires
                x / 64 > y / 64,
        ;
    }
}

/// Bits `s` up to `s + len` of a window of `len` set bits shifted by `s`.
proof fn lemma_window(s: u64, len: u64, j: u64)
    requires
        0 < len,
        s + len <= 64,
        j < 64,
    ensures
        word_bit((u64::MAX >> ((64 - len) as u64)) << s, j as int) == (s <= j < s + len),
{
    assert((((u64::MAX >> ((64 - len) as u64)) << s) >> j) & 1u64 == 1u64 <==> (s <= j && j < s
        + len)) by (bit_vector)
        requires
            0 < len,
            s + len <= 64,
            j < 64,
    ;
}

/// The position of the `idx`-th set bit of `word`, counting from the lowest bit when
/// `FORWARD`, and from the highest otherwise.
fn nth_set_bit_in_word<const FORWARD: bool>(word: u64, idx: usize) -> (loc: u32)
    requires
        idx < word_pop(word, 64),
    ensures
        loc < 64,
        word_bit(word, loc as int),
        FORWARD ==> word_pop(word, loc as nat) == idx,
        !FORWARD ==> word_pop(word, 64) - word_pop(word, (loc + 1) as nat) == idx,
{
    if FORWARD {
        nth_lowest_set_bit(word, idx)
    } else {
        let total = count_ones_u64(word) as usize;
        let loc = nth_lowest_set_bit(word, total - 1 - idx);
        proof {
            lemma_word_pop_monotone(word, (loc + 1) as nat, 64);
        }
        loc
    }
}

/// A range of byte values, given as a half-open interval of `usize` bounds.
pub trait ByteRange {
    /// The first byte in the range.
    spec fn byte_start(&self) -> int;

    /// One past the last byte in the range.
    spec fn byte_end(&self) -> int;

    /// The half-open bounds of the range.
    fn byte_bounds(&self) -> (r: (usize, usize))
        ensures
            r.0 == self.byte_start(),
            r.1 == self.byte_end(),
            r.1 <= 256,
    ;
}

impl ByteRange for core::ops::Range<u8> {
    open spec fn byte_start(&self) -> int {
        self.start as int
    }

    open spec fn byte_end(&self) -> int {
        self.end as int
    }

    fn byte_bounds(&self) -> (r: (usize, usize)) {
        (self.start as usize, self.end as usize)
    }
}

impl ByteRange for core::ops::RangeInclusive<u8> {
    open spec fn byte_start(&self) -> int {
        self@.start as int
    }

    open spec fn byte_end(&self) -> int {
        if self@.exhausted {
            self@.end as int
        } else {
            self@.end + 1
        }
    }

    fn byte_bounds(&self) -> (r: (usize, usize)) {
        let start = range_inclusive_start(self) as usize;
        let end = range_inclusive_end(self) as usize;
        if range_inclusive_exhausted(self) {
            (start, end)
        } else {
            (start, end + 1)
        }
    }
}

/// The full range of bytes, `..`.
#[verifier::external_type_specification]
pub struct ExRangeFull(core::ops::RangeFull);

/// A range of bytes from a lower bound on, `start..`.
#[verifier::external_type_specification]
#[verifier::reject_recursive_types(Idx)]
pub struct ExRangeFrom<Idx>(core::ops::RangeFrom<Idx>);

/// A range of bytes below an upper bound, `..end`.
#[verifier::external_type_specification]
#[verifier::reject_recursive_types(Idx)]
pub struct ExRangeTo<Idx>(core::ops::RangeTo<Idx>);

/// A range of bytes up to an upper bound included, `..=end`.
#[verifier::external_type_specification]
#[verifier::reject_recursive_types(Idx)]
pub struct ExRangeToInclusive<Idx>(core::ops::RangeToInclusive<Idx>);

impl ByteRange for core::ops::RangeFull {
    open spec fn byte_start(&self) -> int {
        0
    }

    open spec fn byte_end(&self) -> int {
        256
    }

    fn byte_bounds(&self) -> (r: (usize, usize)) {
        (0, 256)
    }
}

impl ByteRange for core::ops::RangeFrom<u8> {
    open spec fn byte_start(&self) -> int {
        self.start as int
    }

    open spec fn byte_end(&self) -> int {
        256
    }

    fn byte_bounds(&self) -> (r: (usize, usize)) {
        (self.start as usize, 256)
    }
}

impl ByteRange for core::ops::RangeTo<u8> {
    open spec fn byte_start(&self) -> int {
        0
    }

    open spec fn byte_end(&self) -> int {
        self.end as int
    }

    fn byte_bounds(&self) -> (r: (usize, usize)) {
        (0, self.end as usize)
    }
}

impl ByteRange for core::ops::RangeToInclusive<u8> {
    open spec fn byte_start(&self) -> int {
        0
    }

    open spec fn byte_end(&self) -> int {
        self.end + 1
    }

    fn byte_bounds(&self) -> (r: (usize, usize)) {
        (0, self.end as usize + 1)
    }
}

/// A bound of a range: included, excluded, or none.
#[verifier::external_type_specification]
#[verifier::reject_recursive_types(T)]
pub struct ExBound<T>(core::ops::Bound<T>);

impl ByteRange for (core::ops::Bound<u8>, core::ops::Bound<u8>) {
    open spec fn byte_start(&self) -> int {
        match self.0 {
            core::ops::Bound::Included(s) => s as int,
            core::ops::Bound::Excluded(s) => s + 1,
            core::ops::Bound::Unbounded => 0,
        }
    }

    open spec fn byte_end(&self) -> int {
        match self.1 {
            core::ops::Bound::Included(e) => e + 1,
            core::ops::Bound::Excluded(e) => e as int,
            core::ops::Bound::Unbounded => 256,
        }
    }

    fn byte_bounds(&self) -> (r: (usize, usize)) {
        let start: usize = match self.0 {
            core::ops::Bound::Included(s) => s as usize,
            core::ops::Bound::Excluded(s) => s as usize + 1,
            core::ops::Bound::Unbounded => 0,
        };
        let end: usize = match self.1 {
            core::ops::Bound::Included(e) => e as usize + 1,
            core::ops::Bound::Excluded(e) => e as usize,
            core::ops::Bound::Unbounded => 256,
        };
        (start, end)
    }
}

/// `RangeInclusive::start`: the lower bound of the range.
#[verifier::external_body]
fn range_inclusive_start(r: &core::ops::RangeInclusive<u8>) -> (s: u8)
    ensures
        s == r@.start,
{
    *r.start()
}

/// `RangeInclusive::end`: the upper bound of the range.
#[verifier::external_body]
fn range_inclusive_end(r: &core::ops::RangeInclusive<u8>) -> (e: u8)
    ensures
        e == r@.end,
{
    *r.end()
}

/// `RangeBounds::end_bound` on a `RangeInclusive`: whether iteration has used the range up,
/// which turns its end bound from included to excluded.
#[verifier::external_body]
fn range_inclusive_exhausted(r: &core::ops::RangeInclusive<u8>) -> (x: bool)
    ensures
        x == r@.exhausted,
{
    match core::ops::RangeBounds::end_bound(r) {
        core::ops::Bound::Excluded(_) => true,
        _ => false,
    }
}


impl BitMask for ByteMask {
    open spec fn bit_at(&self, i: int) -> bool {
        self.has(i)
    }

    open spec fn bit_width(&self) -> nat {
        256
    }

    open spec fn set_count(&self) -> nat {
        self.count()
    }

    fn count_bits(&self) -> (r: usize) {
        self.0.count_bits()
    }

    fn is_empty_mask(&self) -> (r: bool) {
        let r = self.0.is_empty_mask();
        proof {
            if !r {
                let i = choose|i: int| #[trigger] self.0.bit_at(i);
                assert(self.bit_at(i));
            } else {
                assert forall|i: int| !#[trigger] self.bit_at(i) by {
                    assert(!self.0.bit_at(i));
                }
            }
        }
        r
    }

    fn test_bit(&self, k: u8) -> (r: bool) {
        self.0.test_bit(k)
    }

    fn set_bit(&mut self, k: u8) {
        self.0.set_bit(k);
        proof {
            assert forall|i: int|
                #![trigger self.bit_at(i)]
                self.bit_at(i) == (old(self).bit_at(i) || (i == k && i < old(self).bit_width())) by {
                assert(self.0.bit_at(i) == (old(self).0.bit_at(i) || (i == k && i < old(self).0.bit_width())));
            }
        }
    }

    fn clear_bit(&mut self, k: u8) {
        self.0.clear_bit(k);
        proof {
            assert forall|i: int|
                #![trigger self.bit_at(i)]
                self.bit_at(i) == (old(self).bit_at(i) && i != k) by {
                assert(self.0.bit_at(i) == (old(self).0.bit_at(i) && i != k));
            }
        }
    }

    fn make_empty(&mut self) {
        self.0.make_empty();
        proof {
            assert forall|i: int| !#[trigger] self.bit_at(i) by {
                assert(!self.0.bit_at(i));
            }
        }
    }

    fn or(&self, other: &Self) -> (r: Self) {
        let r = ByteMask(self.0.or(&other.0));
        proof {
            assert forall|i: int|
                #![trigger r.bit_at(i)]
                r.bit_at(i) == ((self.bit_at(i) || other.bit_at(i)) && 0 <= i < self.bit_width()) by {
                assert(r.0.bit_at(i) == ((self.0.bit_at(i) || other.0.bit_at(i)) && 0 <= i < self.0.bit_width()));
            }
        }
        r
    }

    fn and(&self, other: &Self) -> (r: Self) {
        let r = ByteMask(self.0.and(&other.0));
        proof {
            assert forall|i: int| #![trigger r.bit_at(i)] r.bit_at(i) == (self.bit_at(i) && other.bit_at(i)) by {
                assert(r.0.bit_at(i) == (self.0.bit_at(i) && other.0.bit_at(i)));
            }
        }
        r
    }

    fn xor(&self, other: &Self) -> (r: Self) {
        let r = ByteMask(self.0.xor(&other.0));
        proof {
            assert forall|i: int|
                #![trigger r.bit_at(i)]
                r.bit_at(i) == ((self.bit_at(i) != other.bit_at(i)) && 0 <= i < self.bit_width()) by {
                assert(r.0.bit_at(i) == ((self.0.bit_at(i) != other.0.bit_at(i)) && 0 <= i < self.0.bit_width()));
            }
        }
        r
    }

    fn andn(&self, other: &Self) -> (r: Self) {
        let r = ByteMask(self.0.andn(&other.0));
        proof {
            assert forall|i: int| #![trigger r.bit_at(i)] r.bit_at(i) == (self.bit_at(i) && !other.bit_at(i)) by {
                assert(r.0.bit_at(i) == (self.0.bit_at(i) && !other.0.bit_at(i)));
            }
        }
        r
    }

    fn not(&self) -> (r: Self) {
        let r = ByteMask(self.0.not());
        proof {
            assert forall|i: int|
                #![trigger r.bit_at(i)]
                r.bit_at(i) == (!self.bit_at(i) && 0 <= i < self.bit_width()) by {
                assert(r.0.bit_at(i) == (!self.0.bit_at(i) && 0 <= i < self.0.bit_width()));
            }
        }
        r
    }
}

impl ByteMask {
    /// Word `w` of the mask holding the single byte `b`.
    pub open spec fn singleton_word(b: u8, w: int) -> u64 {
        if (b / 64) as int == w {
            1u64 << ((b % 64) as u64)
        } else {
            0u64
        }
    }

    /// The mask holding the single byte `b`, word by word.
    pub open spec fn spec_singleton(b: u8) -> ByteMask {
        ByteMask(
            [
                Self::singleton_word(b, 0),
                Self::singleton_word(b, 1),
                Self::singleton_word(b, 2),
                Self::singleton_word(b, 3),
            ],
        )
    }

    /// The mask holding the single byte `b`
    pub fn singleton(b: u8) -> (r: ByteMask)
        ensures
            r == Self::spec_singleton(b),
            forall|x: int| #[trigger] r.has(x) <==> x == b,
    {
        let word = 1u64 << (b % 64);
        let q = b / 64;
        let r = ByteMask(
            [
                if q == 0 {
                    word
                } else {
                    0u64
                },
                if q == 1 {
                    word
                } else {
                    0u64
                },
                if q == 2 {
                    word
                } else {
                    0u64
                },
                if q == 3 {
                    word
                } else {
                    0u64
                },
            ],
        );
        proof {
            lemma_zero_word(0u64);
            assert forall|x: int| #[trigger] r.has(x) <==> x == b by {
                if 0 <= x < 256 {
                    lemma_bit_single((b % 64) as u64, (x % 64) as u64);
                    lemma_word_order(x, b as int);
                    lemma_word_order(b as int, x);
                }
            }
        }
        r
    }

    /// The mask holding each of the given bytes
    pub fn from_iter<const K: usize>(bytes: [u8; K]) -> (r: ByteMask)
        ensures
            forall|x: int| #[trigger] r.has(x) <==> exists|i: int| 0 <= i < K && bytes@[i] == x,
    {
        let mut r = ByteMask::new();
        let mut i: usize = 0;
        while i < K
            invariant
                i <= K,
                bytes@.len() == K,
                forall|x: int|
                    #[trigger] r.has(x) <==> exists|k: int| 0 <= k < i && bytes@[k] == x,
            decreases K - i,
        {
            let b = bytes[i];
            let ghost before = r;
            r.set_bit(b);
            proof {
                assert forall|x: int|
                    #[trigger] r.has(x) <==> exists|k: int| 0 <= k < i + 1 && bytes@[k] == x by {
                    assert(r.bit_at(x) == (before.bit_at(x) || (x == b && x < 256)));
                    if x == b {
                        assert(bytes@[i as int] == x);
                    }
                    if exists|k: int| 0 <= k < i + 1 && bytes@[k] == x {
                        let k = choose|k: int| 0 <= k < i + 1 && bytes@[k] == x;
                        if k < i {
                            assert(exists|k: int| 0 <= k < i && bytes@[k] == x);
                        }
                    }
                }
            }
            i = i + 1;
        }
        r
    }

    /// Every byte in the mask, in ascending order, each once: what `iter` yields, collected
    pub fn bytes(&self) -> (r: Vec<u8>)
        ensures
            forall|i: int, j: int| 0 <= i < j < r@.len() ==> r@[i] < r@[j],
            forall|x: int| self.has(x) <==> exists|i: int| 0 <= i < r@.len() && r@[i] == x,
            r@.len() == self.count(),
    {
        let mut it = self.iter();
        let mut out: Vec<u8> = Vec::new();
        loop
            invariant
                it.wf(),
                forall|x: int| #[trigger] it.pending(x) ==> self.has(x),
                forall|x: int| self.has(x) ==> it.pending(x) || exists|i: int| 0 <= i < out@.len() && out@[i] == x,
                forall|i: int| 0 <= i < out@.len() ==> self.has(out@[i] as int),
                forall|i: int, x: int| 0 <= i < out@.len() && #[trigger] it.pending(x) ==> #[trigger] out@[i] < x,
                forall|i: int, j: int| 0 <= i < j < out@.len() ==> out@[i] < out@[j],
            decreases it.pending_count(),
        {
            let ghost before = it;
            match it.next() {
                Some(b) => {
                    proof {
                        assert forall|x: int| self.has(x) implies it.pending(x) || exists|i: int| 0 <= i < out@.len() + 1 && out@.push(b)[i] == x by {
                            if !it.pending(x) {
                                if x == b {
                                    assert(out@.push(b)[out@.len() as int] == x);
                                } else {
                                    assert(before.pending(x) || exists|i: int| 0 <= i < out@.len() && out@[i] == x);
                                    if !before.pending(x) {
                                        let i = choose|i: int| 0 <= i < out@.len() && out@[i] == x;
                                        assert(out@.push(b)[i] == x);
                                    }
                                }
                            }
                        }
                    }
                    out.push(b);
                },
                None => {
                    proof {
                        assert forall|x: int| self.has(x) <==> exists|i: int| 0 <= i < out@.len() && out@[i] == x by {
                            if self.has(x) {
                                assert(!before.pending(x));
                            }
                        }
                        crate::laws::law_indexed_bit_follows_byte_order(*self, out@);
                    }
                    return out;
                },
            }
        }
    }

    /// Create an iterator over every byte, in ascending order
    pub fn iter(&self) -> (r: ByteMaskIter)
        ensures
            r.wf(),
            forall|x: int| #[trigger] r.pending(x) == self.has(x),
    {
        ByteMaskIter::new(self.0)
    }
}

impl From<u8> for ByteMask {
    fn from(singleton_byte: u8) -> (r: ByteMask) {
        ByteMask::singleton(singleton_byte)
    }
}

impl vstd::std_specs::convert::FromSpecImpl<u8> for ByteMask {
    open spec fn obeys_from_spec() -> bool {
        true
    }

    open spec fn from_spec(v: u8) -> ByteMask {
        ByteMask::spec_singleton(v)
    }
}

impl From<[u64; 4]> for ByteMask {
    fn from(mask: [u64; 4]) -> (r: ByteMask) {
        ByteMask(mask)
    }
}

impl vstd::std_specs::convert::FromSpecImpl<[u64; 4]> for ByteMask {
    open spec fn obeys_from_spec() -> bool {
        true
    }

    open spec fn from_spec(v: [u64; 4]) -> ByteMask {
        ByteMask(v)
    }
}

/// An iterator to visit each byte in a byte mask in ascending order
pub struct ByteMaskIter {
    i: u8,
    mask: [u64; 4],
}

impl ByteMaskIter {
    /// Whether byte `b` is still to be visited.
    pub closed spec fn pending(self, b: int) -> bool {
        words_bit(self.mask@, b)
    }

    /// How many bytes are still to be visited.
    pub closed spec fn pending_count(self) -> nat {
        words_count(self.mask@)
    }

    /// The iterator's invariant: no byte is pending in a word it has already passed.
    pub closed spec fn wf(self) -> bool {
        &&& self.i < 4
        &&& forall|b: int| 0 <= b < 64 * self.i ==> !#[trigger] words_bit(self.mask@, b)
    }

    /// Make a new `ByteMaskIter` from a mask
    pub fn new(mask: [u64; 4]) -> (r: ByteMaskIter)
        ensures
            r.wf(),
            forall|x: int| #[trigger] r.pending(x) == words_bit(mask@, x),
    {
        ByteMaskIter { i: 0, mask }
    }

    /// The next byte in ascending order, which is then no longer pending
    pub fn next(&mut self) -> (r: Option<u8>)
        requires
            old(self).wf(),
        ensures
            final(self).wf(),
            r is None ==> forall|x: int| !#[trigger] old(self).pending(x),
            r is None ==> final(self).pending_count() == old(self).pending_count(),
            r matches Some(b) ==> old(self).pending(b as int),
            r matches Some(b) ==> forall|x: int| x < b ==> !#[trigger] old(self).pending(x),
            r matches Some(b) ==> forall|x: int|
                #[trigger] final(self).pending(x) == (old(self).pending(x) && x != b),
            r matches Some(b) ==> final(self).pending_count() < old(self).pending_count(),
    {
        loop
            invariant
                self.wf(),
                self.mask == old(self).mask,
            decreases 4 - self.i,
        {
            let w = self.mask[self.i as usize];
            if w != 0 {
                let wi = w.trailing_zeros();
                proof {
                    lemma_trailing_zeros(w);
                }
                let ghost before = self.mask;
                let new_word = w ^ (1u64 << wi);
                self.mask[self.i as usize] = new_word;
                let index = self.i * 64 + wi as u8;
                proof {
                    let wcur = self.i as int;
                    assert((index as int) / 64 == wcur && (index as int) % 64 == wi) by (nonlinear_arith)
                        requires
                            index == 64 * wcur + wi,
                            wi < 64,
                    ;
                    assert forall|x: int| #[trigger] words_bit(self.mask@, x) == (words_bit(before@, x) && x != index) by {
                        if 0 <= x < 256 && x / 64 == wcur {
                            lemma_bit_xor(w, 1u64 << (wi as u64), (x % 64) as u64);
                            lemma_bit_single(wi as u64, (x % 64) as u64);
                            lemma_word_order(x, index as int);
                            lemma_word_order(index as int, x);
                        }
                    }
                    assert forall|x: int| x < index implies !#[trigger] words_bit(before@, x) by {
                        if 0 <= x && x / 64 == wcur {
                            lemma_word_order(x, index as int);
                        }
                        if 0 <= x && x / 64 < wcur {
                            lemma_word_order(x, 64 * wcur);
                        }
                    }
                    assert(words_bit(before@, index as int));
                    lemma_count_drop(before@, self.mask@, index as int);
                    assert forall|b: int| 0 <= b < 64 * self.i implies !#[trigger] words_bit(self.mask@, b) by {
                        assert(!words_bit(before@, b));
                    }
                }
                return Some(index);
            } else if self.i < 3 {
                proof {
                    lemma_zero_word(w);
                    assert forall|b: int| 0 <= b < 64 * (self.i + 1) implies !#[trigger] words_bit(self.mask@, b) by {
                        if b >= 64 * self.i {
                            lemma_word_order(b, 64 * self.i);
                            lemma_word_order(64 * self.i, b);
                            assert(64 * self.i / 64 == self.i as int);
                            assert(b / 64 == self.i as int) by {
                                lemma_word_order(b, 64 * self.i + 63);
                            }
                        }
                    }
                }
                self.i = self.i + 1;
            } else {
                proof {
                    lemma_zero_word(w);
                    assert forall|x: int| !#[trigger] old(self).pending(x) by {
                        if 0 <= x < 256 && x >= 64 * 3 {
                            assert(x / 64 == 3);
                        }
                    }
                }
                return None;
            }
        }
    }
}

/// Turns a word array into an iterator over the bytes whose bits it sets
pub trait IntoByteMaskIter {
    /// The words whose set bits are iterated.
    spec fn mask_words(&self) -> [u64; 4];

    /// An iterator over the set bits of the words
    fn byte_mask_iter(self) -> (r: ByteMaskIter)
        ensures
            r.wf(),
            forall|x: int| #[trigger] r.pending(x) == words_bit(self.mask_words()@, x),
    ;
}

impl IntoByteMaskIter for [u64; 4] {
    open spec fn mask_words(&self) -> [u64; 4] {
        *self
    }

    fn byte_mask_iter(self) -> (r: ByteMaskIter) {
        ByteMaskIter::new(self)
    }
}

impl<'a> IntoByteMaskIter for &'a [u64; 4] {
    open spec fn mask_words(&self) -> [u64; 4] {
        **self
    }

    fn byte_mask_iter(self) -> (r: ByteMaskIter) {
        ByteMaskIter::new(*self)
    }
}

/// Clearing a set bit removes one from the count.
proof fn lemma_count_drop(a: Seq<u64>, c: Seq<u64>, k: int)
    requires
        a.len() == c.len(),
        words_bit(a, k),
        forall|x: int| #[trigger] words_bit(c, x) == (words_bit(a, x) && x != k),
    ensures
        words_count(c) + 1 == words_count(a),
{
    lemma_count_drop_below(a, c, k, (64 * a.len()) as nat);
}

proof fn lemma_count_drop_below(a: Seq<u64>, c: Seq<u64>, k: int, n: nat)
    requires
        a.len() == c.len(),
        words_bit(a, k),
        forall|x: int| #[trigger] words_bit(c, x) == (words_bit(a, x) && x != k),
        n <= 64 * a.len(),
    ensures
        words_count_below(c, n) + (if k < n { 1nat } else { 0nat }) == words_count_below(a, n),
    decreases n,
{
    if n > 0 {
        lemma_count_drop_below(a, c, k, (n - 1) as nat);
        assert(words_bit(c, n - 1) == (words_bit(a, n - 1) && n - 1 != k));
    }
}

/// Returns a new empty mask
pub fn empty_mask() -> (r: [u64; 4])
    ensures
        forall|i: int| !#[trigger] words_bit(r@, i),
{
    let r = [0u64, 0u64, 0u64, 0u64];
    proof {
        lemma_zero_word(0u64);
    }
    r
}

/// The length of the longest common prefix of `a` and `b`
pub fn find_prefix_overlap(a: &[u8], b: &[u8]) -> (r: usize)
    ensures
        r <= a@.len(),
        r <= b@.len(),
        a@.subrange(0, r as int) == b@.subrange(0, r as int),
        r < a@.len() && r < b@.len() ==> a@[r as int] != b@[r as int],
{
    let mut i: usize = 0;
    while i < a.len() && i < b.len() && a[i] == b[i]
        invariant
            i <= a@.len(),
            i <= b@.len(),
            a@.subrange(0, i as int) == b@.subrange(0, i as int),
        decreases a@.len() - i,
    {
        proof {
            assert(a@.subrange(0, i + 1) == a@.subrange(0, i as int).push(a@[i as int]));
            assert(b@.subrange(0, i + 1) == b@.subrange(0, i as int).push(b@[i as int]));
        }
        i = i + 1;
    }
    i
}

/// Whether `haystack` begins with `prefix`
pub fn starts_with(haystack: &[u8], prefix: &[u8]) -> (r: bool)
    ensures
        r == (prefix@.len() <= haystack@.len() && haystack@.subrange(0, prefix@.len() as int)
            == prefix@),
        r == prefix@.is_prefix_of(haystack@),
{
    let overlap = find_prefix_overlap(haystack, prefix);
    proof {
        if prefix@.len() <= haystack@.len() && haystack@.subrange(0, prefix@.len() as int) == prefix@ {
            if overlap < prefix@.len() {
                assert(haystack@[overlap as int] == haystack@.subrange(0, prefix@.len() as int)[overlap as int]);
            }
        }
        if overlap == prefix@.len() {
            assert(prefix@.subrange(0, overlap as int) == prefix@);
        }
    }
    overlap == prefix.len()
}

} // verus!
