//! An immutable validity bitmap: a sequence of booleans packed as bits,
//! least-significant bit first within each byte, bounded to a region of a
//! byte buffer by a bit offset and a bit length.

use vstd::prelude::*;
use vstd::arithmetic::div_mod::{lemma_div_is_ordered, lemma_fundamental_div_mod};
use vstd::slice::slice_subrange;

verus! {

/// Whether bit `k` of `bytes` is set, counting bits least-significant first
/// inside each byte.
pub open spec fn bit_of(bytes: Seq<u8>, k: int) -> bool
    recommends
        0 <= k < bytes.len() * 8,
{
    (bytes[k / 8] >> ((k % 8) as u8)) & 1u8 == 1u8
}

/// The `length` bits of `bytes` that start at bit `offset`, as booleans.
pub open spec fn bits_of(bytes: Seq<u8>, offset: int, length: nat) -> Seq<bool> {
    Seq::new(length, |i: int| bit_of(bytes, offset + i))
}

/// How many entries of `s` are `false`.
pub open spec fn count_unset(s: Seq<bool>) -> nat
    decreases s.len(),
{
    if s.len() == 0 {
        0
    } else {
        count_unset(s.drop_last()) + if s.last() {
            0nat
        } else {
            1nat
        }
    }
}

/// Whether bit `b` of the word is set, least-significant first.
pub open spec fn word_bit(w: u64, b: int) -> bool
    recommends
        0 <= b < 64,
{
    (w >> (b as u64)) & 1u64 == 1u64
}

/// The positions of the `true` entries of `s`, ascending.
pub open spec fn true_indices(s: Seq<bool>) -> Seq<int>
    decreases s.len(),
{
    if s.len() == 0 {
        Seq::empty()
    } else if s.last() {
        true_indices(s.drop_last()).push(s.len() - 1)
    } else {
        true_indices(s.drop_last())
    }
}

pub proof fn lemma_count_unset_le(s: Seq<bool>)
    ensures
        count_unset(s) <= s.len(),
    decreases s.len(),
{
    if s.len() > 0 {
        lemma_count_unset_le(s.drop_last());
    }
}

pub proof fn lemma_count_unset_concat(a: Seq<bool>, b: Seq<bool>)
    ensures
        count_unset(a + b) == count_unset(a) + count_unset(b),
    decreases b.len(),
{
    if b.len() == 0 {
        assert(a + b =~= a);
    } else {
        assert((a + b).drop_last() =~= a + b.drop_last());
        lemma_count_unset_concat(a, b.drop_last());
    }
}

/// Splitting a sequence at `k` splits its count of unset entries.
pub proof fn lemma_count_unset_split(s: Seq<bool>, k: int)
    requires
        0 <= k <= s.len(),
    ensures
        count_unset(s) == count_unset(s.subrange(0, k)) + count_unset(
            s.subrange(k, s.len() as int),
        ),
{
    assert(s =~= s.subrange(0, k) + s.subrange(k, s.len() as int));
    lemma_count_unset_concat(s.subrange(0, k), s.subrange(k, s.len() as int));
}

#[derive(Clone, Copy, Debug, PartialEq, Eq, Structural)]
pub enum BitmapError {
    /// The requested bit region does not fit in the given bytes.
    InvalidOperation,
}

/// An immutable container equivalent to a sequence of booleans, represented
/// as bytes where each boolean is a single bit.  `offset` and `length` are
/// measured in bits and bound the bitmap to a region of `bytes`.
pub struct Bitmap {
    bytes: Vec<u8>,
    offset: usize,
    length: usize,
    // A cache for the number of unset bits; `None` means not yet known.
    unset_bit_count_cache: Option<usize>,
}

impl View for Bitmap {
    type V = Seq<bool>;

    closed spec fn view(&self) -> Seq<bool> {
        bits_of(self.bytes@, self.offset as int, self.length as nat)
    }
}

impl Default for Bitmap {
    /// The empty bitmap.
    fn default() -> (r: Self)
        ensures
            r.wf(),
            r@ =~= Seq::<bool>::empty(),
    {
        Bitmap::new()
    }
}

/// Counts the unset bits of `bytes` in the bit range `[start, start + len)`.
fn count_zeros(bytes: &Vec<u8>, start: usize, len: usize) -> (r: usize)
    requires
        start + len <= bytes@.len() * 8,
        start + len <= usize::MAX,
    ensures
        r == count_unset(bits_of(bytes@, start as int, len as nat)),
{
    let ghost s = bits_of(bytes@, start as int, len as nat);
    let mut acc: usize = 0;
    let mut i: usize = 0;
    while i < len
        invariant
            i <= len,
            acc <= i,
            start + len <= bytes@.len() * 8,
            start + len <= usize::MAX,
            s == bits_of(bytes@, start as int, len as nat),
            acc == count_unset(s.take(i as int)),
        decreases len - i,
    {
        let k: usize = start + i;
        proof {
            lemma_fundamental_div_mod(k as int, 8);
            lemma_div_is_ordered(k as int, bytes@.len() * 8 - 1, 8);
            lemma_div_multiple(bytes@.len() as int);
        }
        let byte: u8 = bytes[k / 8];
        let set: bool = ((byte >> ((k % 8) as u8)) & 1u8) == 1u8;
        proof {
            assert(s.take(i + 1).drop_last() =~= s.take(i as int));
            assert(s.take(i + 1).last() == set);
        }
        if !set {
            acc = acc + 1;
            proof {
                lemma_count_unset_le(s.take(i as int));
            }
        }
        i = i + 1;
    }
    proof {
        assert(s.take(len as int) =~= s);
    }
    acc
}

proof fn lemma_div_multiple(n: int)
    requires
        n >= 0,
    ensures
        (n * 8 - 1) / 8 <= n - 1 || n == 0,
{
    if n > 0 {
        lemma_fundamental_div_mod(n * 8 - 1, 8);
    }
}

/// Checks that bit region `[offset, offset + length)` fits in `bytes`.
///
/// Errors iff `offset + length > bytes.len() * 8`.
pub fn check(bytes: &[u8], offset: usize, length: usize) -> (r: Result<(), BitmapError>)
    requires
        offset + length <= usize::MAX,
    ensures
        r is Ok <==> offset + length <= bytes@.len() * 8,
{
    let total: u128 = offset as u128 + length as u128;
    let cap: u128 = (bytes.len() as u128) * 8;
    if total > cap {
        Err(BitmapError::InvalidOperation)
    } else {
        Ok(())
    }
}

impl Bitmap {
    /// Validity of the representation: the bit region fits in the bytes, its
    /// end fits in a `usize`, and a cached unset-bit count, when present, is
    /// the true count.
    pub closed spec fn wf(&self) -> bool {
        &&& self.offset + self.length <= self.bytes@.len() * 8
        &&& self.offset + self.length <= usize::MAX
        &&& match self.unset_bit_count_cache {
            Some(c) => c == count_unset(self@),
            None => true,
        }
    }

    /// The cached count of unset bits, if one is known.
    pub closed spec fn unset_cache(&self) -> Option<usize> {
        self.unset_bit_count_cache
    }

    /// Initializes an empty [`Bitmap`].
    pub fn new() -> (r: Self)
        ensures
            r.wf(),
            r@ =~= Seq::<bool>::empty(),
            r.unset_cache() is None,
    {
        Bitmap { bytes: Vec::new(), offset: 0, length: 0, unset_bit_count_cache: None }
    }

    /// Initializes a new [`Bitmap`] from a vector of bytes and a length.
    ///
    /// Errors iff `length > bytes.len() * 8`.
    pub fn try_new(bytes: Vec<u8>, length: usize) -> (r: Result<Self, BitmapError>)
        ensures
            r is Ok <==> length <= bytes@.len() * 8,
            r matches Ok(b) ==> b.wf() && b@ == bits_of(bytes@, 0, length as nat)
                && b.unset_cache() is None,
    {
        match check(bytes.as_slice(), 0, length) {
            Ok(_) => Ok(
                Bitmap { bytes, offset: 0, length, unset_bit_count_cache: None },
            ),
            Err(e) => Err(e),
        }
    }

    /// Returns the length of the [`Bitmap`] in bits.
    pub fn len(&self) -> (r: usize)
        ensures
            r == self@.len(),
    {
        self.length
    }

    /// Returns whether the [`Bitmap`] is empty.
    pub fn is_empty(&self) -> (r: bool)
        ensures
            r == (self@.len() == 0),
    {
        self.length == 0
    }

    /// Returns whether the bit at position `i` is set.  The position must
    /// lie within the bitmap.
    pub fn get_bit(&self, i: usize) -> (r: bool)
        requires
            self.wf(),
            i < self@.len(),
        ensures
            r == self@[i as int],
    {
        let k: usize = self.offset + i;
        proof {
            lemma_fundamental_div_mod(k as int, 8);
            lemma_div_is_ordered(k as int, self.bytes@.len() * 8 - 1, 8);
            lemma_div_multiple(self.bytes@.len() as int);
        }
        let byte: u8 = self.bytes[k / 8];
        ((byte >> ((k % 8) as u8)) & 1u8) == 1u8
    }

    /// Returns the bit at position `i`, or `None` when `i` is out of range.
    pub fn get(&self, i: usize) -> (r: Option<bool>)
        requires
            self.wf(),
        ensures
            i < self@.len() ==> r == Some(self@[i as int]),
            i >= self@.len() ==> r is None,
    {
        if i < self.len() {
            Some(self.get_bit(i))
        } else {
            None
        }
    }

    /// Returns the bits of this [`Bitmap`] as a vector of booleans.
    pub fn iter(&self) -> (r: Vec<bool>)
        requires
            self.wf(),
        ensures
            r@ == self@,
    {
        let n = self.len();
        let mut out: Vec<bool> = Vec::new();
        let mut i: usize = 0;
        while i < n
            invariant
                self.wf(),
                n == self@.len(),
                i <= n,
                out@ =~= self@.take(i as int),
            decreases n - i,
        {
            out.push(self.get_bit(i));
            proof {
                assert(out@ =~= self@.take(i + 1));
            }
            i = i + 1;
        }
        proof {
            assert(self@.take(n as int) =~= self@);
        }
        out
    }

    /// Packs the bits into words of `width` bits, least-significant first:
    /// returns the full words, then a word holding the remaining
    /// `len() % width` bits, then that remainder count.
    fn words_of(&self, width: usize) -> (r: (Vec<u64>, u64, usize))
        requires
            self.wf(),
            1 <= width <= 64,
        ensures
            r.0@.len() == self@.len() as int / width as int,
            r.2 == self@.len() as int % width as int,
            forall|c: int, b: int|
                0 <= c < r.0@.len() && 0 <= b < width ==> #[trigger] word_bit(r.0@[c], b)
                    == self@[c * width + b],
            forall|b: int|
                0 <= b < r.2 ==> word_bit(r.1, b) == self@[r.0@.len() * width as int + b],
            width < 64 ==> forall|c: int|
                0 <= c < r.0@.len() ==> (#[trigger] r.0@[c]) >> (width as u64) == 0,
            r.1 >> (r.2 as u64) == 0,
    {
        let n = self.len();
        let full: usize = n / width;
        let rem: usize = n % width;
        proof {
            lemma_fundamental_div_mod(n as int, width as int);
        }
        let mut words: Vec<u64> = Vec::new();
        let mut c: usize = 0;
        while c < full
            invariant
                self.wf(),
                1 <= width <= 64,
                n == self@.len(),
                full == n as int / width as int,
                full * width + rem == n,
                0 <= rem < width,
                c <= full,
                words@.len() == c,
                forall|q: int, b: int|
                    0 <= q < c && 0 <= b < width ==> #[trigger] word_bit(words@[q], b)
                        == self@[q * width + b],
                width < 64 ==> forall|q: int|
                    0 <= q < c ==> (#[trigger] words@[q]) >> (width as u64) == 0,
            decreases full - c,
        {
            proof {
                assert((c + 1) * width <= full * width) by (nonlinear_arith)
                    requires
                        c + 1 <= full,
                        width >= 1,
                ;
                assert((c + 1) * width == c * width + width) by (nonlinear_arith);
            }
            let word = self.pack_word(c * width, width);
            words.push(word);
            c = c + 1;
        }
        proof {
            assert(full * width + rem == n);
        }
        let tail = self.pack_word(full * width, rem);
        proof {
            if width < 64 {
                assert forall|q: int|
                    0 <= q < words@.len() implies (#[trigger] words@[q]) >> (width as u64)
                    == 0 by {}
            }
        }
        (words, tail, rem)
    }

    /// Packs the `count` bits that start at `start` into one word, least
    /// significant first; the bits at and above `count` are zero.
    fn pack_word(&self, start: usize, count: usize) -> (w: u64)
        requires
            self.wf(),
            count < 65,
            start + count <= self@.len(),
        ensures
            forall|b: int| 0 <= b < count ==> word_bit(w, b) == self@[start + b],
            count < 64 ==> w >> (count as u64) == 0,
    {
        let mut w: u64 = 0;
        let mut b: usize = 0;
        proof {
            assert(0u64 >> 0u64 == 0) by (bit_vector);
        }
        while b < count
            invariant
                self.wf(),
                count < 65,
                start + count <= self@.len(),
                b <= count,
                forall|q: int| 0 <= q < b ==> word_bit(w, q) == self@[start + q],
                b < 64 ==> w >> (b as u64) == 0,
            decreases count - b,
        {
            let ghost prev = w;
            let s: u64 = b as u64;
            if self.get_bit(start + b) {
                w = w | (1u64 << s);
                proof {
                    assert(((prev | (1u64 << s)) >> s) & 1u64 == 1u64) by (bit_vector)
                        requires
                            s < 64,
                    ;
                    assert forall|q: int| 0 <= q < b implies word_bit(w, q) == word_bit(
                        prev,
                        q,
                    ) by {
                        let qs = q as u64;
                        assert(((prev | (1u64 << s)) >> qs) & 1u64 == (prev >> qs) & 1u64)
                            by (bit_vector)
                            requires
                                s < 64,
                                qs < s,
                        ;
                    }
                    if b + 1 < 64 {
                        assert((prev | (1u64 << s)) >> ((s + 1) as u64) == 0) by (bit_vector)
                            requires
                                s < 63,
                                prev >> s == 0,
                        ;
                    }
                }
            } else {
                proof {
                    assert((prev >> (s as u64)) & 1u64 == 0) by (bit_vector)
                        requires
                            s < 64,
                            prev >> s == 0,
                    ;
                    if b + 1 < 64 {
                        assert(prev >> ((s + 1) as u64) == 0) by (bit_vector)
                            requires
                                s < 63,
                                prev >> s == 0,
                        ;
                    }
                }
            }
            b = b + 1;
        }
        proof {
            if count == 64 {
                assert(w >> 64u64 == 0) by (bit_vector);
            }
        }
        w
    }

    /// Returns the bits packed into 64-bit chunks, least-significant bit
    /// first, together with the remainder word and its bit count.
    pub fn chunks(&self) -> (r: (Vec<u64>, u64, usize))
        requires
            self.wf(),
        ensures
            r.0@.len() == self@.len() as int / 64,
            r.2 == self@.len() as int % 64,
            forall|c: int, b: int|
                0 <= c < r.0@.len() && 0 <= b < 64 ==> #[trigger] word_bit(r.0@[c], b)
                    == self@[c * 64 + b],
            forall|b: int| 0 <= b < r.2 ==> word_bit(r.1, b) == self@[r.0@.len() * 64 + b],
            r.1 >> (r.2 as u64) == 0,
    {
        self.words_of(64)
    }

    /// Returns the bits packed 32 at a time, with a remainder word that
    /// must be handled separately.
    pub fn fast_iter_u32(&self) -> (r: (Vec<u32>, u64, usize))
        requires
            self.wf(),
        ensures
            r.0@.len() == self@.len() as int / 32,
            r.2 == self@.len() as int % 32,
            forall|c: int, b: int|
                0 <= c < r.0@.len() && 0 <= b < 32 ==> #[trigger] word_bit(r.0@[c] as u64, b)
                    == self@[c * 32 + b],
            forall|b: int| 0 <= b < r.2 ==> word_bit(r.1, b) == self@[r.0@.len() * 32 + b],
            r.1 >> (r.2 as u64) == 0,
    {
        let (words, tail, rem) = self.words_of(32);
        let n = words.len();
        let mut small: Vec<u32> = Vec::new();
        let mut c: usize = 0;
        while c < n
            invariant
                c <= n,
                n == words@.len(),
                forall|q: int| 0 <= q < n ==> (#[trigger] words@[q]) >> 32u64 == 0,
                small@.len() == c,
                forall|q: int| 0 <= q < c ==> (#[trigger] small@[q]) as u64 == words@[q],
            decreases n - c,
        {
            let w = words[c];
            proof {
                assert(w <= 0xffff_ffffu64) by (bit_vector)
                    requires
                        w >> 32u64 == 0,
                ;
            }
            small.push(w as u32);
            c = c + 1;
        }
        (small, tail, rem)
    }

    /// Returns the bits packed 56 at a time, with a remainder word that
    /// must be handled separately.
    pub fn fast_iter_u56(&self) -> (r: (Vec<u64>, u64, usize))
        requires
            self.wf(),
        ensures
            r.0@.len() == self@.len() as int / 56,
            r.2 == self@.len() as int % 56,
            forall|c: int, b: int|
                0 <= c < r.0@.len() && 0 <= b < 56 ==> #[trigger] word_bit(r.0@[c], b)
                    == self@[c * 56 + b],
            forall|b: int| 0 <= b < r.2 ==> word_bit(r.1, b) == self@[r.0@.len() * 56 + b],
            r.1 >> (r.2 as u64) == 0,
    {
        self.words_of(56)
    }

    /// Returns the bits packed 64 at a time, with a remainder word that
    /// must be handled separately.
    pub fn fast_iter_u64(&self) -> (r: (Vec<u64>, u64, usize))
        requires
            self.wf(),
        ensures
            r.0@.len() == self@.len() as int / 64,
            r.2 == self@.len() as int % 64,
            forall|c: int, b: int|
                0 <= c < r.0@.len() && 0 <= b < 64 ==> #[trigger] word_bit(r.0@[c], b)
                    == self@[c * 64 + b],
            forall|b: int| 0 <= b < r.2 ==> word_bit(r.1, b) == self@[r.0@.len() * 64 + b],
            r.1 >> (r.2 as u64) == 0,
    {
        self.words_of(64)
    }

    /// Returns the positions of the set bits, ascending.
    pub fn true_idx_iter(&self) -> (r: Vec<usize>)
        requires
            self.wf(),
        ensures
            r@.map_values(|x: usize| x as int) == true_indices(self@),
    {
        let n = self.len();
        let mut out: Vec<usize> = Vec::new();
        let mut i: usize = 0;
        while i < n
            invariant
                self.wf(),
                n == self@.len(),
                i <= n,
                out@.map_values(|x: usize| x as int) =~= true_indices(self@.take(i as int)),
            decreases n - i,
        {
            let ghost prev = out@;
            if self.get_bit(i) {
                out.push(i);
            }
            proof {
                assert(self@.take(i + 1).drop_last() =~= self@.take(i as int));
                if self@[i as int] {
                    assert(out@.map_values(|x: usize| x as int) =~= prev.map_values(
                        |x: usize| x as int,
                    ).push(i as int));
                }
                assert(out@.map_values(|x: usize| x as int) =~= true_indices(self@.take(i + 1)));
            }
            i = i + 1;
        }
        proof {
            assert(self@.take(n as int) =~= self@);
        }
        out
    }

    /// Returns the number of unset bits.  Uses the cached count when one is
    /// known and counts the bits otherwise.
    ///
    /// Guaranteed to be `<= self.len()`.
    pub fn unset_bits(&self) -> (r: usize)
        requires
            self.wf(),
        ensures
            r == count_unset(self@),
    {
        match self.unset_bit_count_cache {
            Some(c) => c,
            None => count_zeros(&self.bytes, self.offset, self.length),
        }
    }

    /// Returns the cached number of unset bits, if it is known.
    ///
    /// Guaranteed to be `<= self.len()`.
    pub fn lazy_unset_bits(&self) -> (r: Option<usize>)
        requires
            self.wf(),
        ensures
            r == self.unset_cache(),
            r matches Some(c) ==> c == count_unset(self@),
    {
        self.unset_bit_count_cache
    }

    /// Returns the number of set bits.
    pub fn set_bits(&self) -> (r: usize)
        requires
            self.wf(),
        ensures
            r == self@.len() - count_unset(self@),
    {
        proof {
            lemma_count_unset_le(self@);
        }
        self.length - self.unset_bits()
    }

    /// Returns the number of set bits, if the unset count is cached.
    pub fn lazy_set_bits(&self) -> (r: Option<usize>)
        requires
            self.wf(),
        ensures
            r is Some <==> self.unset_cache() is Some,
            r matches Some(c) ==> c == self@.len() - count_unset(self@),
    {
        proof {
            lemma_count_unset_le(self@);
        }
        match self.lazy_unset_bits() {
            Some(unset) => Some(self.length - unset),
            None => None,
        }
    }

    /// Records the count of set bits, so later count queries are free.
    /// The count must be correct.
    pub fn update_bit_count(&mut self, bits_set: usize)
        requires
            old(self).wf(),
            bits_set == old(self)@.len() - count_unset(old(self)@),
        ensures
            final(self).wf(),
            final(self)@ == old(self)@,
            final(self).unset_cache() == Some((old(self)@.len() - bits_set) as usize),
    {
        proof {
            lemma_count_unset_le(self@);
        }
        self.unset_bit_count_cache = Some(self.length - bits_set);
    }

    /// Counts the unset bits in positions `[offset, offset + length)`.
    pub fn null_count_range(&self, offset: usize, length: usize) -> (r: usize)
        requires
            self.wf(),
            offset + length <= self@.len(),
        ensures
            r == count_unset(self@.subrange(offset as int, offset + length)),
    {
        let r = count_zeros(&self.bytes, self.offset + offset, length);
        proof {
            assert(bits_of(self.bytes@, self.offset + offset, length as nat) =~= self@.subrange(
                offset as int,
                offset + length,
            ));
        }
        r
    }

    /// Slices `self`, offsetting by `offset` and truncating to `length` bits.
    ///
    /// The region must lie within the bitmap.
    /// A known unset-bit count is carried over where it can be had cheaply:
    /// when the bitmap is all set or all unset, or when only a small portion
    /// is sliced away, in which case the counts of the discarded head and
    /// tail are subtracted.
    pub fn slice(&mut self, offset: usize, length: usize)
        requires
            old(self).wf(),
            offset + length <= old(self)@.len(),
        ensures
            final(self).wf(),
            final(self)@ == old(self)@.subrange(offset as int, offset + length),
    {
        if offset == 0 && length == self.length {
            proof {
                assert(self@.subrange(0, self@.len() as int) =~= self@);
            }
            return ;
        }
        let ghost full = self@;
        let ghost head_s = full.subrange(0, offset as int);
        let ghost mid_s = full.subrange(offset as int, offset + length);
        let ghost tail_s = full.subrange(offset + length, full.len() as int);
        proof {
            lemma_count_unset_split(full, offset as int);
            lemma_count_unset_split(
                full.subrange(offset as int, full.len() as int),
                length as int,
            );
            assert(full.subrange(offset as int, full.len() as int).subrange(0, length as int)
                =~= mid_s);
            assert(full.subrange(offset as int, full.len() as int).subrange(
                length as int,
                full.len() - offset,
            ) =~= tail_s);
            assert(count_unset(full) == count_unset(head_s) + count_unset(mid_s) + count_unset(
                tail_s,
            ));
            assert(bits_of(self.bytes@, self.offset + offset, length as nat) =~= mid_s);
            assert(bits_of(self.bytes@, self.offset as int, offset as nat) =~= head_s);
            assert(bits_of(
                self.bytes@,
                self.offset + offset + length,
                (full.len() - offset - length) as nat,
            ) =~= tail_s);
            lemma_count_unset_le(head_s);
            lemma_count_unset_le(mid_s);
            lemma_count_unset_le(tail_s);
        }
        let new_cache: Option<usize> = match self.unset_bit_count_cache {
            Some(c) => {
                if c == 0 {
                    Some(0)
                } else if c == self.length {
                    Some(length)
                } else {
                    // Keeping all but a small portion: recount eagerly by
                    // subtracting the discarded head and tail counts.
                    let small_portion: usize = if self.length / 5 > 32 {
                        self.length / 5
                    } else {
                        32
                    };
                    if self.length <= small_portion || length >= self.length - small_portion {
                        let head = count_zeros(&self.bytes, self.offset, offset);
                        let tail = count_zeros(
                            &self.bytes,
                            self.offset + offset + length,
                            self.length - offset - length,
                        );
                        Some(c - head - tail)
                    } else {
                        None
                    }
                }
            },
            None => None,
        };
        self.unset_bit_count_cache = new_cache;
        self.offset = self.offset + offset;
        self.length = length;
        proof {
            assert(self@ =~= mid_s);
        }
    }

    /// Returns `self` sliced to `length` bits starting at `offset`.  The
    /// region must lie within the bitmap.
    #[must_use]
    pub fn sliced(self, offset: usize, length: usize) -> (r: Self)
        requires
            self.wf(),
            offset + length <= self@.len(),
        ensures
            r.wf(),
            r@ == self@.subrange(offset as int, offset + length),
    {
        let mut s = self;
        s.slice(offset, length);
        s
    }

    /// Initializes a new [`Bitmap`] with every bit set to `value`.
    pub fn new_with_value(value: bool, length: usize) -> (r: Self)
        requires
            length <= usize::MAX - 7,
        ensures
            r.wf(),
            r@.len() == length,
            forall|i: int| 0 <= i < length ==> r@[i] == value,
            r.unset_cache() == Some(if value { 0usize } else { length }),
    {
        let num_bytes: usize = (length + 7) / 8;
        let fill: u8 = if value { 255u8 } else { 0u8 };
        let bytes: Vec<u8> = vec![fill; num_bytes];
        proof {
            lemma_fundamental_div_mod(length + 7, 8);
        }
        let r = Bitmap {
            bytes,
            offset: 0,
            length,
            unset_bit_count_cache: Some(if value { 0 } else { length }),
        };
        proof {
            assert forall|i: int| 0 <= i < length implies r@[i] == value by {
                lemma_fundamental_div_mod(i, 8);
                let sh = (i % 8) as u8;
                assert(((255u8 >> sh) & 1u8) == 1u8 && ((0u8 >> sh) & 1u8) == 0u8)
                    by (bit_vector)
                    requires
                        sh < 8,
                ;
            }
            if value {
                lemma_count_all_set(r@);
            } else {
                lemma_count_all_unset(r@);
            }
        }
        r
    }

    /// Initializes a new [`Bitmap`] with every bit unset.
    pub fn new_zeroed(length: usize) -> (r: Self)
        requires
            length <= usize::MAX - 7,
        ensures
            r.wf(),
            r@.len() == length,
            forall|i: int| 0 <= i < length ==> !r@[i],
            r.unset_cache() == Some(length),
    {
        Self::new_with_value(false, length)
    }

    /// Creates a new [`Bitmap`] from a slice of bytes and a length, which
    /// must not exceed `slice.len() * 8`.
    pub fn from_u8_slice(slice: &[u8], length: usize) -> (r: Self)
        requires
            length <= slice@.len() * 8,
        ensures
            r.wf(),
            r@ == bits_of(slice@, 0, length as nat),
            r.unset_cache() is None,
    {
        match Self::try_new(vstd::slice::slice_to_vec(slice), length) {
            Ok(b) => b,
            Err(_) => vstd::pervasive::unreached(),
        }
    }

    /// Creates a new [`Bitmap`] from a vector of bytes and a length, which
    /// must not exceed `vec.len() * 8`.
    pub fn from_u8_vec(vec: Vec<u8>, length: usize) -> (r: Self)
        requires
            length <= vec@.len() * 8,
        ensures
            r.wf(),
            r@ == bits_of(vec@, 0, length as nat),
            r.unset_cache() is None,
    {
        match Self::try_new(vec, length) {
            Ok(b) => b,
            Err(_) => vstd::pervasive::unreached(),
        }
    }

    /// Creates a new [`Bitmap`] from a slice of booleans.
    pub fn from_trusted_len_iter(values: &[bool]) -> (r: Self)
        requires
            values@.len() <= usize::MAX - 7,
        ensures
            r.wf(),
            r@ == values@,
            r.unset_cache() is None,
    {
        let n: usize = values.len();
        let num_bytes: usize = (n + 7) / 8;
        proof {
            lemma_fundamental_div_mod(n + 7, 8);
        }
        let mut bytes: Vec<u8> = vec![0u8; num_bytes];
        proof {
            assert forall|k: int| 0 <= k < num_bytes * 8 implies !bit_of(bytes@, k) by {
                lemma_fundamental_div_mod(k, 8);
                lemma_div_is_ordered(k, num_bytes * 8 - 1, 8);
                lemma_div_multiple(num_bytes as int);
                let sh = (k % 8) as u8;
                assert(((0u8 >> sh) & 1u8) == 0u8) by (bit_vector)
                    requires
                        sh < 8,
                ;
            }
        }
        let mut i: usize = 0;
        while i < n
            invariant
                i <= n,
                n == values@.len(),
                n <= num_bytes * 8,
                bytes@.len() == num_bytes,
                forall|k: int| 0 <= k < i ==> bit_of(bytes@, k) == values@[k],
                forall|k: int| i <= k < num_bytes * 8 ==> !bit_of(bytes@, k),
            decreases n - i,
        {
            proof {
                lemma_fundamental_div_mod(i as int, 8);
                lemma_div_is_ordered(i as int, num_bytes * 8 - 1, 8);
                lemma_div_multiple(num_bytes as int);
            }
            if values[i] {
                let bi: usize = i / 8;
                let sh: u8 = (i % 8) as u8;
                let old_byte: u8 = bytes[bi];
                let new_byte: u8 = old_byte | (1u8 << sh);
                let ghost prev = bytes@;
                bytes.set(bi, new_byte);
                proof {
                    assert forall|k: int|
                        0 <= k < num_bytes * 8 && k != i implies #[trigger] bit_of(bytes@, k)
                        == bit_of(prev, k) by {
                        lemma_fundamental_div_mod(k, 8);
                        lemma_div_is_ordered(k, num_bytes * 8 - 1, 8);
                        lemma_div_multiple(num_bytes as int);
                        if k / 8 == i as int / 8 {
                            assert(k % 8 != i as int % 8);
                            let s2 = (k % 8) as u8;
                            assert(((new_byte >> s2) & 1u8) == ((old_byte >> s2) & 1u8))
                                by (bit_vector)
                                requires
                                    sh < 8,
                                    s2 < 8,
                                    s2 != sh,
                                    new_byte == old_byte | (1u8 << sh),
                            ;
                        }
                    }
                    assert(((new_byte >> sh) & 1u8) == 1u8) by (bit_vector)
                        requires
                            sh < 8,
                            new_byte == old_byte | (1u8 << sh),
                    ;
                    assert(bit_of(bytes@, i as int));
                }
            } else {
                proof {
                    assert(!bit_of(bytes@, i as int));
                }
            }
            i = i + 1;
        }
        let r = Bitmap { bytes, offset: 0, length: n, unset_bit_count_cache: None };
        proof {
            assert(r@ =~= values@);
        }
        r
    }

    /// Creates a new [`Bitmap`] from fallible booleans; the first error, in
    /// order, is returned instead if one is present.
    pub fn try_from_trusted_len_iter<E>(values: Vec<Result<bool, E>>) -> (r: Result<Self, E>)
        requires
            values@.len() <= usize::MAX - 7,
        ensures
            r matches Ok(b) ==> {
                &&& forall|i: int| 0 <= i < values@.len() ==> values@[i] is Ok
                &&& b.wf()
                &&& b@ == Seq::new(values@.len(), |i: int| values@[i]->Ok_0)
            },
            r matches Err(e) ==> exists|i: int|
                {
                    &&& 0 <= i < values@.len()
                    &&& values@[i] is Err
                    &&& e == values@[i]->Err_0
                    &&& forall|k: int| 0 <= k < i ==> values@[k] is Ok
                },
            (forall|i: int| 0 <= i < values@.len() ==> values@[i] is Ok) ==> r is Ok,
    {
        let ghost orig = values@;
        match first_err_index(&values) {
            Some(j) => {
                // Give the error at `j` back by value: shrink the vector down
                // to it and take it off the end.
                let mut rest = values;
                while rest.len() > j + 1
                    invariant
                        j < rest@.len(),
                        rest@.len() <= orig.len(),
                        forall|k: int| 0 <= k < rest@.len() ==> rest@[k] == orig[k],
                    decreases rest@.len(),
                {
                    let _ = rest.pop();
                }
                match rest.pop() {
                    Some(Err(e)) => Err(e),
                    _ => vstd::pervasive::unreached(),
                }
            },
            None => {
                let bools = oks_of(&values);
                let r = Self::from_trusted_len_iter(bools.as_slice());
                proof {
                    assert(r@ =~= Seq::new(orig.len(), |i: int| orig[i]->Ok_0));
                }
                Ok(r)
            },
        }
    }

    /// Returns the byte region of this [`Bitmap`]: the bytes that hold its
    /// bits, truncated so that the first bit lies in the first byte, together
    /// with the bit offset into that first byte (`< 8`) and the length in
    /// bits.
    pub fn as_slice(&self) -> (r: (&[u8], usize, usize))
        requires
            self.wf(),
        ensures
            r.1 < 8,
            r.2 == self@.len(),
            r.0@.len() == (r.1 + r.2 + 7) / 8,
            bits_of(r.0@, r.1 as int, r.2 as nat) == self@,
    {
        let start: usize = self.offset / 8;
        let rem: usize = self.offset % 8;
        proof {
            lemma_fundamental_div_mod(self.offset as int, 8);
        }
        let len128: u128 = (rem as u128 + self.length as u128 + 7) / 8;
        proof {
            let n = self.bytes@.len() as int;
            let s = start as int;
            assert(rem + self.length <= 8 * (n - s));
            lemma_div_is_ordered(rem + self.length + 7, 8 * (n - s) + 7, 8);
            lemma_fundamental_div_mod(8 * (n - s) + 7, 8);
            lemma_fundamental_div_mod(rem + self.length + 7, 8);
            assert((8 * (n - s) + 7) / 8 == n - s) by (nonlinear_arith)
                requires
                    n - s >= 0,
            ;
        }
        let len_bytes: usize = (len128 as usize);
        let out = slice_subrange(self.bytes.as_slice(), start, start + len_bytes);
        proof {
            let ghost ov = out@;
            assert forall|i: int| 0 <= i < self.length implies #[trigger] bit_of(ov, rem + i)
                == bit_of(self.bytes@, self.offset + i) by {
                let k = rem + i;
                let s = start as int;
                lemma_fundamental_div_mod(k, 8);
                lemma_fundamental_div_mod(self.offset + i, 8);
                assert(self.offset + i == 8 * s + k);
                vstd::arithmetic::div_mod::lemma_fundamental_div_mod_converse(
                    self.offset + i,
                    8,
                    s + k / 8,
                    k % 8,
                );
                assert(k / 8 < len_bytes) by {
                    lemma_div_is_ordered(k, rem + self.length as int + 7 - 8, 8);
                    lemma_fundamental_div_mod(rem + self.length as int + 7, 8);
                    assert((rem + self.length - 1) / 8 + 1 == (rem + self.length + 7) / 8) by {
                        vstd::arithmetic::div_mod::lemma_fundamental_div_mod_converse(
                            rem + self.length as int + 7,
                            8,
                            (rem + self.length - 1) / 8 + 1,
                            (rem + self.length - 1) % 8,
                        );
                        lemma_fundamental_div_mod(rem + self.length as int - 1, 8);
                    }
                }
            }
            assert(bits_of(ov, rem as int, self.length as nat) =~= self@);
        }
        (out, rem, self.length)
    }
}

/// The index of the first error among `values`, if one is present.
fn first_err_index<E>(values: &Vec<Result<bool, E>>) -> (r: Option<usize>)
    ensures
        r matches Some(j) ==> j < values@.len() && values@[j as int] is Err && forall|k: int|
            0 <= k < j ==> values@[k] is Ok,
        r is None ==> forall|k: int| 0 <= k < values@.len() ==> values@[k] is Ok,
{
    let n: usize = values.len();
    let mut i: usize = 0;
    while i < n
        invariant
            i <= n,
            n == values@.len(),
            forall|k: int| 0 <= k < i ==> values@[k] is Ok,
        decreases n - i,
    {
        match &values[i] {
            Ok(_) => {},
            Err(_) => {
                return Some(i);
            },
        }
        i = i + 1;
    }
    None
}

/// The payloads of `values`, all of which must be `Ok`.
fn oks_of<E>(values: &Vec<Result<bool, E>>) -> (r: Vec<bool>)
    requires
        forall|k: int| 0 <= k < values@.len() ==> values@[k] is Ok,
    ensures
        r@ == Seq::new(values@.len(), |i: int| values@[i]->Ok_0),
{
    let n: usize = values.len();
    let mut bools: Vec<bool> = Vec::new();
    let mut i: usize = 0;
    while i < n
        invariant
            i <= n,
            n == values@.len(),
            forall|k: int| 0 <= k < values@.len() ==> values@[k] is Ok,
            bools@.len() == i,
            forall|k: int| 0 <= k < i ==> bools@[k] == values@[k]->Ok_0,
        decreases n - i,
    {
        match &values[i] {
            Ok(b) => {
                bools.push(*b);
            },
            Err(_) => {
                vstd::pervasive::unreached()
            },
        }
        i = i + 1;
    }
    proof {
        assert(bools@ =~= Seq::new(values@.len(), |i: int| values@[i]->Ok_0));
    }
    bools
}

/// A sequence that is all `true` has no unset entries.
proof fn lemma_count_all_set(s: Seq<bool>)
    requires
        forall|i: int| 0 <= i < s.len() ==> s[i],
    ensures
        count_unset(s) == 0,
    decreases s.len(),
{
    if s.len() > 0 {
        lemma_count_all_set(s.drop_last());
    }
}

/// A sequence that is all `false` has only unset entries.
proof fn lemma_count_all_unset(s: Seq<bool>)
    requires
        forall|i: int| 0 <= i < s.len() ==> !s[i],
    ensures
        count_unset(s) == s.len(),
    decreases s.len(),
{
    if s.len() > 0 {
        lemma_count_all_unset(s.drop_last());
    }
}

} // verus!
