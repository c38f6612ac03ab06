//! A base sequence packed two bits per base in a bit vector, with zero-copy
//! slices and random access to k-mers.
use simple_sds::raw_vector::{AccessRaw, PushRaw, RawVector};
use vstd::prelude::*;
use vstd::string::StringSliceAdditionalSpecFns;

use crate::base::{all_nuc_bytes, byte_codes, encode_binary_u8, push_char, Base};
use crate::kmer::{base_at, decode_word, encode_bases, fits, lemma_decode_encode, Kmer};

verus! {

#[verifier::external_type_specification]
#[verifier::external_body]
pub struct ExRawVector(RawVector);

/// The bits a `RawVector` holds, in order.
pub uninterp spec fn raw_bits(v: RawVector) -> Seq<bool>;

/// Relies on the derived `Clone` of `RawVector`: the copy holds the same bits.
pub assume_specification[ <RawVector as Clone>::clone ](v: &RawVector) -> (r: RawVector)
    ensures
        raw_bits(r) == raw_bits(*v),
;

/// Relies on `RawVector::new`: an empty vector.
#[verifier::external_body]
fn raw_new() -> (r: RawVector)
    ensures
        raw_bits(r) == Seq::<bool>::empty(),
{
    RawVector::new()
}

/// Relies on `RawVector::with_len`: `len` bits, each `value`.
#[verifier::external_body]
fn raw_with_len(len: usize, value: bool) -> (r: RawVector)
    ensures
        raw_bits(r) == Seq::new(len as nat, |i: int| value),
{
    RawVector::with_len(len, value)
}

/// Relies on `RawVector::with_capacity`: an empty vector.
#[verifier::external_body]
fn raw_with_capacity(capacity: usize) -> (r: RawVector)
    ensures
        raw_bits(r) == Seq::<bool>::empty(),
{
    RawVector::with_capacity(capacity)
}

/// Relies on `RawVector::len`: the number of bits.
#[verifier::external_body]
fn raw_len(v: &RawVector) -> (r: usize)
    ensures
        r == raw_bits(*v).len(),
{
    v.len()
}

/// Relies on `AccessRaw::bit` of `RawVector`: the bit at an offset.
#[verifier::external_body]
fn raw_bit(v: &RawVector, i: usize) -> (r: bool)
    requires
        i < raw_bits(*v).len(),
    ensures
        r == raw_bits(*v)[i as int],
{
    v.bit(i)
}

/// Relies on `AccessRaw::set_bit` of `RawVector`: overwrites one bit.
#[verifier::external_body]
fn raw_set_bit(v: &mut RawVector, i: usize, value: bool)
    requires
        i < raw_bits(*old(v)).len(),
    ensures
        raw_bits(*final(v)) == raw_bits(*old(v)).update(i as int, value),
{
    v.set_bit(i, value)
}

/// Relies on `PushRaw::push_bit` of `RawVector`: appends one bit.
#[verifier::external_body]
fn raw_push_bit(v: &mut RawVector, value: bool)
    requires
        raw_bits(*old(v)).len() < usize::MAX,
    ensures
        raw_bits(*final(v)) == raw_bits(*old(v)).push(value),
{
    v.push_bit(value)
}

/// The base stored in bits `2i` (low) and `2i + 1` (high).
pub open spec fn pair_base(bits: Seq<bool>, i: int) -> Base {
    if bits[2 * i] && bits[2 * i + 1] {
        3
    } else if bits[2 * i + 1] {
        2
    } else if bits[2 * i] {
        1
    } else {
        0
    }
}

/// The bases of a bit sequence, two bits each.
pub open spec fn bits_to_bases(bits: Seq<bool>) -> Seq<Base> {
    Seq::new(bits.len() / 2, |i: int| pair_base(bits, i))
}

/// The upper-case letter of a 2-bit code.
pub open spec fn upper_char(b: Base) -> char {
    if b == 0 {
        'A'
    } else if b == 1 {
        'C'
    } else if b == 2 {
        'G'
    } else {
        'T'
    }
}

proof fn bv_or_high(r: u64, c: u64, j: u64, i: u64)
    by (bit_vector)
    requires
        c < 4,
        j < 32,
        i < j,
        r >> (2 * j) as u64 == 0,
    ensures
        ((r | (c << (2 * j) as u64)) >> (2 * i) as u64) & 3 == (r >> (2 * i) as u64) & 3,
{
}

proof fn bv_or_high_top(r: u64, c: u64, j: u64)
    by (bit_vector)
    requires
        c < 4,
        j < 32,
        r >> (2 * j) as u64 == 0,
    ensures
        ((r | (c << (2 * j) as u64)) >> (2 * j) as u64) & 3 == c,
        j + 1 < 32 ==> (r | (c << (2 * j) as u64)) >> (2 * (j + 1)) as u64 == 0,
{
}

/// Reads the bases `[pos, pos + k)` of a bit vector into a word.
fn read_word(data: &RawVector, pos: usize, k: usize) -> (r: u64)
    requires
        k <= 32,
        pos + k <= raw_bits(*data).len() / 2,
        raw_bits(*data).len() <= usize::MAX,
    ensures
        fits(r, k as nat),
        decode_word(r, k as nat) == bits_to_bases(raw_bits(*data)).subrange(pos as int, pos + k),
        r == encode_bases(bits_to_bases(raw_bits(*data)).subrange(pos as int, pos + k)),
{
    let ghost v = bits_to_bases(raw_bits(*data));
    let mut r: u64 = 0;
    let mut j: usize = 0;
    proof {
        assert(0u64 >> 0u64 == 0) by (bit_vector);
        assert(decode_word(r, 0) =~= v.subrange(pos as int, pos as int));
    }
    while j < k
        invariant
            k <= 32,
            pos + k <= raw_bits(*data).len() / 2,
            raw_bits(*data).len() <= usize::MAX,
            v == bits_to_bases(raw_bits(*data)),
            j <= k,
            j < 32 ==> r >> (2 * j) as u64 == 0,
            decode_word(r, j as nat) == v.subrange(pos as int, pos + j),
        decreases k - j,
    {
        let lo = raw_bit(data, 2 * (pos + j));
        let hi = raw_bit(data, 2 * (pos + j) + 1);
        let c: u64 = if lo && hi {
            3
        } else if hi {
            2
        } else if lo {
            1
        } else {
            0
        };
        let ghost old_r = r;
        proof {
            bv_or_high_top(r, c, j as u64);
            assert(c == v[pos + j]);
        }
        r = r | (c << (2 * j) as u64);
        proof {
            assert forall|i: int| 0 <= i < j + 1 implies #[trigger] base_at(r, i) == v.subrange(
                pos as int,
                pos + j + 1,
            )[i] by {
                if i < j {
                    bv_or_high(old_r, c, j as u64, i as u64);
                    assert(decode_word(old_r, j as nat)[i] == base_at(old_r, i));
                }
            }
            assert(decode_word(r, (j + 1) as nat) =~= v.subrange(pos as int, pos + j + 1));
        }
        j = j + 1;
    }
    proof {
        lemma_decode_encode(r, k as nat);
    }
    r
}

/// A base sequence packed two bits per base.
#[derive(Clone, Debug, PartialEq, Eq)]
pub struct SeqVector {
    data: RawVector,
}

impl View for SeqVector {
    type V = Seq<Base>;

    closed spec fn view(&self) -> Seq<Base> {
        bits_to_bases(raw_bits(self.data))
    }
}

impl SeqVector {
    /// The bit vector holds whole bases.
    pub closed spec fn wf(&self) -> bool {
        &&& raw_bits(self.data).len() % 2 == 0
        &&& raw_bits(self.data).len() <= usize::MAX
    }

    pub fn len(&self) -> (r: usize)
        ensures
            r == self@.len(),
    {
        raw_len(&self.data) / 2
    }

    pub fn is_empty(&self) -> (r: bool)
        requires
            self.wf(),
        ensures
            r == (self@.len() == 0),
    {
        raw_len(&self.data) == 0
    }

    /// The word of the `k` bases starting at `pos`.
    pub fn get_kmer_u64(&self, pos: usize, k: usize) -> (r: u64)
        requires
            self.wf(),
            pos < self@.len(),
            pos + k <= self@.len(),
            k <= 32,
        ensures
            fits(r, k as nat),
            decode_word(r, k as nat) == self@.subrange(pos as int, pos + k),
            r == encode_bases(self@.subrange(pos as int, pos + k)),
    {
        read_word(&self.data, pos, k)
    }

    /// The k-mer of the `k` bases starting at `pos`.
    pub fn get_kmer(&self, pos: usize, k: usize) -> (r: Kmer)
        requires
            self.wf(),
            pos < self@.len(),
            pos + k <= self@.len(),
            k <= 32,
        ensures
            r.k == k,
            r.wf(),
            r@ == self@.subrange(pos as int, pos + k),
    {
        let w = self.get_kmer_u64(pos, k);
        proof {
            assert(decode_word(w, 32).subrange(0, k as int) =~= decode_word(w, k as nat));
        }
        Kmer::from_u64(w, k as u8)
    }

    /// The base at `pos`.
    pub fn get_base(&self, pos: usize) -> (r: Base)
        requires
            self.wf(),
            pos < self@.len(),
        ensures
            r == self@[pos as int],
    {
        let w = self.get_kmer_u64(pos, 1);
        proof {
            assert(decode_word(w, 1)[0] == self@.subrange(pos as int, pos + 1)[0]);
            assert(w == base_at(w, 0)) by {
                assert(w >> 2u64 == 0 ==> (w >> 0u64) & 3 == w) by (bit_vector);
            }
        }
        w
    }

    /// A slice over the whole sequence.
    pub fn as_slice(&self) -> (r: SeqVectorSlice<'_>)
        requires
            self.wf(),
        ensures
            r.wf(),
            r@ == self@,
    {
        let len = self.len();
        proof {
            assert(self@.subrange(0, len as int) =~= self@);
        }
        SeqVectorSlice { start_pos: 0, len, slice: self }
    }

    /// An empty sequence.
    pub fn new() -> (r: SeqVector)
        ensures
            r.wf(),
            r@ == Seq::<Base>::empty(),
    {
        let r = SeqVector { data: raw_new() };
        proof {
            assert(r@ =~= Seq::<Base>::empty());
        }
        r
    }

    /// `len` bases, all A.
    pub fn with_len(len: usize) -> (r: SeqVector)
        requires
            len <= usize::MAX / 2,
        ensures
            r.wf(),
            r@ == Seq::new(len as nat, |i: int| 0u64),
    {
        let r = SeqVector { data: raw_with_len(len * 2, false) };
        proof {
            assert(r@ =~= Seq::new(len as nat, |i: int| 0u64));
        }
        r
    }

    /// An empty sequence with room for `len` bases.
    pub fn with_capacity(len: usize) -> (r: SeqVector)
        requires
            len <= usize::MAX / 2,
        ensures
            r.wf(),
            r@ == Seq::<Base>::empty(),
    {
        let r = SeqVector { data: raw_with_capacity(len * 2) };
        proof {
            assert(r@ =~= Seq::<Base>::empty());
        }
        r
    }

    /// The bases of a bit vector, or `None` when its length is odd.
    pub fn try_from_raw(data: RawVector) -> (r: Option<SeqVector>)
        ensures
            raw_bits(data).len() % 2 == 0 <==> r is Some,
            r matches Some(sv) ==> sv.wf() && sv@ == bits_to_bases(raw_bits(data)),
    {
        if raw_len(&data) % 2 == 0 {
            Some(SeqVector { data })
        } else {
            None
        }
    }

    /// The bases of a bit vector of even length (see `try_from_raw`).
    pub fn from_raw(data: RawVector) -> (r: SeqVector)
        requires
            raw_bits(data).len() % 2 == 0,
        ensures
            r.wf(),
            r@ == bits_to_bases(raw_bits(data)),
    {
        let _ = raw_len(&data);
        SeqVector { data }
    }

    /// The bases of a nucleotide byte string.
    ///
    /// Only the bytes `ACGTacgt` are accepted: any other byte is outside the
    /// domain, since no 2-bit code stands for it (use `Kmer::from_bytes_checked`
    /// to test input first).
    pub fn from_bytes(bytes: &[u8]) -> (r: SeqVector)
        requires
            all_nuc_bytes(bytes@),
            bytes@.len() <= usize::MAX / 2,
        ensures
            r.wf(),
            r@ == byte_codes(bytes@),
    {
        let mut r = SeqVector::with_capacity(bytes.len());
        r.push_chars(bytes);
        proof {
            assert(r@ =~= byte_codes(bytes@));
        }
        r
    }

    /// The bases of a nucleotide string.
    ///
    /// Only the bytes `ACGTacgt` are accepted: any other byte is outside the
    /// domain, since no 2-bit code stands for it (use `Kmer::from_bytes_checked`
    /// to test input first).
    pub fn from_str(s: &str) -> (r: SeqVector)
        requires
            all_nuc_bytes(s.spec_bytes()),
            s.spec_bytes().len() <= usize::MAX / 2,
        ensures
            r.wf(),
            r@ == byte_codes(s.spec_bytes()),
    {
        SeqVector::from_bytes(s.as_bytes())
    }

    /// The slice of bases `[start, end)`.
    pub fn slice(&self, start: usize, end: usize) -> (r: SeqVectorSlice<'_>)
        requires
            self.wf(),
            start <= end <= self@.len(),
        ensures
            r.wf(),
            r@ == self@.subrange(start as int, end as int),
    {
        self.as_slice().slice(start, end)
    }

    /// Overwrites the bases from `offset` on with the codes of `bytes`.
    ///
    /// Only the bytes `ACGTacgt` are accepted: any other byte is outside the
    /// domain, since no 2-bit code stands for it (use `Kmer::from_bytes_checked`
    /// to test input first).
    pub fn set_chars(&mut self, offset: usize, bytes: &[u8])
        requires
            old(self).wf(),
            offset + bytes@.len() <= old(self)@.len(),
            all_nuc_bytes(bytes@),
        ensures
            final(self).wf(),
            final(self)@ == old(self)@.subrange(0, offset as int) + byte_codes(bytes@)
                + old(self)@.subrange(offset + bytes@.len(), old(self)@.len() as int),
    {
        let ghost v0 = self@;
        let mut i: usize = 0;
        while i < bytes.len()
            invariant
                offset + bytes@.len() <= v0.len(),
                all_nuc_bytes(bytes@),
                raw_bits(self.data).len() == 2 * v0.len(),
                raw_bits(self.data).len() <= usize::MAX,
                i <= bytes@.len(),
                self@ == v0.subrange(0, offset as int) + byte_codes(bytes@.subrange(0, i as int))
                    + v0.subrange(offset + i, v0.len() as int),
            decreases bytes@.len() - i,
        {
            let c = encode_binary_u8(bytes[i]);
            let ghost before = raw_bits(self.data);
            raw_set_bit(&mut self.data, 2 * (offset + i), c & 1 == 1);
            raw_set_bit(&mut self.data, 2 * (offset + i) + 1, c & 2 == 2);
            proof {
                let b = raw_bits(self.data);
                assert(c < 4);
                assert(pair_base(b, offset + i) == c) by {
                    assert(c & 1 == 1 <==> (c == 1 || c == 3)) by (bit_vector)
                        requires
                            c < 4,
                    ;
                    assert(c & 2 == 2 <==> (c == 2 || c == 3)) by (bit_vector)
                        requires
                            c < 4,
                    ;
                }
                let target = v0.subrange(0, offset as int) + byte_codes(bytes@.subrange(0, i + 1))
                    + v0.subrange(offset + i + 1, v0.len() as int);
                let prev = bits_to_bases(before);
                assert forall|j: int| 0 <= j < v0.len() implies #[trigger] self@[j] == target[j] by {
                    if j != offset + i {
                        assert(pair_base(b, j) == pair_base(before, j));
                        assert(self@[j] == prev[j]);
                    } else {
                        assert(byte_codes(bytes@.subrange(0, i + 1))[i as int] == c);
                    }
                }
                assert(self@ =~= target);
            }
            i = i + 1;
        }
        proof {
            assert(bytes@.subrange(0, i as int) =~= bytes@);
        }
    }

    /// Appends the codes of `bytes`.
    ///
    /// Only the bytes `ACGTacgt` are accepted: any other byte is outside the
    /// domain, since no 2-bit code stands for it (use `Kmer::from_bytes_checked`
    /// to test input first).
    pub fn push_chars(&mut self, bytes: &[u8])
        requires
            old(self).wf(),
            all_nuc_bytes(bytes@),
            old(self)@.len() + bytes@.len() <= usize::MAX / 2,
        ensures
            final(self).wf(),
            final(self)@ == old(self)@ + byte_codes(bytes@),
    {
        let ghost v0 = self@;
        let mut i: usize = 0;
        while i < bytes.len()
            invariant
                v0.len() + bytes@.len() <= usize::MAX / 2,
                all_nuc_bytes(bytes@),
                raw_bits(self.data).len() == 2 * (v0.len() + i),
                i <= bytes@.len(),
                self@ == v0 + byte_codes(bytes@.subrange(0, i as int)),
            decreases bytes@.len() - i,
        {
            let c = encode_binary_u8(bytes[i]);
            let ghost before = raw_bits(self.data);
            raw_push_bit(&mut self.data, c & 1 == 1);
            raw_push_bit(&mut self.data, c & 2 == 2);
            proof {
                let b = raw_bits(self.data);
                let n = v0.len() + i;
                assert(c < 4);
                assert(pair_base(b, n) == c) by {
                    assert(c & 1 == 1 <==> (c == 1 || c == 3)) by (bit_vector)
                        requires
                            c < 4,
                    ;
                    assert(c & 2 == 2 <==> (c == 2 || c == 3)) by (bit_vector)
                        requires
                            c < 4,
                    ;
                }
                let target = v0 + byte_codes(bytes@.subrange(0, i + 1));
                let prev = bits_to_bases(before);
                assert forall|j: int| 0 <= j < n + 1 implies #[trigger] self@[j] == target[j] by {
                    if j < n {
                        assert(pair_base(b, j) == pair_base(before, j));
                        assert(self@[j] == prev[j]);
                    } else {
                        assert(byte_codes(bytes@.subrange(0, i + 1))[i as int] == c);
                    }
                }
                assert(self@ =~= target);
            }
            i = i + 1;
        }
        proof {
            assert(bytes@.subrange(0, i as int) =~= bytes@);
        }
    }

    /// The bases as upper-case letters.
    pub fn to_string(&self) -> (r: String)
        requires
            self.wf(),
        ensures
            r@ == self@.map_values(|b: Base| upper_char(b)),
    {
        self.as_slice().to_string()
    }

    /// Iterates over the k-mers of the sequence.
    pub fn iter_kmers(&self, k: usize) -> (r: SeqVecKmerIterator<'_>)
        requires
            self.wf(),
            1 <= k <= 32,
            k <= self@.len(),
        ensures
            r.wf(),
            r.spec_seq() == self@,
            r.spec_k() == k,
            r.spec_pos() == 0,
    {
        SeqVecKmerIterator::new(self.as_slice(), k)
    }
}

/// A view of the bases `[start_pos, start_pos + len)` of a `SeqVector`.
#[derive(Clone, Copy, Debug)]
pub struct SeqVectorSlice<'a> {
    len: usize,
    start_pos: usize,
    slice: &'a SeqVector,
}

impl<'a> View for SeqVectorSlice<'a> {
    type V = Seq<Base>;

    closed spec fn view(&self) -> Seq<Base> {
        self.slice@.subrange(self.start_pos as int, self.start_pos + self.len)
    }
}

impl<'a> SeqVectorSlice<'a> {
    pub closed spec fn wf(&self) -> bool {
        &&& self.slice.wf()
        &&& self.start_pos + self.len <= self.slice@.len()
    }

    /// A slice holds at most `usize::MAX / 2` bases.
    pub proof fn lemma_len_bound(&self)
        requires
            self.wf(),
        ensures
            self@.len() <= usize::MAX / 2,
    {
    }

    pub fn len(&self) -> (r: usize)
        requires
            self.wf(),
        ensures
            r == self@.len(),
    {
        self.len
    }

    pub fn is_empty(&self) -> (r: bool)
        requires
            self.wf(),
        ensures
            r == (self@.len() == 0),
    {
        self.len == 0
    }

    /// The word of the `k` bases starting at `pos`.
    pub fn get_kmer_u64(&self, pos: usize, k: usize) -> (r: u64)
        requires
            self.wf(),
            pos < self@.len(),
            pos + k <= self@.len(),
            k <= 32,
        ensures
            fits(r, k as nat),
            decode_word(r, k as nat) == self@.subrange(pos as int, pos + k),
            r == encode_bases(self@.subrange(pos as int, pos + k)),
    {
        let p = pos + self.start_pos;
        proof {
            assert(self.slice@.subrange(p as int, p + k) =~= self@.subrange(pos as int, pos + k));
        }
        self.slice.get_kmer_u64(p, k)
    }

    /// The k-mer of the `k` bases starting at `pos`.
    pub fn get_kmer(&self, pos: usize, k: usize) -> (r: Kmer)
        requires
            self.wf(),
            pos < self@.len(),
            pos + k <= self@.len(),
            k <= 32,
        ensures
            r.k == k,
            r.wf(),
            r@ == self@.subrange(pos as int, pos + k),
    {
        let w = self.get_kmer_u64(pos, k);
        proof {
            assert(decode_word(w, 32).subrange(0, k as int) =~= decode_word(w, k as nat));
        }
        Kmer::from_u64(w, k as u8)
    }

    /// The base at `pos`.
    pub fn get_base(&self, pos: usize) -> (r: Base)
        requires
            self.wf(),
            pos < self@.len(),
        ensures
            r == self@[pos as int],
    {
        let p = pos + self.start_pos;
        self.slice.get_base(p)
    }

    /// The sub-slice `[start, end)` of this slice; offsets compose.
    pub fn slice(&self, start: usize, end: usize) -> (r: SeqVectorSlice<'a>)
        requires
            self.wf(),
            start <= end <= self@.len(),
        ensures
            r.wf(),
            r@ == self@.subrange(start as int, end as int),
    {
        let r = SeqVectorSlice { len: end - start, start_pos: self.start_pos + start, slice: self.slice };
        proof {
            assert(r@ =~= self@.subrange(start as int, end as int));
        }
        r
    }

    /// The bases as upper-case letters.
    pub fn to_string(&self) -> (r: String)
        requires
            self.wf(),
        ensures
            r@ == self@.map_values(|b: Base| upper_char(b)),
    {
        let mut s = String::new();
        let mut i: usize = 0;
        while i < self.len
            invariant
                self.wf(),
                i <= self@.len(),
                s@ == self@.subrange(0, i as int).map_values(|b: Base| upper_char(b)),
            decreases self@.len() - i,
        {
            let b = self.get_base(i);
            let c = if b == 0 {
                'A'
            } else if b == 1 {
                'C'
            } else if b == 2 {
                'G'
            } else {
                'T'
            };
            push_char(&mut s, c);
            proof {
                assert(s@ =~= self@.subrange(0, i + 1).map_values(|b: Base| upper_char(b)));
            }
            i = i + 1;
        }
        proof {
            assert(self@.subrange(0, i as int) =~= self@);
        }
        s
    }

    /// Iterates over the k-mers of the slice.
    pub fn iter_kmers(&self, k: usize) -> (r: SeqVecKmerIterator<'a>)
        requires
            self.wf(),
            1 <= k <= 32,
            k <= self@.len(),
        ensures
            r.wf(),
            r.spec_seq() == self@,
            r.spec_k() == k,
            r.spec_pos() == 0,
    {
        SeqVecKmerIterator::new(*self, k)
    }
}

/// The k-mer of the window of `k` bases at `i`.
pub open spec fn window_kmer(s: Seq<Base>, i: int, k: nat) -> Kmer {
    Kmer { k: k as u8, data: encode_bases(s.subrange(i, i + k)) }
}

/// The k-mers of all windows of `k` bases from `from` on.
pub open spec fn window_kmers(s: Seq<Base>, k: nat, from: int) -> Seq<Kmer> {
    Seq::new((s.len() - k + 1 - from) as nat, |j: int| window_kmer(s, from + j, k))
}

/// The k-mers of a slice, in order.
pub struct SeqVecKmerIterator<'a> {
    k: usize,
    len: usize,
    pos: usize,
    seq: SeqVectorSlice<'a>,
}

impl<'a> SeqVecKmerIterator<'a> {
    pub closed spec fn spec_seq(&self) -> Seq<Base> {
        self.seq@
    }

    pub closed spec fn spec_k(&self) -> nat {
        self.k as nat
    }

    /// The index of the next window.
    pub closed spec fn spec_pos(&self) -> int {
        self.pos as int
    }

    pub closed spec fn wf(&self) -> bool {
        &&& self.seq.wf()
        &&& 1 <= self.k <= 32
        &&& self.k <= self.seq@.len()
        &&& self.len == self.seq@.len() - self.k + 1
        &&& self.pos <= self.len
    }

    pub fn new(slice: SeqVectorSlice<'a>, k: usize) -> (r: Self)
        requires
            slice.wf(),
            1 <= k <= 32,
            k <= slice@.len(),
        ensures
            r.wf(),
            r.spec_seq() == slice@,
            r.spec_k() == k,
            r.spec_pos() == 0,
    {
        let len = slice.len() - k + 1;
        Self { k, len, pos: 0, seq: slice }
    }

    /// The number of windows in all.
    pub fn len(&self) -> (r: usize)
        requires
            self.wf(),
        ensures
            r == self.spec_seq().len() - self.spec_k() + 1,
    {
        self.len
    }

    pub fn is_empty(&self) -> (r: bool)
        requires
            self.wf(),
        ensures
            r == (self.spec_seq().len() - self.spec_k() + 1 == 0),
    {
        self.len() == 0
    }

    /// The k-mer of the next window, if any.
    pub fn next(&mut self) -> (r: Option<Kmer>)
        requires
            old(self).wf(),
        ensures
            final(self).wf(),
            final(self).spec_seq() == old(self).spec_seq(),
            final(self).spec_k() == old(self).spec_k(),
            old(self).spec_pos() < old(self).spec_seq().len() - old(self).spec_k() + 1 ==> {
                &&& r == Some(
                    window_kmer(old(self).spec_seq(), old(self).spec_pos(), old(self).spec_k()),
                )
                &&& final(self).spec_pos() == old(self).spec_pos() + 1
            },
            old(self).spec_pos() >= old(self).spec_seq().len() - old(self).spec_k() + 1 ==> r
                == None::<Kmer> && final(self).spec_pos() == old(self).spec_pos(),
    {
        if self.pos < self.len {
            let km = self.seq.get_kmer(self.pos, self.k);
            proof {
                lemma_decode_encode(km.data, km.k as nat);
            }
            self.pos = self.pos + 1;
            Some(km)
        } else {
            None
        }
    }

    /// The k-mers of the remaining windows.
    pub fn collect(self) -> (r: Vec<Kmer>)
        requires
            self.wf(),
        ensures
            r@ == window_kmers(self.spec_seq(), self.spec_k(), self.spec_pos()),
    {
        let mut it = self;
        let mut out: Vec<Kmer> = Vec::new();
        let ghost s = it.spec_seq();
        let ghost k = it.spec_k();
        let ghost begin = it.spec_pos();
        while it.pos < it.len
            invariant
                it.wf(),
                it.spec_seq() == s,
                it.spec_k() == k,
                begin <= it.spec_pos(),
                out@ == window_kmers(s, k, begin).subrange(0, it.spec_pos() - begin),
            decreases it.len - it.pos,
        {
            let ghost p = it.spec_pos();
            let km = it.next();
            match km {
                Some(x) => {
                    out.push(x);
                },
                None => {},
            }
            proof {
                assert(out@ =~= window_kmers(s, k, begin).subrange(0, p + 1 - begin));
            }
        }
        proof {
            assert(out@ =~= window_kmers(s, k, begin));
        }
        out
    }
}

} // verus!
