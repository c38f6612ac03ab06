//! A k-mer of up to 32 bases packed in one 64-bit word, two bits per base,
//! base 0 (the 5' end) in the lowest bits.
use vstd::prelude::*;

use vstd::string::StringSliceAdditionalSpecFns;

use crate::base::{
    all_nuc_bytes, byte_code, byte_codes, encode_binary_u8, is_nuc_byte, lower_char, push_char,
    to_upper_nuc, upper_byte, Base,
};
use crate::hash::WordHasher;

verus! {

/// The base at index `i` of a packed word.
pub open spec fn base_at(w: u64, i: int) -> u64 {
    (w >> (2 * i) as u64) & 3
}

/// `w` holds at most `k` bases: no bit at or above `2k` is set.
pub open spec fn fits(w: u64, k: nat) -> bool {
    k <= 32 && (k < 32 ==> w >> (2 * k) as u64 == 0)
}

/// The first `k` bases of a packed word.
pub open spec fn decode_word(w: u64, k: nat) -> Seq<u64> {
    Seq::new(k, |i: int| base_at(w, i))
}

/// Packs a sequence of codes, first element in the lowest bits.
pub open spec fn encode_bases(s: Seq<u64>) -> u64
    decreases s.len(),
{
    if s.len() == 0 {
        0
    } else {
        (encode_bases(s.drop_first()) << 2) | s[0]
    }
}

/// Every element is a 2-bit base code.
pub open spec fn all_bases(s: Seq<u64>) -> bool {
    forall|i: int| 0 <= i < s.len() ==> #[trigger] s[i] < 4
}

/// The reverse complement of a base sequence.
pub open spec fn revcomp(s: Seq<u64>) -> Seq<u64> {
    Seq::new(s.len(), |i: int| (3 - s[s.len() - 1 - i]) as u64)
}

/// The word-parallel reversal of the 32 two-bit groups of a word.
pub open spec fn reverse_groups(x: u64) -> u64 {
    let r1 = (x >> 2 & 0x3333333333333333) | (x & 0x3333333333333333) << 2;
    let r2 = (r1 >> 4 & 0x0F0F0F0F0F0F0F0F) | (r1 & 0x0F0F0F0F0F0F0F0F) << 4;
    let r3 = (r2 >> 8 & 0x00FF00FF00FF00FF) | (r2 & 0x00FF00FF00FF00FF) << 8;
    let r4 = (r3 >> 16 & 0x0000FFFF0000FFFF) | (r3 & 0x0000FFFF0000FFFF) << 16;
    (r4 >> 32 & 0x00000000FFFFFFFF) | (r4 & 0x00000000FFFFFFFF) << 32
}

proof fn bv_reverse_groups(x: u64, i: u64)
    by (bit_vector)
    requires
        i < 32,
    ensures
        (reverse_groups(x) >> (2 * i)) & 3 == (x >> ((62 - 2 * i) as u64)) & 3,
{
}

proof fn bv_rc_word(x: u64, k: u64, i: u64)
    requires
        1 <= k <= 32,
        i < k,
    ensures
        ((reverse_groups(!x) >> ((64 - 2 * k) as u64)) >> (2 * i)) & 3 == 3 - ((x >> ((2 * (k - 1 - i)) as u64)) & 3),
        k < 32 ==> (reverse_groups(!x) >> ((64 - 2 * k) as u64)) >> (2 * k) == 0,
{
    bv_reverse_groups(!x, (i + 32 - k) as u64);
    let r = reverse_groups(!x);
    assert(((r >> ((64 - 2 * k) as u64)) >> (2 * i)) & 3 == (r >> ((2 * (i + 32 - k)) as u64)) & 3) by (bit_vector)
        requires
            1 <= k <= 32,
            i < k,
    ;
    assert(((!x) >> ((62 - 2 * (i + 32 - k)) as u64)) & 3 == 3 - ((x >> ((2 * (k - 1 - i)) as u64)) & 3))
        by (bit_vector)
        requires
            1 <= k <= 32,
            i < k,
    ;
    assert(k < 32 ==> (r >> ((64 - 2 * k) as u64)) >> (2 * k) == 0) by (bit_vector)
        requires
            1 <= k <= 32,
    ;
}


/// A mask of the lowest `2k` bits.
pub open spec fn low_mask(k: u64) -> u64 {
    if k >= 32 {
        0xFFFF_FFFF_FFFF_FFFFu64
    } else {
        ((1u64 << (2 * k) as u64) - 1) as u64
    }
}

proof fn bv_push_low(r: u64, c: u64, i: u64, n: u64)
    by (bit_vector)
    requires
        c < 4,
        i < 31,
        n < 32,
    ensures
        ((r << 2) | c) & 3 == c,
        (((r << 2) | c) >> (2 * (i + 1)) as u64) & 3 == (r >> (2 * i) as u64) & 3,
        (r >> (2 * n) as u64) == 0 && n + 1 < 32 ==> ((r << 2) | c) >> (2 * (n + 1)) as u64 == 0,
{
}

proof fn bv_shift_down(a: u64, i: u64, k: u64)
    by (bit_vector)
    requires
        i < 31,
        1 <= k <= 32,
    ensures
        ((a >> 2) >> (2 * i) as u64) & 3 == (a >> (2 * (i + 1)) as u64) & 3,
        (k < 32 ==> a >> (2 * k) as u64 == 0) ==> (a >> 2) >> (2 * (k - 1)) as u64 == 0,
        a == ((a >> 2) << 2) | (a & 3),
        a & 3 == (a >> 0u64) & 3,
{
}

proof fn bv_zero_shift(a: u64)
    by (bit_vector)
    ensures
        a >> 0u64 == a,
        (0u64 << 2) | 0u64 == 0,
{
}

/// Packing and unpacking a base sequence are inverse.
pub proof fn lemma_encode_decode(s: Seq<u64>)
    requires
        all_bases(s),
        s.len() <= 32,
    ensures
        fits(encode_bases(s), s.len()),
        decode_word(encode_bases(s), s.len()) == s,
    decreases s.len(),
{
    if s.len() == 0 {
        bv_zero_shift(0);
        assert(decode_word(encode_bases(s), 0) =~= s);
    } else {
        let rest = s.drop_first();
        let n = s.len();
        lemma_encode_decode(rest);
        let r = encode_bases(rest);
        let w = encode_bases(s);
        assert(w == (r << 2) | s[0]);
        assert forall|i: int| 0 <= i < n implies #[trigger] base_at(w, i) == s[i] by {
            if i == 0 {
                bv_push_low(r, s[0], 0, (n - 1) as u64);
                bv_zero_shift(w);
            } else {
                bv_push_low(r, s[0], (i - 1) as u64, (n - 1) as u64);
                assert(base_at(r, i - 1) == rest[i - 1]);
            }
        }
        if n < 32 {
            bv_push_low(r, s[0], 0, (n - 1) as u64);
        }
        assert(decode_word(w, n) =~= s);
    }
}

/// Two words that hold `k` bases are equal when their bases are.
pub proof fn lemma_decode_injective(a: u64, b: u64, k: nat)
    requires
        fits(a, k),
        fits(b, k),
        decode_word(a, k) == decode_word(b, k),
    ensures
        a == b,
    decreases k,
{
    if k == 0 {
        bv_zero_shift(a);
        bv_zero_shift(b);
        assert(a >> 0u64 == 0);
        assert(a == 0);
    } else {
        let a2 = a >> 2;
        let b2 = b >> 2;
        bv_shift_down(a, 0, k as u64);
        bv_shift_down(b, 0, k as u64);
        assert(decode_word(a, k)[0] == base_at(a, 0));
        assert(decode_word(b, k)[0] == base_at(b, 0));
        assert(base_at(a, 0) == (a >> 0u64) & 3);
        assert(a & 3 == base_at(a, 0));
        assert(b & 3 == base_at(b, 0));
        assert forall|i: int| 0 <= i < k - 1 implies #[trigger] base_at(a2, i) == base_at(b2, i) by {
            bv_shift_down(a, i as u64, k as u64);
            bv_shift_down(b, i as u64, k as u64);
            assert(((a >> 2) >> (2 * i) as u64) & 3 == (a >> (2 * (i + 1)) as u64) & 3);
            assert(base_at(a2, i) == base_at(a, i + 1));
            assert(((b >> 2) >> (2 * i) as u64) & 3 == (b >> (2 * (i + 1)) as u64) & 3);
            assert(base_at(b2, i) == base_at(b, i + 1));
            assert(decode_word(a, k)[i + 1] == base_at(a, i + 1));
            assert(decode_word(b, k)[i + 1] == base_at(b, i + 1));
            assert(decode_word(a, k)[i + 1] == decode_word(b, k)[i + 1]);
        }
        assert(decode_word(a2, (k - 1) as nat) =~= decode_word(b2, (k - 1) as nat));
        lemma_decode_injective(a2, b2, (k - 1) as nat);
        assert(a & 3 == b & 3);
    }
}

/// Every decoded element is a base code.
pub proof fn lemma_decode_bases(w: u64, k: nat)
    ensures
        all_bases(decode_word(w, k)),
{
    let s = decode_word(w, k);
    assert forall|i: int| 0 <= i < s.len() implies #[trigger] s[i] < 4 by {
        let x = w >> (2 * i) as u64;
        assert(x & 3 < 4) by (bit_vector);
    }
}

/// A word that holds `k` bases is the packing of those bases.
pub proof fn lemma_decode_encode(w: u64, k: nat)
    requires
        fits(w, k),
    ensures
        encode_bases(decode_word(w, k)) == w,
        all_bases(decode_word(w, k)),
{
    let s = decode_word(w, k);
    lemma_decode_bases(w, k);
    lemma_encode_decode(s);
    lemma_decode_injective(encode_bases(s), w, k);
}

/// The word-parallel reverse complement of the first `k` bases of a word.
pub open spec fn rc_word(x: u64, k: u64) -> u64 {
    reverse_groups(!x) >> ((64 - 2 * k) as u64)
}

proof fn lemma_rc_word(x: u64, k: u64)
    requires
        1 <= k <= 32,
    ensures
        fits(rc_word(x, k), k as nat),
        decode_word(rc_word(x, k), k as nat) == revcomp(decode_word(x, k as nat)),
        rc_word(x, k) == encode_bases(revcomp(decode_word(x, k as nat))),
{
    let r = rc_word(x, k);
    let s = decode_word(x, k as nat);
    assert forall|i: int| 0 <= i < k implies #[trigger] base_at(r, i) == revcomp(s)[i] by {
        bv_rc_word(x, k, i as u64);
        assert(base_at(x, k - 1 - i) == s[k - 1 - i]);
    }
    bv_rc_word(x, k, 0);
    assert(decode_word(r, k as nat) =~= revcomp(s));
    lemma_decode_encode(r, k as nat);
}


proof fn bv_mask_low(x: u64)
    by (bit_vector)
    requires
        x < 64,
    ensures
        (1u64 << x) >= 1,
{
}

/// Computes `low_mask(k)`.
fn mask_for(k: u64) -> (m: u64)
    requires
        k <= 32,
    ensures
        m == low_mask(k),
{
    if k >= 32 {
        0xFFFF_FFFF_FFFF_FFFFu64
    } else {
        proof {
            bv_mask_low((2 * k) as u64);
        }
        (1u64 << (2 * k)) - 1
    }
}

proof fn bv_extract(d: u64, p: u64, w: u64, i: u64)
    by (bit_vector)
    requires
        p + w <= 32,
        i < w,
    ensures
        (((d >> (2 * p) as u64) & low_mask(w)) >> (2 * i) as u64) & 3 == (d >> (2 * (p + i)) as u64)
            & 3,
        w < 32 ==> ((d >> (2 * p) as u64) & low_mask(w)) >> (2 * w) as u64 == 0,
{
}

proof fn bv_extract_empty(d: u64, p: u64)
    by (bit_vector)
    requires
        p <= 32,
    ensures
        ((d >> (2 * p) as u64) & low_mask(0)) >> 0u64 == 0,
{
}

/// The word of `w` bases starting at base `p` of `d`.
proof fn lemma_extract(d: u64, p: nat, w: nat)
    requires
        p + w <= 32,
    ensures
        fits((d >> (2 * p) as u64) & low_mask(w as u64), w),
        decode_word((d >> (2 * p) as u64) & low_mask(w as u64), w) == decode_word(d, 32).subrange(
            p as int,
            (p + w) as int,
        ),
{
    let r = (d >> (2 * p) as u64) & low_mask(w as u64);
    if w == 0 {
        bv_extract_empty(d, p as u64);
    } else {
        bv_extract(d, p as u64, w as u64, 0);
    }
    assert forall|i: int| 0 <= i < w implies #[trigger] base_at(r, i) == base_at(d, p + i) by {
        bv_extract(d, p as u64, w as u64, i as u64);
    }
    assert(decode_word(r, w) =~= decode_word(d, 32).subrange(p as int, (p + w) as int));
}

proof fn bv_append(d: u64, c: u64, k: u64, i: u64)
    by (bit_vector)
    requires
        1 <= k <= 32,
        c < 4,
        k < 32 ==> d >> (2 * k) as u64 == 0,
        i + 1 < k,
    ensures
        (((d >> 2) | (c << (2 * (k - 1)) as u64)) >> (2 * i) as u64) & 3 == (d >> (2 * (i + 1)) as u64)
            & 3,
        (((d >> 2) | (c << (2 * (k - 1)) as u64)) >> (2 * (k - 1)) as u64) & 3 == c,
        k < 32 ==> ((d >> 2) | (c << (2 * (k - 1)) as u64)) >> (2 * k) as u64 == 0,
{
}

proof fn bv_append_last(d: u64, c: u64, k: u64)
    by (bit_vector)
    requires
        1 <= k <= 32,
        c < 4,
        k < 32 ==> d >> (2 * k) as u64 == 0,
    ensures
        (((d >> 2) | (c << (2 * (k - 1)) as u64)) >> (2 * (k - 1)) as u64) & 3 == c,
        k < 32 ==> ((d >> 2) | (c << (2 * (k - 1)) as u64)) >> (2 * k) as u64 == 0,
{
}

proof fn bv_prepend(d: u64, c: u64, k: u64, i: u64)
    by (bit_vector)
    requires
        1 <= k <= 32,
        c < 4,
        1 <= i < k,
    ensures
        ((low_mask(k) & ((d << 2) | c)) >> 0u64) & 3 == c,
        ((low_mask(k) & ((d << 2) | c)) >> (2 * i) as u64) & 3 == (d >> (2 * (i - 1)) as u64) & 3,
        k < 32 ==> (low_mask(k) & ((d << 2) | c)) >> (2 * k) as u64 == 0,
{
}

proof fn bv_prepend_first(d: u64, c: u64, k: u64)
    by (bit_vector)
    requires
        1 <= k <= 32,
        c < 4,
    ensures
        ((low_mask(k) & ((d << 2) | c)) >> 0u64) & 3 == c,
        k < 32 ==> (low_mask(k) & ((d << 2) | c)) >> (2 * k) as u64 == 0,
{
}

/// Whether a k-mer equals its canonical form or not.
#[derive(PartialEq, Eq, Structural, Debug, Clone, Copy)]
pub enum Orientation {
    IsCanonical,
    NotCanononical,
}

/// A k-mer: `k` bases packed in `data`, base `i` at bits `2i` and `2i + 1`.
///
/// Ordering compares `k` first, then `data` numerically.
#[derive(PartialEq, Eq, Structural, Debug, Clone, Copy, PartialOrd, Ord, Default)]
pub struct Kmer {
    pub k: u8,
    pub data: u64,
}

impl View for Kmer {
    type V = Seq<Base>;

    /// The bases, 5' end first.
    open spec fn view(&self) -> Seq<Base> {
        decode_word(self.data, self.k as nat)
    }
}

impl Kmer {
    /// `k` is at most 32 and no bit above the `2k` low bits is set.
    pub open spec fn wf(&self) -> bool {
        fits(self.data, self.k as nat)
    }

    /// The packed word of the reverse complement.
    pub open spec fn rc_data(&self) -> u64 {
        encode_bases(revcomp(self@))
    }

    /// The word is at most the word of its reverse complement.
    pub open spec fn spec_is_canonical(&self) -> bool {
        self.data <= self.rc_data()
    }

    /// The reverse complement as a k-mer.
    pub open spec fn spec_rc(&self) -> Kmer {
        Kmer { k: self.k, data: self.rc_data() }
    }

    /// The canonical form as a k-mer.
    pub open spec fn spec_to_canonical(&self) -> Kmer {
        if self.spec_is_canonical() {
            *self
        } else {
            self.spec_rc()
        }
    }

    pub fn len(&self) -> (r: usize)
        ensures
            r == self.k,
    {
        self.k as usize
    }

    pub fn is_empty(&self) -> (r: bool)
        ensures
            r == (self.k == 0),
    {
        self.k == 0
    }

    /// The k-mer of the first `k` bases of `data`; higher bits are cleared.
    pub fn from_u64(data: u64, k: u8) -> (r: Kmer)
        requires
            k <= 32,
        ensures
            r.k == k,
            r.wf(),
            r@ == decode_word(data, 32).subrange(0, k as int),
    {
        let m = mask_for(k as u64);
        proof {
            lemma_extract(data, 0, k as nat);
            assert(data >> 0u64 == data) by (bit_vector);
        }
        Kmer { data: data & m, k }
    }

    pub fn into_u64(&self) -> (r: u64)
        ensures
            r == self.data,
    {
        self.data
    }

    /// The reverse complement.
    pub fn to_reverse_complement(&self) -> (r: Kmer)
        requires
            1 <= self.k <= 32,
        ensures
            r.k == self.k,
            r.wf(),
            r@ == revcomp(self@),
            r == self.spec_rc(),
    {
        let data = Kmer::get_reverse_complement_word(self.data, self.k);
        Kmer { data, k: self.k }
    }

    /// The reverse complement of the first `k` bases of `w`.
    pub fn get_reverse_complement_word(w: u64, k: u8) -> (r: u64)
        requires
            1 <= k <= 32,
        ensures
            fits(r, k as nat),
            decode_word(r, k as nat) == revcomp(decode_word(w, k as nat)),
            r == encode_bases(revcomp(decode_word(w, k as nat))),
    {
        let mut res = !w;
        res = (res >> 2 & 0x3333333333333333) | (res & 0x3333333333333333) << 2;
        res = (res >> 4 & 0x0F0F0F0F0F0F0F0F) | (res & 0x0F0F0F0F0F0F0F0F) << 4;
        res = (res >> 8 & 0x00FF00FF00FF00FF) | (res & 0x00FF00FF00FF00FF) << 8;
        res = (res >> 16 & 0x0000FFFF0000FFFF) | (res & 0x0000FFFF0000FFFF) << 16;
        res = (res >> 32 & 0x00000000FFFFFFFF) | (res & 0x00000000FFFFFFFF) << 32;
        proof {
            lemma_rc_word(w, k as u64);
            assert(res == reverse_groups(!w));
        }
        res >> (2 * (32 - k as u64))
    }

    /// Whether the word is at most the word of its reverse complement.
    pub fn is_canonical(&self) -> (r: bool)
        requires
            1 <= self.k <= 32,
        ensures
            r == self.spec_is_canonical(),
    {
        let rc = self.to_reverse_complement();
        self.data <= rc.data
    }

    pub fn orientation(&self) -> (r: Orientation)
        requires
            1 <= self.k <= 32,
        ensures
            r == (if self.spec_is_canonical() {
                Orientation::IsCanonical
            } else {
                Orientation::NotCanononical
            }),
    {
        if self.is_canonical() {
            Orientation::IsCanonical
        } else {
            Orientation::NotCanononical
        }
    }

    /// The canonical form: itself when canonical, else its reverse complement.
    pub fn to_canonical(&self) -> (r: Kmer)
        requires
            1 <= self.k <= 32,
        ensures
            r == self.spec_to_canonical(),
    {
        if self.is_canonical() {
            *self
        } else {
            self.to_reverse_complement()
        }
    }

    /// Shifts a base in at index 0 and returns the base evicted from index `k - 1`.
    ///
    /// A base code of 4 or more corrupts the word (see `encode_binary_u8`).
    pub fn prepend_base(&mut self, c: Base) -> (r: Base)
        requires
            1 <= old(self).k <= 32,
        ensures
            final(self).k == old(self).k,
            r == base_at(old(self).data, old(self).k - 1),
            c < 4 ==> final(self).wf(),
            c < 4 ==> final(self)@ == seq![c] + old(self)@.drop_last(),
    {
        let k = self.k as u64;
        let r = (self.data >> (2 * (k - 1))) & 0x03;
        let m = mask_for(k);
        let old_data = self.data;
        self.data = m & ((self.data << 2) | c);
        proof {
            if c < 4 {
                let nd = self.data;
                let o = decode_word(old_data, k as nat);
                bv_prepend_first(old_data, c, k);
                assert(base_at(nd, 0) == c);
                assert forall|i: int| 1 <= i < k implies #[trigger] base_at(nd, i) == o[i - 1] by {
                    bv_prepend(old_data, c, k, i as u64);
                }
                assert(self@ =~= seq![c] + o.drop_last());
            }
        }
        r
    }

    /// Shifts a base in at index `k - 1` and returns the base evicted from index 0.
    ///
    /// On a well-formed k-mer a base code of 4 or more corrupts the word
    /// (see `encode_binary_u8`).
    pub fn append_base(&mut self, c: Base) -> (r: Base)
        requires
            1 <= old(self).k <= 32,
        ensures
            final(self).k == old(self).k,
            r == base_at(old(self).data, 0),
            c < 4 && old(self).wf() ==> final(self).wf(),
            c < 4 && old(self).wf() ==> final(self)@ == old(self)@.drop_first().push(c),
    {
        let k = self.k as u64;
        let r = self.data & 0x03;
        let old_data = self.data;
        proof {
            assert(old_data & 3 == (old_data >> 0u64) & 3) by (bit_vector);
        }
        self.data = (self.data >> 2) | (c << (2 * (k - 1)));
        proof {
            if c < 4 && fits(old_data, k as nat) {
                let nd = self.data;
                let o = decode_word(old_data, k as nat);
                bv_append_last(old_data, c, k);
                assert forall|i: int| 0 <= i < k - 1 implies #[trigger] base_at(nd, i) == o[i + 1] by {
                    bv_append(old_data, c, k, i as u64);
                }
                assert(self@ =~= o.drop_first().push(c));
            }
        }
        r
    }

    /// `prepend_base` of the code of a byte.
    pub fn prepend_base_u8(&mut self, c: u8) -> (r: Base)
        requires
            1 <= old(self).k <= 32,
        ensures
            final(self).k == old(self).k,
            r == base_at(old(self).data, old(self).k - 1),
            is_nuc_byte(c) ==> final(self).wf(),
            is_nuc_byte(c) ==> final(self)@ == seq![byte_code(c)] + old(self)@.drop_last(),
    {
        let b = encode_binary_u8(c);
        self.prepend_base(b)
    }

    /// `append_base` of the code of a byte.
    pub fn append_base_u8(&mut self, c: u8) -> (r: Base)
        requires
            1 <= old(self).k <= 32,
        ensures
            final(self).k == old(self).k,
            r == base_at(old(self).data, 0),
            is_nuc_byte(c) && old(self).wf() ==> final(self).wf(),
            is_nuc_byte(c) && old(self).wf() ==> final(self)@ == old(self)@.drop_first().push(
                byte_code(c),
            ),
    {
        let b = encode_binary_u8(c);
        self.append_base(b)
    }
}


impl Kmer {
    /// The k-mer of a byte string, base 0 first; at most 32 bytes.
    ///
    /// A byte outside `ACGTacgt` is encoded as `INVALID_BASE`, which corrupts
    /// the word: only on valid bytes is the result well formed.
    pub fn from_bytes(s: &[u8]) -> (r: Kmer)
        requires
            s@.len() <= 32,
        ensures
            r.k == s@.len(),
            r.data == encode_bases(byte_codes(s@)),
            all_nuc_bytes(s@) ==> r.wf() && r@ == byte_codes(s@),
    {
        let n = s.len();
        let mut w: u64 = 0;
        let mut i: usize = n;
        let ghost codes = byte_codes(s@);
        proof {
            assert(codes.subrange(n as int, n as int) =~= Seq::<u64>::empty());
        }
        while i > 0
            invariant
                i <= n,
                n == s@.len(),
                codes == byte_codes(s@),
                w == encode_bases(codes.subrange(i as int, n as int)),
            decreases i,
        {
            let c = encode_binary_u8(s[i - 1]);
            proof {
                assert(codes.subrange(i - 1, n as int).drop_first() =~= codes.subrange(
                    i as int,
                    n as int,
                ));
            }
            w = (w << 2) | c;
            i = i - 1;
        }
        proof {
            assert(codes.subrange(0, n as int) =~= codes);
            if all_nuc_bytes(s@) {
                assert(all_bases(codes));
                lemma_encode_decode(codes);
            }
        }
        Kmer { data: w, k: n as u8 }
    }

    /// The k-mer of a string's bytes; at most 32 bytes.
    pub fn from_str(s: &str) -> (r: Kmer)
        requires
            s.spec_bytes().len() <= 32,
        ensures
            r.k == s.spec_bytes().len(),
            r.data == encode_bases(byte_codes(s.spec_bytes())),
            all_nuc_bytes(s.spec_bytes()) ==> r.wf() && r@ == byte_codes(s.spec_bytes()),
    {
        Kmer::from_bytes(s.as_bytes())
    }

    /// The bases as lower-case letters.
    pub fn to_string(&self) -> (r: String)
        requires
            self.k <= 32,
        ensures
            r@ == self@.map_values(|b: Base| lower_char(b)),
    {
        let mut s = String::new();
        let mut w = self.data;
        let mut i: u8 = 0;
        proof {
            bv_zero_shift(self.data);
        }
        while i < self.k
            invariant
                i <= self.k <= 32,
                w == self.data >> (2 * i) as u64,
                s@ == self@.subrange(0, i as int).map_values(|b: Base| lower_char(b)),
            decreases self.k - i,
        {
            let c = w & 3;
            let ch = if c == 0 {
                'a'
            } else if c == 1 {
                'c'
            } else if c == 2 {
                'g'
            } else {
                't'
            };
            push_char(&mut s, ch);
            proof {
                let d = self.data;
                let ii = i as u64;
                assert((d >> (2 * ii) as u64) >> 2 == d >> (2 * (ii + 1)) as u64) by (bit_vector)
                    requires
                        ii < 32,
                ;
                assert(c == base_at(self.data, i as int));
                assert(self@.subrange(0, i + 1).map_values(|b: Base| lower_char(b)) =~= s@);
            }
            w = w >> 2;
            i = i + 1;
        }
        proof {
            assert(self@.subrange(0, self.k as int) =~= self@);
        }
        s
    }

    /// The word of `width` bases starting at base `pos` of a `k`-base word.
    pub fn sub_kmer_word(word: u64, k: usize, pos: usize, width: usize) -> (r: u64)
        requires
            k <= 32,
            pos < k,
            pos + width <= k,
        ensures
            fits(r, width as nat),
            decode_word(r, width as nat) == decode_word(word, k as nat).subrange(
                pos as int,
                pos + width,
            ),
            r == sub_word(word, k as nat, pos as int, width as nat),
    {
        let word2 = word >> (pos * 2) as u64;
        let m = mask_for(width as u64);
        proof {
            lemma_extract(word, pos as nat, width as nat);
            assert(decode_word(word, k as nat) =~= decode_word(word, 32).subrange(0, k as int));
            lemma_decode_encode(word2 & m, width as nat);
        }
        word2 & m
    }

    /// The k-mer of `width` bases starting at base `pos`.
    pub fn sub_kmer(&self, pos: usize, width: usize) -> (r: Kmer)
        requires
            self.k <= 32,
            pos < self.k,
            pos + width <= self.k,
        ensures
            r.k == width,
            r.wf(),
            r@ == self@.subrange(pos as int, pos + width),
    {
        let km = Kmer::sub_kmer_word(self.data, self.k as usize, pos, width);
        proof {
            assert(decode_word(km, 32).subrange(0, width as int) =~= decode_word(km, width as nat));
        }
        Kmer::from_u64(km, width as u8)
    }
}

/// The word of the `width` bases of a `k`-base word starting at base `p`.
pub open spec fn sub_word(word: u64, k: nat, p: int, width: nat) -> u64 {
    encode_bases(decode_word(word, k).subrange(p, p + width))
}

/// `o` is the first position of a smallest value of `h`.
pub open spec fn is_first_min(h: Seq<u64>, o: int) -> bool {
    &&& 0 <= o < h.len()
    &&& forall|p: int| 0 <= p < h.len() ==> h[o] <= #[trigger] h[p]
    &&& forall|p: int| 0 <= p < o ==> h[o] < #[trigger] h[p]
}

/// The hashes of the `width`-mers of a `k`-base word, by position.
pub open spec fn window_hashes<H: WordHasher>(state: &H, word: u64, k: nat, width: nat) -> Seq<
    u64,
> {
    Seq::new((k - width + 1) as nat, |p: int| state.spec_hash(sub_word(word, k, p, width)))
}

/// The reverse complement of the `width`-mer at base `p`, as a word.
pub open spec fn sub_word_rc(word: u64, k: nat, p: int, width: nat) -> u64 {
    encode_bases(revcomp(decode_word(word, k).subrange(p, p + width)))
}

/// The smaller of the hashes of a `width`-mer and of its reverse complement, by position.
pub open spec fn canonical_window_hashes<H: WordHasher>(
    state: &H,
    word: u64,
    k: nat,
    width: nat,
) -> Seq<u64> {
    Seq::new(
        (k - width + 1) as nat,
        |p: int|
            {
                let hf = state.spec_hash(sub_word(word, k, p, width));
                let hr = state.spec_hash(sub_word_rc(word, k, p, width));
                if hf < hr {
                    hf
                } else {
                    hr
                }
            },
    )
}

/// The first position of a smallest hash.
pub fn first_min_index(hashes: &Vec<u64>) -> (o: usize)
    requires
        hashes@.len() >= 1,
    ensures
        is_first_min(hashes@, o as int),
{
    let mut o: usize = 0;
    let mut i: usize = 1;
    while i < hashes.len()
        invariant
            1 <= i <= hashes@.len(),
            is_first_min(hashes@.subrange(0, i as int), o as int),
        decreases hashes@.len() - i,
    {
        if hashes[i] < hashes[o] {
            o = i;
        }
        i = i + 1;
        proof {
            let s = hashes@.subrange(0, i as int);
            assert forall|p: int| 0 <= p < i implies s[o as int] <= #[trigger] s[p] by {
                if p < i - 1 {
                    assert(hashes@.subrange(0, i - 1)[p] == s[p]);
                }
            }
            assert forall|p: int| 0 <= p < o implies s[o as int] < #[trigger] s[p] by {
                assert(hashes@.subrange(0, i - 1)[p] == s[p]);
            }
        }
    }
    proof {
        assert(hashes@.subrange(0, i as int) =~= hashes@);
    }
    o
}

impl Kmer {
    /// The minimizer of a `k`-base word by brute force: the first `width`-mer
    /// of smallest hash and its offset.
    pub fn minimizer_word<H: WordHasher>(word: u64, k: usize, width: usize, state: &H) -> (r: (
        u64,
        usize,
    ))
        requires
            1 <= width <= k <= 32,
            state.hash_ready(),
        ensures
            r.1 <= k - width,
            r.0 == sub_word(word, k as nat, r.1 as int, width as nat),
            state.hash_known() ==> is_first_min(
                window_hashes(state, word, k as nat, width as nat),
                r.1 as int,
            ),
    {
        let n = k - width + 1;
        let mut words: Vec<u64> = Vec::new();
        let mut hashes: Vec<u64> = Vec::new();
        let mut pos: usize = 0;
        while pos < n
            invariant
                1 <= width <= k <= 32,
                n == k - width + 1,
                pos <= n,
                state.hash_ready(),
                words@.len() == pos,
                hashes@.len() == pos,
                forall|p: int|
                    0 <= p < pos ==> #[trigger] words@[p] == sub_word(word, k as nat, p, width as nat),
                state.hash_known() ==> forall|p: int|
                    0 <= p < pos ==> #[trigger] hashes@[p] == state.spec_hash(
                        sub_word(word, k as nat, p, width as nat),
                    ),
            decreases n - pos,
        {
            let mmer = Kmer::sub_kmer_word(word, k, pos, width);
            let hash = state.hash_word(mmer);
            words.push(mmer);
            hashes.push(hash);
            pos = pos + 1;
        }
        let o = first_min_index(&hashes);
        proof {
            if state.hash_known() {
                assert(hashes@ =~= window_hashes(state, word, k as nat, width as nat));
            }
        }
        (words[o], o)
    }

    /// `minimizer_word` of this k-mer, as a k-mer.
    pub fn minimizer<H: WordHasher>(&self, width: usize, state: &H) -> (r: (Kmer, usize))
        requires
            1 <= width <= self.k <= 32,
            state.hash_ready(),
        ensures
            r.1 <= self.k - width,
            r.0.k == width,
            r.0.wf(),
            r.0@ == self@.subrange(r.1 as int, r.1 + width),
            state.hash_known() ==> is_first_min(
                window_hashes(state, self.data, self.k as nat, width as nat),
                r.1 as int,
            ),
    {
        let (mm, o) = Kmer::minimizer_word(self.data, self.k as usize, width, state);
        proof {
            lemma_decode_bases(self.data, self.k as nat);
            assert(all_bases(self@.subrange(o as int, o + width)));
            lemma_encode_decode(self@.subrange(o as int, o + width));
            assert(decode_word(mm, 32).subrange(0, width as int) =~= decode_word(mm, width as nat));
        }
        let mm = Kmer::from_u64(mm, width as u8);
        (mm, o)
    }

    /// The canonical minimizer of a `k`-base word by brute force: among all
    /// `width`-mers and their reverse complements, the first position whose
    /// smaller hash is smallest; the word taken there, its offset, and whether
    /// it is the forward `width`-mer (ties go to the reverse complement).
    pub fn canonical_minimizer_word<H: WordHasher>(
        word: u64,
        k: usize,
        width: usize,
        state: &H,
    ) -> (r: (u64, usize, bool))
        requires
            1 <= width <= k <= 32,
            state.hash_ready(),
        ensures
            r.1 <= k - width,
            r.2 ==> r.0 == sub_word(word, k as nat, r.1 as int, width as nat),
            !r.2 ==> r.0 == sub_word_rc(word, k as nat, r.1 as int, width as nat),
            state.hash_known() ==> r.2 == (state.spec_hash(
                sub_word(word, k as nat, r.1 as int, width as nat),
            ) < state.spec_hash(sub_word_rc(word, k as nat, r.1 as int, width as nat))),
            state.hash_known() ==> is_first_min(
                canonical_window_hashes(state, word, k as nat, width as nat),
                r.1 as int,
            ),
    {
        let n = k - width + 1;
        let mut words: Vec<u64> = Vec::new();
        let mut fws: Vec<bool> = Vec::new();
        let mut hashes: Vec<u64> = Vec::new();
        let mut pos: usize = 0;
        while pos < n
            invariant
                1 <= width <= k <= 32,
                n == k - width + 1,
                pos <= n,
                state.hash_ready(),
                words@.len() == pos,
                fws@.len() == pos,
                hashes@.len() == pos,
                forall|p: int|
                    0 <= p < pos ==> (#[trigger] fws@[p] ==> words@[p] == sub_word(
                        word,
                        k as nat,
                        p,
                        width as nat,
                    )) && (!fws@[p] ==> words@[p] == sub_word_rc(word, k as nat, p, width as nat)),
                state.hash_known() ==> forall|p: int|
                    0 <= p < pos ==> #[trigger] hashes@[p] == canonical_window_hashes(
                        state,
                        word,
                        k as nat,
                        width as nat,
                    )[p],
                state.hash_known() ==> forall|p: int|
                    0 <= p < pos ==> #[trigger] fws@[p] == (state.spec_hash(
                        sub_word(word, k as nat, p, width as nat),
                    ) < state.spec_hash(sub_word_rc(word, k as nat, p, width as nat))),
            decreases n - pos,
        {
            let fw = Kmer::sub_kmer_word(word, k, pos, width);
            let rc = Kmer::get_reverse_complement_word(fw, width as u8);
            let fw_hash = state.hash_word(fw);
            let rc_hash = state.hash_word(rc);
            let mmer_is_fw = fw_hash < rc_hash;
            let (mmer, hash) = if mmer_is_fw {
                (fw, fw_hash)
            } else {
                (rc, rc_hash)
            };
            words.push(mmer);
            hashes.push(hash);
            fws.push(mmer_is_fw);
            proof {
                assert(rc == sub_word_rc(word, k as nat, pos as int, width as nat));
                if state.hash_known() {
                    let cw = canonical_window_hashes(state, word, k as nat, width as nat);
                    assert(cw[pos as int] == hashes@[pos as int]);
                }
            }
            pos = pos + 1;
        }
        let o = first_min_index(&hashes);
        proof {
            if state.hash_known() {
                assert(hashes@ =~= canonical_window_hashes(state, word, k as nat, width as nat));
            }
        }
        (words[o], o, fws[o])
    }

    /// `canonical_minimizer_word` of this k-mer, the word as a k-mer.
    pub fn canonical_minimizer<H: WordHasher>(&self, width: usize, state: &H) -> (r: (
        Kmer,
        usize,
        bool,
    ))
        requires
            1 <= width <= self.k <= 32,
            state.hash_ready(),
        ensures
            r.1 <= self.k - width,
            r.0.k == width,
            r.0.wf(),
            r.2 ==> r.0@ == self@.subrange(r.1 as int, r.1 + width),
            !r.2 ==> r.0@ == revcomp(self@.subrange(r.1 as int, r.1 + width)),
            state.hash_known() ==> is_first_min(
                canonical_window_hashes(state, self.data, self.k as nat, width as nat),
                r.1 as int,
            ),
    {
        let (mm, o, is_fw) = Kmer::canonical_minimizer_word(
            self.data,
            self.k as usize,
            width,
            state,
        );
        proof {
            let sub = self@.subrange(o as int, o + width);
            lemma_decode_bases(self.data, self.k as nat);
            assert(all_bases(sub));
            lemma_encode_decode(sub);
            lemma_encode_decode_revcomp(sub);
            assert(decode_word(mm, 32).subrange(0, width as int) =~= decode_word(mm, width as nat));
        }
        let mm = Kmer::from_u64(mm, width as u8);
        (mm, o, is_fw)
    }
}

/// The upper-case letters of the first `len` bases of a word.
pub fn bitmer_to_bytes(mer: u64, len_in: usize) -> (r: Vec<u8>)
    requires
        len_in <= 32,
    ensures
        r@ == decode_word(mer, len_in as nat).map_values(|b: Base| upper_byte(b)),
{
    let mut new_kmer = mer;
    let mut new_kmer_str: Vec<u8> = Vec::new();
    let mut i: usize = 0;
    proof {
        bv_zero_shift(mer);
    }
    while i < len_in
        invariant
            i <= len_in <= 32,
            new_kmer == mer >> (2 * i) as u64,
            new_kmer_str@ == decode_word(mer, i as nat).map_values(|b: Base| upper_byte(b)),
        decreases len_in - i,
    {
        let new_char = new_kmer & 3;
        let c: u8 = if new_char == 0 {
            65u8
        } else if new_char == 1 {
            67u8
        } else if new_char == 2 {
            71u8
        } else {
            84u8
        };
        new_kmer_str.push(c);
        proof {
            let ii = i as u64;
            assert((mer >> (2 * ii) as u64) >> 2 == mer >> (2 * (ii + 1)) as u64) by (bit_vector)
                requires
                    ii < 32,
            ;
            assert(new_char == base_at(mer, i as int));
            assert(new_kmer_str@ =~= decode_word(mer, (i + 1) as nat).map_values(
                |b: Base| upper_byte(b),
            ));
        }
        new_kmer = new_kmer >> 2;
        i = i + 1;
    }
    new_kmer_str
}

/// Packing a nucleotide string and unpacking it to letters gives the string in upper case.
pub proof fn lemma_codec_round_trip(s: Seq<u8>)
    requires
        all_nuc_bytes(s),
        s.len() <= 32,
    ensures
        decode_word(encode_bases(byte_codes(s)), s.len()).map_values(|b: Base| upper_byte(b))
            == s.map_values(|c: u8| to_upper_nuc(c)),
{
    let codes = byte_codes(s);
    assert(all_bases(codes)) by {
        assert forall|i: int| 0 <= i < codes.len() implies #[trigger] codes[i] < 4 by {
            assert(is_nuc_byte(s[i]));
        }
    }
    lemma_encode_decode(codes);
    assert forall|i: int| 0 <= i < s.len() implies upper_byte(#[trigger] codes[i]) == to_upper_nuc(
        s[i],
    ) by {
        assert(is_nuc_byte(s[i]));
    }
    assert(codes.map_values(|b: Base| upper_byte(b)) =~= s.map_values(|c: u8| to_upper_nuc(c)));
}

impl From<Kmer> for u64 {
    fn from(kmer: Kmer) -> (r: u64) {
        kmer.data
    }
}

impl vstd::std_specs::convert::FromSpecImpl<Kmer> for u64 {
    open spec fn obeys_from_spec() -> bool {
        true
    }

    open spec fn from_spec(kmer: Kmer) -> u64 {
        kmer.data
    }
}

impl core::hash::Hash for Kmer {
    /// Relies on `Hasher::write_u64`: a k-mer hashes as its word alone.
    #[verifier::external_body]
    fn hash<H: core::hash::Hasher>(&self, state: &mut H) {
        state.write_u64(self.data)
    }
}

/// Reverse complementing a k-mer twice gives it back.
pub proof fn lemma_rc_involutive(x: Kmer)
    requires
        x.wf(),
        1 <= x.k <= 32,
    ensures
        x.spec_rc().spec_rc() == x,
{
    let s = x@;
    lemma_decode_bases(x.data, x.k as nat);
    lemma_encode_decode_revcomp(s);
    let y = x.spec_rc();
    assert(y@ == revcomp(s));
    assert(revcomp(revcomp(s)) =~= s);
    lemma_encode_decode_revcomp(revcomp(s));
    lemma_decode_encode(x.data, x.k as nat);
}

proof fn lemma_encode_decode_revcomp(s: Seq<u64>)
    requires
        s.len() <= 32,
        all_bases(s),
    ensures
        all_bases(revcomp(s)),
        fits(encode_bases(revcomp(s)), s.len()),
        decode_word(encode_bases(revcomp(s)), s.len()) == revcomp(s),
{
    assert forall|i: int| 0 <= i < s.len() implies #[trigger] revcomp(s)[i] < 4 by {
        assert(s[s.len() - 1 - i] < 4);
    }
    lemma_encode_decode(revcomp(s));
}

/// The canonical form is canonical, and a k-mer and its reverse complement
/// have the same canonical form.
pub proof fn lemma_canonical(x: Kmer)
    requires
        x.wf(),
        1 <= x.k <= 32,
    ensures
        x.spec_to_canonical().spec_is_canonical(),
        x.spec_to_canonical() == x.spec_rc().spec_to_canonical(),
{
    let y = x.spec_rc();
    lemma_rc_involutive(x);
    lemma_decode_bases(x.data, x.k as nat);
    lemma_encode_decode_revcomp(x@);
    assert(y.wf());
    lemma_rc_involutive(y);
    assert(y.rc_data() == x.data);
    if x.data == y.data {
        assert(x == y);
    }
}

} // verus!
