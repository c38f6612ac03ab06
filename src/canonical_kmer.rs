//! A k-mer kept together with its reverse complement, both updated in the
//! same step.
use vstd::prelude::*;
use vstd::string::StringSliceAdditionalSpecFns;

use crate::base::{
    all_nuc_bytes, byte_code, byte_codes, complement_base, encode_binary_u8, is_nuc_byte,
    lower_char, Base,
};
use crate::kmer::{
    all_bases, decode_word, lemma_decode_bases, lemma_decode_encode, lemma_rc_involutive,
    revcomp, Kmer,
};

verus! {

/// How a k-mer relates to a canonical k-mer.
#[derive(PartialEq, Eq, Structural, Debug, Clone, Copy)]
pub enum MatchType {
    NoMatch,
    IdentityMatch,
    TwinMatch,
}

/// A forward k-mer and its reverse complement.
#[derive(PartialEq, Eq, Structural, Debug, Clone, Copy, PartialOrd, Ord, Default)]
pub struct CanonicalKmer {
    fw: Kmer,
    rc: Kmer,
}

impl View for CanonicalKmer {
    type V = Seq<Base>;

    /// The forward bases.
    closed spec fn view(&self) -> Seq<Base> {
        self.fw@
    }
}

proof fn lemma_rc_of_view(fw: Kmer, rc: Kmer)
    requires
        1 <= fw.k <= 32,
        fw.wf(),
        rc.k == fw.k,
        rc.wf(),
        rc@ == revcomp(fw@),
    ensures
        rc == fw.spec_rc(),
{
    lemma_decode_encode(rc.data, rc.k as nat);
}

proof fn lemma_revcomp_all_bases(s: Seq<Base>)
    requires
        all_bases(s),
    ensures
        all_bases(revcomp(s)),
{
    assert forall|i: int| 0 <= i < s.len() implies #[trigger] revcomp(s)[i] < 4 by {
        assert(s[s.len() - 1 - i] < 4);
    }
}

impl CanonicalKmer {
    /// The forward k-mer.
    pub closed spec fn spec_fw(&self) -> Kmer {
        self.fw
    }

    /// The reverse-complement k-mer.
    pub closed spec fn spec_rc(&self) -> Kmer {
        self.rc
    }

    /// `k` is in `1..=32`, the forward k-mer is well formed and `rc` is its reverse complement.
    pub closed spec fn wf(&self) -> bool {
        &&& 1 <= self.fw.k <= 32
        &&& self.fw.wf()
        &&& self.rc == self.fw.spec_rc()
    }

    /// What a well-formed value says of its parts.
    pub proof fn lemma_wf(&self)
        requires
            self.wf(),
        ensures
            1 <= self.spec_fw().k <= 32,
            self.spec_fw().wf(),
            self.spec_rc() == self.spec_fw().spec_rc(),
            self@ == self.spec_fw()@,
            self@.len() == self.spec_fw().k,
            all_bases(self@),
            self.spec_rc().wf(),
            self.spec_rc()@ == revcomp(self@),
    {
        lemma_decode_bases(self.fw.data, self.fw.k as nat);
        lemma_revcomp_all_bases(self.fw@);
        crate::kmer::lemma_encode_decode(revcomp(self.fw@));
    }

    /// Two well-formed values with the same forward bases are equal.
    pub proof fn lemma_view_eq(a: CanonicalKmer, b: CanonicalKmer)
        requires
            a.wf(),
            b.wf(),
            a@ == b@,
        ensures
            a == b,
    {
        crate::kmer::lemma_decode_injective(a.fw.data, b.fw.data, a.fw.k as nat);
    }

    /// Builds the value of a well-formed forward k-mer.
    fn from_fw(fw: Kmer) -> (r: CanonicalKmer)
        requires
            1 <= fw.k <= 32,
            fw.wf(),
        ensures
            r.wf(),
            r.spec_fw() == fw,
            r@ == fw@,
    {
        let rc = fw.to_reverse_complement();
        CanonicalKmer { fw, rc }
    }

    /// All-A forward k-mer with its all-T reverse complement.
    pub fn blank_of_size(k: u8) -> (r: CanonicalKmer)
        requires
            1 <= k <= 32,
        ensures
            r.wf(),
            r@ == Seq::new(k as nat, |i: int| 0u64),
    {
        let fw = Kmer::from_u64(0, k);
        proof {
            assert(fw@ =~= Seq::new(k as nat, |i: int| 0u64)) by {
                assert forall|i: int| 0 <= i < k implies fw@[i] == 0u64 by {
                    let s = (2 * i) as u64;
                    assert((0u64 >> s) & 3 == 0) by (bit_vector);
                    assert(fw@[i] == decode_word(0, 32)[i]);
                }
            }
        }
        Self::from_fw(fw)
    }

    pub fn is_empty(&self) -> (r: bool)
        requires
            self.wf(),
        ensures
            r == (self@.len() == 0),
    {
        self.fw.is_empty()
    }

    pub fn len(&self) -> (r: usize)
        requires
            self.wf(),
        ensures
            r == self@.len(),
    {
        self.fw.len()
    }

    /// The canonical k-mer of the first `k` bases of `data`.
    pub fn from_u64(data: u64, k: u8) -> (r: CanonicalKmer)
        requires
            1 <= k <= 32,
        ensures
            r.wf(),
            r@ == decode_word(data, 32).subrange(0, k as int),
    {
        let fw = Kmer::from_u64(data, k);
        Self::from_fw(fw)
    }

    /// The canonical k-mer of a well-formed k-mer.
    pub fn from_kmer(km: Kmer) -> (r: CanonicalKmer)
        requires
            1 <= km.k <= 32,
            km.wf(),
        ensures
            r.wf(),
            r.spec_fw() == km,
            r@ == km@,
    {
        Self::from_fw(km)
    }

    /// The canonical k-mer of a nucleotide byte string.
    pub fn from_bytes(s: &[u8]) -> (r: CanonicalKmer)
        requires
            1 <= s@.len() <= 32,
            all_nuc_bytes(s@),
        ensures
            r.wf(),
            r@ == byte_codes(s@),
    {
        let fw = Kmer::from_bytes(s);
        Self::from_fw(fw)
    }

    /// The canonical k-mer of a nucleotide string.
    pub fn from_str(s: &str) -> (r: CanonicalKmer)
        requires
            1 <= s.spec_bytes().len() <= 32,
            all_nuc_bytes(s.spec_bytes()),
        ensures
            r.wf(),
            r@ == byte_codes(s.spec_bytes()),
    {
        Self::from_bytes(s.as_bytes())
    }

    /// Exchanges the two strands.
    pub fn swap(&mut self)
        requires
            old(self).wf(),
        ensures
            final(self).wf(),
            final(self).spec_fw() == old(self).spec_rc(),
            final(self).spec_rc() == old(self).spec_fw(),
    {
        proof {
            self.lemma_wf();
            lemma_rc_involutive(self.fw);
        }
        let t = self.fw.data;
        self.fw.data = self.rc.data;
        self.rc.data = t;
    }

    /// Whether the forward strand is the canonical one: its word is at most
    /// the reverse-complement word (a palindrome resolves to the forward strand).
    pub fn is_fw_canonical(&self) -> (r: bool)
        requires
            self.wf(),
        ensures
            r == (self.spec_fw().data <= self.spec_rc().data),
            r == self.spec_fw().spec_is_canonical(),
    {
        self.fw.data <= self.rc.data
    }

    /// Appends base `b` on the forward strand and prepends its complement on
    /// the reverse strand; returns the base evicted from the forward strand.
    pub fn append_base(&mut self, b: Base) -> (r: Base)
        requires
            old(self).wf(),
            b < 4,
        ensures
            final(self).wf(),
            final(self)@ == old(self)@.drop_first().push(b),
            r == old(self)@[0],
    {
        proof {
            self.lemma_wf();
        }
        let ghost old_fw = self.fw;
        let cb = complement_base(b);
        let r = self.fw.append_base(b);
        self.rc.prepend_base(cb);
        proof {
            let s = old_fw@;
            assert(revcomp(s.drop_first().push(b)) =~= seq![cb] + revcomp(s).drop_last());
            assert(r == s[0]);
            lemma_rc_of_view(self.fw, self.rc);
        }
        r
    }

    /// Prepends base `b` on the forward strand and appends its complement on
    /// the reverse strand; returns the base evicted from the forward strand.
    pub fn prepend_base(&mut self, b: Base) -> (r: Base)
        requires
            old(self).wf(),
            b < 4,
        ensures
            final(self).wf(),
            final(self)@ == seq![b] + old(self)@.drop_last(),
            r == old(self)@[old(self)@.len() - 1],
    {
        proof {
            self.lemma_wf();
        }
        let ghost old_fw = self.fw;
        let cb = complement_base(b);
        let r = self.fw.prepend_base(b);
        self.rc.append_base(cb);
        proof {
            let s = old_fw@;
            assert(revcomp(seq![b] + s.drop_last()) =~= revcomp(s).drop_first().push(cb));
            assert(r == s[s.len() - 1]);
            lemma_rc_of_view(self.fw, self.rc);
        }
        r
    }

    /// `append_base` of the code of a nucleotide byte.
    pub fn append_base_u8(&mut self, c: u8) -> (r: Base)
        requires
            old(self).wf(),
            is_nuc_byte(c),
        ensures
            final(self).wf(),
            final(self)@ == old(self)@.drop_first().push(byte_code(c)),
            r == old(self)@[0],
    {
        let b = encode_binary_u8(c);
        self.append_base(b)
    }

    /// `prepend_base` of the code of a nucleotide byte.
    pub fn prepend_base_u8(&mut self, c: u8) -> (r: Base)
        requires
            old(self).wf(),
            is_nuc_byte(c),
        ensures
            final(self).wf(),
            final(self)@ == seq![byte_code(c)] + old(self)@.drop_last(),
            r == old(self)@[old(self)@.len() - 1],
    {
        let b = encode_binary_u8(c);
        self.prepend_base(b)
    }

    /// The canonical k-mer: the strand with the smaller word.
    pub fn get_canonical_kmer(&self) -> (r: Kmer)
        requires
            self.wf(),
        ensures
            r == self.spec_fw().spec_to_canonical(),
    {
        proof {
            if self.fw.data == self.rc.data {
                assert(self.fw == self.rc);
            }
        }
        if self.fw.data < self.rc.data {
            self.fw
        } else {
            self.rc
        }
    }

    /// The word of `get_canonical_kmer`.
    pub fn get_canonical_word(&self) -> (r: u64)
        requires
            self.wf(),
        ensures
            r == self.spec_fw().spec_to_canonical().data,
    {
        if self.fw.data < self.rc.data {
            self.fw.data
        } else {
            self.rc.data
        }
    }

    pub fn get_fw_mer(&self) -> (r: Kmer)
        ensures
            r == self.spec_fw(),
    {
        self.fw
    }

    pub fn get_rc_mer(&self) -> (r: Kmer)
        ensures
            r == self.spec_rc(),
    {
        self.rc
    }

    pub fn get_fw_word(&self) -> (r: u64)
        ensures
            r == self.spec_fw().data,
    {
        self.fw.data
    }

    pub fn get_rc_word(&self) -> (r: u64)
        ensures
            r == self.spec_rc().data,
    {
        self.rc.data
    }

    /// Whether `other`'s word is the forward word, the reverse-complement word, or neither.
    pub fn get_kmer_equivalency(&self, other: &Kmer) -> (r: MatchType)
        ensures
            r == equivalency(self.spec_fw().data, self.spec_rc().data, other.data),
    {
        self.get_word_equivalency(other.data)
    }

    /// Whether `other` is the forward word, the reverse-complement word, or neither.
    pub fn get_word_equivalency(&self, other: u64) -> (r: MatchType)
        ensures
            r == equivalency(self.spec_fw().data, self.spec_rc().data, other),
    {
        if self.get_fw_word() == other {
            MatchType::IdentityMatch
        } else if self.get_rc_word() == other {
            MatchType::TwinMatch
        } else {
            MatchType::NoMatch
        }
    }

    /// The canonical k-mer in lower-case letters.
    pub fn to_string(&self) -> (r: String)
        requires
            self.wf(),
        ensures
            r@ == self.spec_fw().spec_to_canonical()@.map_values(|b: Base| lower_char(b)),
    {
        self.get_canonical_kmer().to_string()
    }
}

/// The match of a word against a forward word `fw` and its twin `rc`; the forward word wins.
pub open spec fn equivalency(fw: u64, rc: u64, other: u64) -> MatchType {
    if fw == other {
        MatchType::IdentityMatch
    } else if rc == other {
        MatchType::TwinMatch
    } else {
        MatchType::NoMatch
    }
}

/// Appending the next base of a nucleotide string to the canonical k-mer of
/// the window at `i` gives the canonical k-mer built afresh from the window at
/// `i + 1`.
pub proof fn lemma_append_matches_fresh(
    s: Seq<u8>,
    i: int,
    k: nat,
    at: CanonicalKmer,
    next: CanonicalKmer,
    fresh: CanonicalKmer,
)
    requires
        all_nuc_bytes(s),
        0 <= i,
        1 <= k <= 32,
        i + k < s.len(),
        at.wf(),
        next.wf(),
        fresh.wf(),
        at@ == byte_codes(s.subrange(i, i + k)),
        next@ == at@.drop_first().push(byte_code(s[i + k])),
        fresh@ == byte_codes(s.subrange(i + 1, i + k + 1)),
    ensures
        next == fresh,
{
    assert(byte_codes(s.subrange(i, i + k)).drop_first().push(byte_code(s[i + k])) =~= byte_codes(
        s.subrange(i + 1, i + k + 1),
    ));
    CanonicalKmer::lemma_view_eq(next, fresh);
}

/// Prepending the previous base of a nucleotide string to the canonical
/// k-mer of the window at `i + 1` gives the canonical k-mer built afresh from
/// the window at `i`.
pub proof fn lemma_prepend_matches_fresh(
    s: Seq<u8>,
    i: int,
    k: nat,
    at: CanonicalKmer,
    prev: CanonicalKmer,
    fresh: CanonicalKmer,
)
    requires
        all_nuc_bytes(s),
        0 <= i,
        1 <= k <= 32,
        i + k < s.len(),
        at.wf(),
        prev.wf(),
        fresh.wf(),
        at@ == byte_codes(s.subrange(i + 1, i + k + 1)),
        prev@ == seq![byte_code(s[i])] + at@.drop_last(),
        fresh@ == byte_codes(s.subrange(i, i + k)),
    ensures
        prev == fresh,
{
    assert(seq![byte_code(s[i])] + byte_codes(s.subrange(i + 1, i + k + 1)).drop_last()
        =~= byte_codes(s.subrange(i, i + k)));
    CanonicalKmer::lemma_view_eq(prev, fresh);
}

} // verus!
