//! Hashing of k-mer words: a pluggable strategy and the order-preserving
//! reference hash `LexHasher`.
use std::collections::hash_map::RandomState;
use vstd::prelude::*;

use crate::base::Base;
use crate::kmer::{
    all_bases, base_at, decode_word, encode_bases, fits, lemma_decode_bases, lemma_decode_encode,
    lemma_encode_decode, Kmer,
};

verus! {

/// A strategy that hashes a 64-bit k-mer word to a 64-bit value.
pub trait WordHasher {
    /// The strategy can hash now.
    spec fn hash_ready(&self) -> bool;

    /// The specification knows the hash values (`spec_hash`).
    spec fn hash_known(&self) -> bool;

    /// The hash of a word, where `hash_known` holds.
    spec fn spec_hash(&self, word: u64) -> u64;

    fn hash_word(&self, word: u64) -> (r: u64)
        requires
            self.hash_ready(),
        ensures
            self.hash_known() ==> r == self.spec_hash(word),
    ;
}

/// Hashes a k-mer by its word.
pub fn hash_one<H: WordHasher>(state: &H, x: &Kmer) -> (r: u64)
    requires
        state.hash_ready(),
    ensures
        state.hash_known() ==> r == state.spec_hash(x.data),
{
    state.hash_word(x.data)
}

/// The lexicographic value of the first `k` bases of a word: the bases in
/// reverse order, so that base 0 is the most significant.
pub open spec fn lex_hash(word: u64, k: nat) -> u64 {
    encode_bases(decode_word(word, k).reverse())
}

/// The word-parallel reversal of the 32 two-bit groups of a word.
pub open spec fn reverse_pairs(x: u64) -> u64 {
    let r1 = (x >> 2 & 0x3333333333333333) | (x & 0x3333333333333333) << 2;
    let r2 = (r1 >> 4 & 0x0F0F0F0F0F0F0F0F) | (r1 & 0x0F0F0F0F0F0F0F0F) << 4;
    let r3 = (r2 >> 8 & 0x00FF00FF00FF00FF) | (r2 & 0x00FF00FF00FF00FF) << 8;
    let r4 = (r3 >> 16 & 0x0000FFFF0000FFFF) | (r3 & 0x0000FFFF0000FFFF) << 16;
    (r4 >> 32 & 0x00000000FFFFFFFF) | (r4 & 0x00000000FFFFFFFF) << 32
}

proof fn bv_reverse_pairs(x: u64, k: u64, i: u64)
    by (bit_vector)
    requires
        1 <= k <= 32,
        i < k,
    ensures
        ((reverse_pairs(x) >> ((64 - 2 * k) as u64)) >> (2 * i) as u64) & 3 == (x >> (2 * (k - 1
            - i)) as u64) & 3,
        k < 32 ==> (reverse_pairs(x) >> ((64 - 2 * k) as u64)) >> (2 * k) as u64 == 0,
{
}

/// Builds `LexHasher`s of a fixed k-mer length.
#[derive(Clone, Copy, Debug, PartialEq, Eq, Structural)]
pub struct LexHasherState(pub usize);

impl LexHasherState {
    pub fn new(k: usize) -> (r: Self)
        ensures
            r.0 == k,
    {
        Self(k)
    }

    pub fn build_hasher(&self) -> (r: LexHasher)
        ensures
            r.k == self.0,
            r.state == 0,
    {
        LexHasher::new(self.0)
    }
}

impl WordHasher for LexHasherState {
    open spec fn hash_ready(&self) -> bool {
        1 <= self.0 <= 32
    }

    open spec fn hash_known(&self) -> bool {
        true
    }

    open spec fn spec_hash(&self, word: u64) -> u64 {
        lex_hash(word, self.0 as nat)
    }

    fn hash_word(&self, word: u64) -> (r: u64) {
        let mut h = self.build_hasher();
        h.write_u64(word);
        h.finish()
    }
}

impl WordHasher for RandomState {
    open spec fn hash_ready(&self) -> bool {
        true
    }

    open spec fn hash_known(&self) -> bool {
        false
    }

    open spec fn spec_hash(&self, word: u64) -> u64 {
        0
    }

    fn hash_word(&self, word: u64) -> (r: u64) {
        random_state_hash(self, word)
    }
}

/// Relies on `BuildHasher::hash_one` of std's `RandomState`; nothing is
/// claimed of the value, which depends on the state's random keys.
#[verifier::external_body]
fn random_state_hash(state: &RandomState, word: u64) -> u64 {
    std::hash::BuildHasher::hash_one(state, word)
}

/// A hasher whose value orders k-mers of length `k` lexicographically.
pub struct LexHasher {
    pub state: u64,
    pub k: usize,
}

impl LexHasher {
    pub fn new(k: usize) -> (r: Self)
        ensures
            r.k == k,
            r.state == 0,
    {
        Self { k, state: 0 }
    }

    pub fn finish(&self) -> (r: u64)
        ensures
            r == self.state,
    {
        self.state
    }

    /// Sets the state to the lexicographic value of the first `k` bases of `word`.
    pub fn write_u64(&mut self, word: u64)
        requires
            1 <= old(self).k <= 32,
        ensures
            final(self).k == old(self).k,
            final(self).state == lex_hash(word, old(self).k as nat),
    {
        let mut res = word;
        res = (res >> 2 & 0x3333333333333333) | (res & 0x3333333333333333) << 2;
        res = (res >> 4 & 0x0F0F0F0F0F0F0F0F) | (res & 0x0F0F0F0F0F0F0F0F) << 4;
        res = (res >> 8 & 0x00FF00FF00FF00FF) | (res & 0x00FF00FF00FF00FF) << 8;
        res = (res >> 16 & 0x0000FFFF0000FFFF) | (res & 0x0000FFFF0000FFFF) << 16;
        res = (res >> 32 & 0x00000000FFFFFFFF) | (res & 0x00000000FFFFFFFF) << 32;
        let shift = ((32 - self.k) * 2) as u64;
        let out = res >> shift;
        proof {
            let k = self.k as u64;
            assert(res == reverse_pairs(word));
            assert(shift == (64 - 2 * k) as u64);
            let s = decode_word(word, k as nat);
            assert forall|i: int| 0 <= i < k implies #[trigger] base_at(out, i) == s.reverse()[i] by {
                bv_reverse_pairs(word, k, i as u64);
                assert(s[k - 1 - i] == base_at(word, k - 1 - i));
            }
            bv_reverse_pairs(word, k, 0);
            assert(decode_word(out, k as nat) =~= s.reverse());
            lemma_decode_encode(out, k as nat);
        }
        self.state = out;
    }
}

proof fn bv_shl_or_value(r: u64, c: u64, n: u64)
    by (bit_vector)
    requires
        c < 4,
        n <= 31,
        r >> (2 * n) as u64 == 0,
    ensures
        (r << 2) | c == r * 4 + c,
{
}

proof fn lemma_encode_first(t: Seq<Base>)
    requires
        all_bases(t),
        1 <= t.len() <= 32,
    ensures
        encode_bases(t) == encode_bases(t.drop_first()) * 4 + t[0],
{
    let rest = t.drop_first();
    assert(all_bases(rest)) by {
        assert forall|j: int| 0 <= j < rest.len() implies #[trigger] rest[j] < 4 by {
            assert(rest[j] == t[j + 1]);
        }
    }
    lemma_encode_decode(rest);
    assert(fits(encode_bases(rest), rest.len()));
    bv_shl_or_value(encode_bases(rest), t[0], rest.len() as u64);
}

/// Two base strings of one length, equal before index `i` and smaller at
/// `i`, pack in reverse order to a smaller number.
pub proof fn lemma_reverse_packing_orders(a: Seq<Base>, b: Seq<Base>, i: int)
    requires
        all_bases(a),
        all_bases(b),
        a.len() == b.len(),
        a.len() <= 32,
        0 <= i < a.len(),
        a.subrange(0, i) == b.subrange(0, i),
        a[i] < b[i],
    ensures
        encode_bases(a.reverse()) < encode_bases(b.reverse()),
    decreases a.len(),
{
    let n = a.len() as int;
    let a1 = a.drop_last();
    let b1 = b.drop_last();
    assert(all_bases(a.reverse())) by {
        assert forall|j: int| 0 <= j < n implies #[trigger] a.reverse()[j] < 4 by {
            assert(a.reverse()[j] == a[n - 1 - j]);
        }
    }
    assert(all_bases(b.reverse())) by {
        assert forall|j: int| 0 <= j < n implies #[trigger] b.reverse()[j] < 4 by {
            assert(b.reverse()[j] == b[n - 1 - j]);
        }
    }
    lemma_encode_first(a.reverse());
    lemma_encode_first(b.reverse());
    assert(a.reverse().drop_first() =~= a1.reverse());
    assert(b.reverse().drop_first() =~= b1.reverse());
    assert(a.reverse()[0] == a[n - 1]);
    assert(b.reverse()[0] == b[n - 1]);
    assert(a[n - 1] < 4 && b[n - 1] < 4);
    if i == n - 1 {
        assert(a1 =~= a.subrange(0, i));
        assert(b1 =~= b.subrange(0, i));
    } else {
        assert(all_bases(a1)) by {
            assert forall|j: int| 0 <= j < a1.len() implies #[trigger] a1[j] < 4 by {
                assert(a1[j] == a[j]);
            }
        }
        assert(all_bases(b1)) by {
            assert forall|j: int| 0 <= j < b1.len() implies #[trigger] b1[j] < 4 by {
                assert(b1[j] == b[j]);
            }
        }
        assert(a1.subrange(0, i) =~= a.subrange(0, i));
        assert(b1.subrange(0, i) =~= b.subrange(0, i));
        lemma_reverse_packing_orders(a1, b1, i);
    }
}

/// Under `LexHasher` of length `k`, two k-mers of that length hash in the
/// lexicographic order of their bases (base 0 first).
pub proof fn lemma_lex_hash_orders(x: Kmer, y: Kmer, i: int)
    requires
        x.k == y.k,
        1 <= x.k <= 32,
        0 <= i < x.k,
        x@.subrange(0, i) == y@.subrange(0, i),
        x@[i] < y@[i],
    ensures
        LexHasherState(x.k as usize).spec_hash(x.data) < LexHasherState(y.k as usize).spec_hash(
            y.data,
        ),
{
    lemma_decode_bases(x.data, x.k as nat);
    lemma_decode_bases(y.data, y.k as nat);
    lemma_reverse_packing_orders(x@, y@, i);
}

} // verus!
