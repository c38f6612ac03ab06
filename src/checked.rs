//! Encoding that rejects any byte outside `ACGTacgt` instead of corrupting the word.
use vstd::prelude::*;

use crate::base::{all_nuc_bytes, byte_codes, char_code, is_nuc_byte, is_nuc_char, Base};
use crate::kmer::{encode_bases, lemma_encode_decode, all_bases, Kmer};

verus! {

/// A character or byte is not a nucleotide.
#[derive(Debug, PartialEq, Eq, Structural, Clone, Copy)]
pub struct EncodeError;

/// The 2-bit code of a nucleotide character, or `EncodeError`.
pub fn encode_binary_checked(c: char) -> (r: Result<Base, EncodeError>)
    ensures
        is_nuc_char(c) ==> r == Ok::<Base, EncodeError>(char_code(c)),
        !is_nuc_char(c) ==> r == Err::<Base, EncodeError>(EncodeError),
{
    match c {
        'A' | 'a' => Ok(0),
        'C' | 'c' => Ok(1),
        'G' | 'g' => Ok(2),
        'T' | 't' => Ok(3),
        _ => Err(EncodeError),
    }
}

impl Kmer {
    /// The k-mer of a byte string of at most 32 bytes, or `EncodeError` when
    /// a byte is not a nucleotide.
    pub fn from_bytes_checked(s: &[u8]) -> (r: Result<Kmer, EncodeError>)
        requires
            s@.len() <= 32,
        ensures
            all_nuc_bytes(s@) ==> r == Ok::<Kmer, EncodeError>(
                Kmer { k: s@.len() as u8, data: encode_bases(byte_codes(s@)) },
            ),
            all_nuc_bytes(s@) ==> r.unwrap().wf() && r.unwrap()@ == byte_codes(s@),
            !all_nuc_bytes(s@) ==> r == Err::<Kmer, EncodeError>(EncodeError),
    {
        let n = s.len();
        let mut w: u64 = 0;
        let mut i: usize = n;
        let ghost codes = byte_codes(s@);
        proof {
            assert(codes.subrange(n as int, n as int) =~= Seq::<u64>::empty());
        }
        while i > 0
            invariant
                i <= n,
                n == s@.len(),
                codes == byte_codes(s@),
                w == encode_bases(codes.subrange(i as int, n as int)),
                forall|t: int| i <= t < n ==> is_nuc_byte(#[trigger] s@[t]),
            decreases i,
        {
            let b = s[i - 1];
            let c = encode_binary_checked(b as char);
            match c {
                Ok(x) => {
                    proof {
                        assert(is_nuc_byte(b));
                        assert(x == codes[i - 1]);
                        assert(codes.subrange(i - 1, n as int).drop_first() =~= codes.subrange(
                            i as int,
                            n as int,
                        ));
                    }
                    w = (w << 2) | x;
                    i = i - 1;
                },
                Err(e) => {
                    proof {
                        assert(!is_nuc_byte(s@[i - 1]));
                    }
                    return Err(e);
                },
            }
        }
        proof {
            assert(codes.subrange(0, n as int) =~= codes);
            assert(all_bases(codes)) by {
                assert forall|t: int| 0 <= t < codes.len() implies #[trigger] codes[t] < 4 by {
                    assert(is_nuc_byte(s@[t]));
                }
            }
            lemma_encode_decode(codes);
        }
        Ok(Kmer { data: w, k: n as u8 })
    }
}

} // verus!
