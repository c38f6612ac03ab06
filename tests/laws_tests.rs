use kmers::canonical_kmer::CanonicalKmer;
use kmers::kmer::{bitmer_to_bytes, Kmer};

#[test]
fn codec_round_trip_upper_cases() {
    for s in ["a", "acgt", "AcGtTgCa", "ttttttttttttttttgggggggggggggggg"] {
        let km = Kmer::from_str(s);
        let out = bitmer_to_bytes(km.data, s.len());
        assert_eq!(out, s.to_uppercase().into_bytes());
    }
}

#[test]
fn reverse_complement_twice_is_identity() {
    for s in ["a", "ac", "gattaca", "ACGTTGCAACGTTGCAACGTTGCAACGTTGCA"] {
        let km = Kmer::from_str(s);
        assert_eq!(km.to_reverse_complement().to_reverse_complement(), km);
    }
}

#[test]
fn canonical_form_laws() {
    for s in ["taa", "tta", "gatacataggatgg", "acgt", "cccgggttt"] {
        let km = Kmer::from_str(s);
        let c = km.to_canonical();
        assert!(c.is_canonical());
        assert_eq!(c, km.to_reverse_complement().to_canonical());
    }
}

#[test]
fn rc_identity_random_words() {
    fn prop(word: u64) -> bool {
        let km = Kmer::from_u64(word, 31);
        km == km.to_reverse_complement().to_reverse_complement()
    }
    quickcheck::quickcheck(prop as fn(u64) -> bool);
}

#[test]
fn to_canonical_is_canonical_random_words() {
    fn prop(word: u64) -> bool {
        let km = Kmer::from_u64(word, 31);
        km.to_canonical().is_canonical()
    }
    quickcheck::quickcheck(prop as fn(u64) -> bool);
}

#[test]
fn swap_identity_random_words() {
    fn prop(word: u64) -> bool {
        let mut a = CanonicalKmer::from_u64(word, 31);
        let b = a.clone();
        a.swap();
        a.swap();
        a == b
    }
    quickcheck::quickcheck(prop as fn(u64) -> bool);
}

#[test]
fn incremental_matches_fresh() {
    let s = b"GATTACAGGCTTACGATCGATCGGATCCATGAAATTTCCCGGG";
    let k = 7;
    let mut fwd = CanonicalKmer::from_bytes(&s[0..k]);
    for i in 1..=(s.len() - k) {
        fwd.append_base_u8(s[i + k - 1]);
        assert_eq!(fwd, CanonicalKmer::from_bytes(&s[i..i + k]));
    }
    let last = s.len() - k;
    let mut bwd = CanonicalKmer::from_bytes(&s[last..]);
    for i in (0..last).rev() {
        bwd.prepend_base_u8(s[i]);
        assert_eq!(bwd, CanonicalKmer::from_bytes(&s[i..i + k]));
    }
}
