use kmers::hash::{hash_one, LexHasher, LexHasherState, WordHasher};
use kmers::kmer::Kmer;

#[test]
fn new() {
    let s = LexHasher::new(3);
    assert_eq!(s.k, 3);
}

#[test]
fn lex_order() {
    let seed = LexHasherState::new(3);

    let aaa = Kmer::from_bytes(b"aaa");
    let h1 = hash_one(&seed, &aaa);
    assert_eq!(h1, 0);

    let aac = Kmer::from_bytes(b"aac");

    let h2 = hash_one(&seed, &aac);
    assert!(h1 < h2);

    assert_eq!(h2, 0b00001);

    let cac = hash_one(&seed, &Kmer::from_bytes(b"cac"));
    let caa = hash_one(&seed, &Kmer::from_bytes(b"caa"));

    assert!(caa < cac);
    assert_eq!(caa, 0b010000);
    assert_eq!(cac, 0b010001);
}

#[test]
fn lex_hasher_reverses_bases() {
    let mut h = LexHasher::new(4);
    h.write_u64(Kmer::from_str("ACGT").data);
    assert_eq!(h.finish(), 0b00_01_10_11);
    assert_eq!(LexHasherState::new(4).hash_word(Kmer::from_str("TGCA").data), 0b11_10_01_00);
}
