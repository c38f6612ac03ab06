use kmers::canonical_kmer::{CanonicalKmer, MatchType};
use kmers::kmer::Kmer;

#[test]
fn test_from_u64() {
    let km = Kmer::from_str("acttg");
    let canon_km = CanonicalKmer::from_u64(km.into_u64(), km.len() as u8);

    assert_eq!(canon_km.get_fw_mer().to_string(), "acttg");
    assert_eq!(canon_km.get_rc_mer().to_string(), "caagt");
}

#[test]
fn test_from_kmer() {
    let km = Kmer::from_str("acttg");
    let canon_km = CanonicalKmer::from_kmer(km);

    assert_eq!(canon_km.get_fw_mer().to_string(), "acttg");
    assert_eq!(canon_km.get_rc_mer().to_string(), "caagt");
}

#[test]
fn test_swap() {
    let mut canon_km = CanonicalKmer::from_str("acttg");
    assert_eq!(canon_km.get_fw_mer().to_string(), "acttg");
    assert_eq!(canon_km.get_rc_mer().to_string(), "caagt");
    canon_km.swap();
    assert_eq!(canon_km.get_rc_mer().to_string(), "acttg");
    assert_eq!(canon_km.get_fw_mer().to_string(), "caagt");
}

#[test]
fn test_shift() {
    let mut canon_km = CanonicalKmer::from_str("acttg");
    canon_km.append_base_u8(b'a');
    assert_eq!(canon_km.get_fw_mer().to_string(), "cttga");
    assert_eq!(canon_km.get_rc_mer().to_string(), "tcaag");
    canon_km.prepend_base_u8(b'c');
    assert_eq!(canon_km.get_rc_mer().to_string(), "caagg");
    assert_eq!(canon_km.get_fw_mer().to_string(), "ccttg");
}

#[test]
fn test_equivalency() {
    let canon_km = CanonicalKmer::from_str("acttg");
    let mut canon_km2 = CanonicalKmer::from_str("caagt");

    let e = canon_km.get_kmer_equivalency(&canon_km2.get_fw_mer());
    assert_eq!(e, MatchType::TwinMatch);

    canon_km2.swap();
    let e = canon_km.get_kmer_equivalency(&canon_km2.get_fw_mer());
    assert_eq!(e, MatchType::IdentityMatch);

    canon_km2.append_base_u8(b'c');
    let e = canon_km.get_kmer_equivalency(&canon_km2.get_fw_mer());
    assert_eq!(e, MatchType::NoMatch);
}

#[test]
fn canonical_word_and_string() {
    let canon_km = CanonicalKmer::from_str("acttg");
    assert_eq!(canon_km.get_canonical_kmer(), Kmer::from_str("acttg"));
    assert_eq!(canon_km.get_canonical_word(), Kmer::from_str("acttg").data);
    assert!(canon_km.is_fw_canonical());
    assert_eq!(canon_km.to_string(), "acttg");
    let twin = CanonicalKmer::from_str("caagt");
    assert!(!twin.is_fw_canonical());
    assert_eq!(twin.get_canonical_kmer(), Kmer::from_str("acttg"));
    assert_eq!(twin.get_word_equivalency(Kmer::from_str("acttg").data), MatchType::TwinMatch);
    assert_eq!(twin.len(), 5);
    assert!(!twin.is_empty());
}

#[test]
fn blank_is_all_a_with_all_t_twin() {
    let b = CanonicalKmer::blank_of_size(4);
    assert_eq!(b.get_fw_mer().to_string(), "aaaa");
    assert_eq!(b.get_rc_mer().to_string(), "tttt");
    assert_eq!(b.get_rc_word(), 0xFF);
    assert_eq!(b.get_fw_word(), 0);
}

#[test]
fn acttg_round_trip_and_twin() {
    let km = Kmer::from_str("acttg");
    assert_eq!(km.to_string(), "acttg");
    assert_eq!(km.to_reverse_complement().to_string(), "caagt");
    let canon = CanonicalKmer::from_str("acttg");
    assert_eq!(canon.get_fw_mer().to_string(), "acttg");
    assert_eq!(canon.get_rc_mer().to_string(), "caagt");
}

#[test]
fn palindrome_resolves_to_forward() {
    let canon = CanonicalKmer::from_str("acgt");
    assert_eq!(canon.get_fw_word(), canon.get_rc_word());
    assert!(canon.is_fw_canonical());
    assert_eq!(canon.get_canonical_kmer(), canon.get_fw_mer());
    assert_eq!(canon.get_kmer_equivalency(&Kmer::from_str("acgt")), MatchType::IdentityMatch);
}
