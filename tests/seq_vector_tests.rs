use kmers::hash::LexHasherState;
use kmers::seq_vector::SeqVector;
use simple_sds::int_vector::IntVector;
use simple_sds::raw_vector::{PushRaw, RawVector};

#[test]
fn seq_slice_test() {
    let bytes = vec![1u64, 2, 3];
    let iv = IntVector::from(bytes);
    let rv = RawVector::from(iv);
    let sv = SeqVector::from_raw(rv);

    let slice = sv.as_slice();

    assert_eq!(slice.len(), 32 * 3);
    assert_eq!(slice.get_kmer_u64(0, 32), 1);

    let slice = sv.slice(1, 96);
    assert_eq!(slice.get_kmer_u64(0, 32), sv.get_kmer_u64(1, 32));

    let slice = sv.slice(75, 96);
    assert_eq!(slice.get_kmer_u64(0, 7), sv.get_kmer_u64(75, 7));
}

#[test]
fn push_chars() {
    let mut sv = SeqVector::with_capacity(64);
    let first_a30 = "A".repeat(30);
    let last_c40 = "C".repeat(40);
    sv.push_chars(first_a30.as_bytes());

    assert_eq!(sv.to_string(), first_a30);
    assert_eq!(sv.len(), 30);
    sv.push_chars(last_c40.as_bytes());
    assert_eq!(sv.len(), 70);
    assert_eq!(sv.to_string(), first_a30 + &last_c40);
}

#[test]
fn set_chars() {
    let mut sv = SeqVector::with_capacity(64);
    let first_a30 = "A".repeat(30);
    let last_c40 = "C".repeat(40);
    sv.push_chars(first_a30.as_bytes());
    sv.push_chars(last_c40.as_bytes());

    let set_g40 = "G".repeat(40);
    sv.set_chars(5, set_g40.as_bytes());

    assert_eq!(sv.len(), 70);
    assert_eq!(sv.to_string(), "A".repeat(5) + &"G".repeat(40) + &"C".repeat(25));

    let mut sv = SeqVector::with_len(70);
    assert_eq!(sv.len(), 70);
    assert_eq!(sv.to_string(), "A".repeat(70),);

    sv.set_chars(15, set_g40.as_bytes());
    assert_eq!(sv.to_string(), "A".repeat(15) + &"G".repeat(40) + &"A".repeat(15));

    let mut sv = SeqVector::with_len(32);

    sv.set_chars(1, "G".repeat(2).as_bytes());
    sv.set_chars(3, "C".repeat(29).as_bytes());

    assert_eq!(sv.to_string(), "A".repeat(1) + &"G".repeat(2) + &"C".repeat(29));

    sv.set_chars(0, "C".repeat(32).as_bytes());
    assert_eq!(sv.to_string(), "C".repeat(32),);
}

#[test]
fn iter_kmers() {
    let s = b"ACTTGAT";
    let sv = SeqVector::from_bytes(s);
    let mers = vec!["act", "ctt", "ttg", "tga", "gat"];

    let kmers: Vec<String> = sv.iter_kmers(3).collect().iter().map(|km| km.to_string()).collect();
    assert_eq!(kmers, mers);

    let kmers: Vec<String> = sv
        .slice(1, sv.len() - 1)
        .iter_kmers(3)
        .collect()
        .iter()
        .map(|km| km.to_string())
        .collect();
    assert_eq!(kmers, mers[1..mers.len() - 1]);
}

#[test]
fn iter_minimizers() {
    let s = b"ACTTGAT";
    let sv = SeqVector::from_bytes(s);
    let k = 5;
    let w = 3;
    let build_hasher = LexHasherState::new(w);

    let _mmers = sv.iter_minimizers(k, w, build_hasher);

    let mers = vec!["act", "ctt", "ttg", "tga", "gat"];

    let kmers: Vec<String> = sv.iter_kmers(3).collect().iter().map(|km| km.to_string()).collect();
    assert_eq!(kmers, mers);

    let kmers: Vec<String> = sv
        .slice(1, sv.len() - 1)
        .iter_kmers(3)
        .collect()
        .iter()
        .map(|km| km.to_string())
        .collect();
    assert_eq!(kmers, mers[1..mers.len() - 1]);
}

#[test]
fn nested_slices_compose_offsets() {
    let sv = SeqVector::from_str("ACGTTGCAAC");
    let outer = sv.slice(2, 9);
    let inner = outer.slice(1, 4);
    assert_eq!(inner.to_string(), "TTG");
    assert_eq!(inner.get_base(0), 3);
    assert_eq!(inner.get_kmer(0, 3).to_string(), "ttg");
    assert_eq!(outer.len(), 7);
    assert!(!inner.is_empty());
}

#[test]
fn empty_and_single_base() {
    let sv = SeqVector::new();
    assert!(sv.is_empty());
    assert_eq!(sv.len(), 0);
    let sv = SeqVector::from_bytes(b"g");
    assert_eq!(sv.get_base(0), 2);
    assert_eq!(sv.get_kmer(0, 1).to_string(), "g");
}

#[test]
fn kmer_iterator_len_and_next() {
    let sv = SeqVector::from_bytes(b"ACTTGAT");
    let mut it = sv.iter_kmers(7);
    assert_eq!(it.len(), 1);
    assert!(!it.is_empty());
    assert_eq!(it.next().map(|k| k.to_string()), Some("acttgat".to_string()));
    assert_eq!(it.next(), None);
}

#[test]
fn try_from_raw_rejects_odd_length() {
    let mut rv = RawVector::new();
    rv.push_bit(true);
    assert!(SeqVector::try_from_raw(rv.clone()).is_none());
    rv.push_bit(false);
    let sv = SeqVector::try_from_raw(rv).unwrap();
    assert_eq!(sv.to_string(), "C");
}
