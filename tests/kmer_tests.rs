use std::collections::hash_map::{DefaultHasher, RandomState};
use std::hash::{Hash, Hasher};

use kmers::base::{complement_base, encode_binary, encode_binary_u8, is_valid_nuc, A, C, G, T};
use kmers::hash::{hash_one, LexHasherState};
use kmers::kmer::{bitmer_to_bytes, Kmer, Orientation};

#[test]
fn test_into_canon() {
    let seq1 = Kmer::from_str("taa");
    let seq2 = Kmer::from_str("tta");
    assert_eq!(seq1.to_canonical(), seq1);
    assert_eq!(seq2.to_canonical(), seq1);

    let seq1 = Kmer::from_str("atc");
    let seq2 = Kmer::from_str("gat");
    assert_eq!(seq1.to_canonical(), seq1);
    assert_eq!(seq2.to_canonical(), seq1);

    let not_canon = Kmer::from_str("gatacataggatgg");
    let rc = Kmer::from_str("gatacataggatgg").to_reverse_complement();

    assert_eq!(rc, not_canon.to_canonical());

    let canon = Kmer::from_str("agatacataggatgg");
    assert_eq!(canon, canon.to_canonical());
}

#[test]
fn test_is_canon() {
    assert!(Kmer::from_str("agatacataggatgg").is_canonical());
    assert!(!Kmer::from_str("gatacataggatgg").is_canonical());
}

#[test]
fn test_ord() {
    assert!(Kmer::from_str("tcc") < Kmer::from_str("cct"));
}

#[test]
fn test_append() {
    let mut k1 = Kmer::from_str("att");
    let k2 = Kmer::from_str("ttc");

    let shift_off = k1.append_base_u8(b'c');
    assert_eq!(k1, k2, "{:?} {:?}", k1, k2);
    assert_eq!(shift_off, A);

    let mut k1 = Kmer::from_str("ttcga");
    let k2 = Kmer::from_str("tcgag");

    let shift_off = k1.append_base_u8(b'g');
    assert_eq!(k1, k2, "{:?} {:?}", k1, k2);
    assert_eq!(shift_off, T);

    let mut k1 = Kmer::from_str("att");
    let k2 = Kmer::from_str("ttc");

    let shift_off = k1.append_base(encode_binary_u8(b'c'));
    assert_eq!(k1, k2, "{:?} {:?}", k1, k2);
    assert_eq!(shift_off, A);

    let mut k1 = Kmer::from_str("ttcga");
    let k2 = Kmer::from_str("tcgag");

    let shift_off = k1.append_base(encode_binary_u8(b'g'));
    assert_eq!(k1, k2, "{:?} {:?}", k1, k2);
    assert_eq!(shift_off, T);
}

#[test]
fn test_prepend() {
    let mut k1 = Kmer::from_str("att");
    let k2 = Kmer::from_str("cat");

    let shift_off = k1.prepend_base_u8(b'c');
    assert_eq!(k1, k2, "{:?} {:?}", k1, k2);
    assert_eq!(shift_off, T);

    let mut k1 = Kmer::from_str("ttcga");
    let k2 = Kmer::from_str("gttcg");

    let shift_off = k1.prepend_base_u8(b'g');
    assert_eq!(k1, k2, "{:?} {:?}", k1, k2);
    assert_eq!(shift_off, A);

    let mut k1 = Kmer::from_str("att");
    let k2 = Kmer::from_str("cat");

    let shift_off = k1.prepend_base(encode_binary_u8(b'c'));
    assert_eq!(k1, k2, "{:?} {:?}", k1, k2);
    assert_eq!(shift_off, T);

    let mut k1 = Kmer::from_str("ttcga");
    let k2 = Kmer::from_str("gttcg");

    let shift_off = k1.prepend_base(encode_binary_u8(b'g'));
    assert_eq!(k1, k2, "{:?} {:?}", k1, k2);
    assert_eq!(shift_off, A);
}

#[test]
fn test_rc() {
    let rc = Kmer { k: 1, data: 0 };
    let rc = rc.to_reverse_complement();
    let checked = Kmer::from_str("t");
    assert_eq!(rc, checked, "{:?} {:?}", rc, checked);

    let rc = Kmer::from_str("a").to_reverse_complement();
    let checked = Kmer::from_str("t");
    assert_eq!(rc, checked, "{:?} {:?}", rc, checked);

    let rc = Kmer::from_str("aaa").to_reverse_complement();
    let checked = Kmer::from_str("ttt");
    assert_eq!(rc, checked, "{:?} {:?}", rc, checked);

    let rc = Kmer::from_str("ttt").to_reverse_complement();
    let checked = Kmer::from_str("aaa");
    assert_eq!(rc, checked, "{:?} {:?}", rc, checked);

    let rc = Kmer::from_str("ta").to_reverse_complement();
    let checked = Kmer::from_str("ta");
    assert_eq!(rc, checked, "{:?} {:?}", rc, checked);

    let rc = Kmer::from_str("ccg").to_reverse_complement();
    let checked = Kmer::from_str("cgg");
    assert_eq!(rc, checked, "{:?} {:?}", rc, checked);

    let rc = Kmer::from_str("aat").to_reverse_complement();
    let checked = Kmer::from_str("att");
    assert_eq!(rc, checked, "{:?} {:?}", rc, checked);

    let rc = Kmer::from_str("aat").to_reverse_complement();
    let checked = Kmer::from_str("att");
    assert_eq!(rc, checked, "{:?} {:?}", rc, checked);

    let rc = Kmer::from_str("gatacataggatgg").to_reverse_complement();
    let checked = Kmer::from_str("ccatcctatgtatc");
    assert_eq!(rc, checked, "{:?} {:?}", rc, checked);
}

#[test]
fn str_repr() {
    let seq = String::from("catagatacat");
    let seq_: String = Kmer::from_str("catagatacat").to_string();
    assert_eq!(seq, seq_);
}

#[test]
fn bin_repr() {
    let aaa = 0b000000;
    let aac = 0b010000;
    let acc = 0b010100;
    let ccc = 0b010101;
    let aaa_: u64 = Kmer::from_str("aaa").into();
    let aac_: u64 = Kmer::from_str("aac").into();
    let acc_: u64 = Kmer::from_str("acc").into();
    let ccc_: u64 = Kmer::from_str("ccc").into();

    assert_eq!(aaa, aaa_);
    assert_eq!(aac, aac_);
    assert_eq!(acc, acc_);
    assert_eq!(ccc, ccc_);
}

#[test]
fn aaa() {
    let x = Kmer::from_str("aaa");
    assert_eq!(x, Kmer::from_u64(0, 3));

    assert_eq!(x.data, 0);
    assert_eq!(x.k, 3);

    let repr: u64 = x.into();
    assert_eq!(repr, 0);

    for k in 1..33 {
        let x = Kmer::from_str(&"A".repeat(k));
        assert_eq!(x.data, 0);
        assert_eq!(x.k, k as u8);
    }
}

#[test]
fn test_eq() {
    assert_eq!(Kmer::from_str("aaa"), Kmer::from_str("AAA"));
    assert_eq!(Kmer::from_str("aCa"), Kmer::from_str("AcA"));

    assert_ne!(Kmer::from_str("a"), Kmer::from_str("aa"));
}

#[test]
fn not_too_long() {
    let _ = Kmer::from_str(&"a".repeat(32));
}

#[test]
fn test_encode_binary() {
    assert_eq!(encode_binary('A'), A);
    assert_eq!(encode_binary('a'), A);
    assert_eq!(encode_binary('C'), C);
    assert_eq!(encode_binary('c'), C);
    assert_eq!(encode_binary('G'), G);
    assert_eq!(encode_binary('g'), G);
    assert_eq!(encode_binary('T'), T);
    assert_eq!(encode_binary('t'), T);
}

#[test]
fn test_complement_base() {
    assert_eq!(complement_base(A), T);
    assert_eq!(complement_base(T), A);
    assert_eq!(complement_base(C), G);
    assert_eq!(complement_base(G), C);
}

#[test]
fn test_is_valid_nuc() {
    assert!(is_valid_nuc(0));
    assert!(is_valid_nuc(0));
    assert!(is_valid_nuc(0));
    assert!(is_valid_nuc(0));

    assert!(is_valid_nuc(A));
    assert!(is_valid_nuc(C));
    assert!(is_valid_nuc(G));
    assert!(is_valid_nuc(T));

    assert!(!is_valid_nuc(5));
    assert!(!is_valid_nuc(3112));
}

#[test]
fn test_sub_kmer() {
    let s = "ACTTGAT";
    let km = Kmer::from_str(s);

    for i in 0..s.len() {
        for j in i..s.len() {
            let w = j - i;
            let ss = &s[i..j];
            let kw = km.sub_kmer(i, w);
            assert_eq!(Kmer::from_str(ss), kw);
        }
    }
}

#[test]
fn test_hash() {
    let s = "ACTTGAT";
    let km = Kmer::from_str(s);

    let mut h1 = DefaultHasher::new();
    km.hash(&mut h1);
    let h1 = h1.finish();

    let mut h2 = DefaultHasher::new();
    km.data.hash(&mut h2);
    let h2 = h2.finish();

    assert_eq!(h1, h2);
}

#[test]
fn test_minimizer() {
    let s = "ACTTGAT";
    let km = Kmer::from_str(s);
    let seed = RandomState::new();

    for w in 1..s.len() {
        let (mm, o) = km.minimizer(w, &seed);
        let h_min = hash_one(&seed, &mm);

        for i in 0..(s.len() - w + 1) {
            let wmer = km.sub_kmer(i, w);
            let h_not = hash_one(&seed, &wmer);
            assert!(h_min <= h_not);
        }

        let wmer = Kmer::from_str(&s[o..(o + w)]);
        assert_eq!(wmer, mm);
    }
}

#[test]
fn test_canonical_minimizer() {
    let s = "ACTTGAT";
    let km = Kmer::from_str(s);
    let seed = RandomState::new();

    for w in 1..s.len() {
        let (mm, o, is_fw) = km.canonical_minimizer(w, &seed);
        let h_min = hash_one(&seed, &mm);

        for i in 0..(s.len() - w + 1) {
            let fw_wmer = km.sub_kmer(i, w);
            let rc_wmer = fw_wmer.to_reverse_complement();
            assert!(h_min <= hash_one(&seed, &fw_wmer));
            assert!(h_min <= hash_one(&seed, &rc_wmer));
        }

        let wmer = Kmer::from_str(&s[o..(o + w)]);
        if is_fw {
            assert_eq!(wmer, mm);
        } else {
            assert_eq!(wmer.to_reverse_complement(), mm);
        }
    }
}

#[test]
fn kmer_to_bytes() {
    let pref = 0b01001110;
    let s = bitmer_to_bytes(pref, 4);
    assert_eq!(b"GTAC".to_vec(), s);
}

#[test]
fn full_width_kmer_keeps_all_bases() {
    let s = "ACGTACGTACGTACGTACGTACGTACGTACGT";
    let km = Kmer::from_str(s);
    assert_eq!(Kmer::from_u64(km.data, 32), km);
    assert_eq!(km.sub_kmer(0, 32), km);
    assert_eq!(km.to_string(), s.to_lowercase());
    let rc = km.to_reverse_complement();
    assert_eq!(rc.to_string(), "acgtacgtacgtacgtacgtacgtacgtacgt");
}

#[test]
fn orientation_and_rc_word() {
    assert_eq!(Kmer::from_str("agatacataggatgg").orientation(), Orientation::IsCanonical);
    assert_eq!(Kmer::from_str("gatacataggatgg").orientation(), Orientation::NotCanononical);
    let w = Kmer::from_str("aat").data;
    assert_eq!(Kmer::get_reverse_complement_word(w, 3), Kmer::from_str("att").data);
}

#[test]
fn invalid_byte_sets_sentinel() {
    let km = Kmer::from_bytes(b"AN");
    assert_eq!(km.k, 2);
    assert_eq!(km.data, u64::MAX - 3);
}

#[test]
fn minimizer_with_lex_hash_picks_first_smallest() {
    let km = Kmer::from_str("CACACAC");
    let (mm, o) = km.minimizer(3, &LexHasherState::new(3));
    assert_eq!(o, 1);
    assert_eq!(mm, Kmer::from_str("ACA"));
    let (w, o2) = Kmer::minimizer_word(km.data, 7, 3, &LexHasherState::new(3));
    assert_eq!(w, Kmer::from_str("ACA").data);
    assert_eq!(o2, 1);
}
