use kmers::checked::{encode_binary_checked, EncodeError};
use kmers::kmer::Kmer;

#[test]
fn checked_nuc_encoding() {
    let allowed = ['A', 'C', 'G', 'T', 'a', 'c', 'g', 't'];
    let expected_err = Err(EncodeError);
    for c in 0..(char::MAX as u8) {
        let c = c as char;
        if !allowed.contains(&c) {
            assert_eq!(expected_err, encode_binary_checked(c));
        }
    }

    let nucs: Vec<Result<u64, EncodeError>> =
        allowed.iter().map(|c| encode_binary_checked(*c)).collect();
    let codes: Vec<Result<u64, EncodeError>> = [0, 1, 2, 3, 0, 1, 2, 3].iter().map(|i| Ok(*i)).collect();
    assert_eq!(nucs, codes);
}

#[test]
fn checked_kmer_encoding() {
    let bytes = b"ANa";
    let kw = Kmer::from_bytes_checked(bytes);

    assert_eq!(kw, Err(EncodeError));

    let bytes = b"acgt";
    let km = Kmer::from_bytes(bytes);
    let kw = Kmer::from_bytes_checked(bytes).unwrap();

    assert_eq!(km, kw);
    assert_eq!(kw.len(), 4);
}
