use kmers::canonical_kmer::CanonicalKmer;
use kmers::canonical_kmer_iterator::CanonicalKmerIterator;

#[test]
fn test_iter_init() {
    let r = b"TTTTGGCCATTTTTCCTGTTCTTCAAGAAAACAGGAGATAACTAGAAGGACTAGAGAATGGGGCTGCCAGAACTAGTGGGAAGCTCCCTAGAAATGGTGACATCGCCCACCAAACAGACC";

    let k = 31u8;
    let fk = CanonicalKmer::from_bytes(&r[0..31]);

    let ck_iter = CanonicalKmerIterator::from_u8_slice(&r[..], k);

    assert_eq!(fk, ck_iter.get().km);
    assert_eq!(0, ck_iter.get().pos);
}

#[test]
fn test_iter_inc() {
    let r = b"TTTTGGCCATTTTTCCTGTTCTTCAAGAAAACAGGAGATAACTAGAAGGACTAGAGAATGGGGCTGCCAGAACTAGTGGGAAGCTCCCTAGAAATGGTGACATCGCCCACCAAACAGACC";

    let k = 31u8;
    let fk = CanonicalKmer::from_bytes(&r[1..32]);

    let mut ck_iter = CanonicalKmerIterator::from_u8_slice(&r[..], k);
    ck_iter.inc();

    assert_eq!(fk, ck_iter.get().km);
    assert_eq!(1, ck_iter.get().pos);
}

#[test]
fn test_iter_inc_by() {
    let r = b"TTTTGGCCATTTTTCCTGTTCTTCAAGAAAACAGGAGATAACTAGAAGGACTAGAGAATGGGGCTGCCAGAACTAGTGGGAAGCTCCCTAGAAATGGTGACATCGCCCACCAAACAGACC";

    let k = 31u8;
    let fk = CanonicalKmer::from_bytes(&r[10..41]);

    let mut ck_iter = CanonicalKmerIterator::from_u8_slice(&r[..], k);
    ck_iter.inc_by(10);

    assert_eq!(fk, ck_iter.get().km);
    assert_eq!(10, ck_iter.get().pos);
}

#[test]
fn test_iter_init_invalid() {
    let r = b"TTTTNGGCCATTTTTCCTGTTCTTCAAGAAAACAGGAGATAACTAGAAGGACTAGAGAATGGGGCTGCCAGAACTAGTGGGAAGCTCCCTAGAAATGGTGACATCGCCCACCAAACAGACC";

    let k = 31u8;
    let fk = CanonicalKmer::from_bytes(&r[5..36]);

    let ck_iter = CanonicalKmerIterator::from_u8_slice(&r[..], k);

    assert_eq!(fk, ck_iter.get().km);
    assert_eq!(5, ck_iter.get().pos);
}

#[test]
fn test_iter_inc_by_invalid() {
    let r = b"TTTTGGCCATTTTTCCTGTTCTTCAAGAAAACAGGNAGATAACTAGAAGGACTAGAGAATGGGGCTGCCAGAACTAGTGGGAAGCTCCCTAGAAATGGTGACATCGCCCACCAAACAGACC";

    let k = 31u8;
    let fk = CanonicalKmer::from_bytes(&r[36..67]);

    let mut ck_iter = CanonicalKmerIterator::from_u8_slice(&r[..], k);
    ck_iter.inc_by(5);

    assert_eq!(fk, ck_iter.get().km);
    assert_eq!(36, ck_iter.get().pos);
}

#[test]
fn test_exhausted_works() {
    let r = b"TTTTGGCCATTTTTCCTGTTCTTCAAGAAAACAGGAGATAACTAGAAGGACTAGAGAATGGGGCTGCCAGAACTAGTGGGAAGCTCCCTAGAAATGGTGACATCGCCCACCAAACAGACC";
    let sl = r.len();
    let k = 31u8;
    let mut ck_iter = CanonicalKmerIterator::from_u8_slice(&r[..], k);
    ck_iter.inc_by(20);

    assert!(!ck_iter.exhausted());

    ck_iter.inc_by(sl - 20);
    assert!(ck_iter.exhausted());

    ck_iter.inc();
    assert!(ck_iter.exhausted());
}

#[test]
fn no_valid_window_is_exhausted_at_once() {
    let r = b"ACGNACGNAC";
    let it = CanonicalKmerIterator::from_u8_slice(&r[..], 4);
    assert!(it.exhausted());
    let r = b"ACG";
    let it = CanonicalKmerIterator::from_u8_slice(&r[..], 4);
    assert!(it.exhausted());
}
