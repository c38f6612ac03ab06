use std::collections::hash_map::RandomState;

use kmers::hash::LexHasherState;
use kmers::minimizers::{
    CanonicalMinimizerIter, CanonicalSuperKmerIterator, CanonicalSuperKmerOcc, MappedMinimizer,
    MinimizerIterLeftMin, MinimizerIterRightMin,
};
use kmers::seq_vector::SeqVector;

#[test]
fn leftmost_mmer() {
    let sv = SeqVector::from_bytes(b"AAAAAAA");
    let iter = MinimizerIterLeftMin::new(sv.as_slice(), 5, 3, RandomState::new());

    let mmers: Vec<MappedMinimizer> = iter.collect();

    assert_eq!(
        mmers,
        vec![
            MappedMinimizer::from_seq(b"AAA", 0),
            MappedMinimizer::from_seq(b"AAA", 1),
            MappedMinimizer::from_seq(b"AAA", 2),
        ]
    )
}

#[test]
fn rightmost_mmer() {
    let sv = SeqVector::from_bytes(b"AAAAAAA");
    let iter = MinimizerIterRightMin::new(sv.as_slice(), 5, 3, RandomState::new());

    let mmers: Vec<MappedMinimizer> = iter.collect();

    assert_eq!(
        mmers,
        vec![
            MappedMinimizer::from_seq(b"AAA", 2),
            MappedMinimizer::from_seq(b"AAA", 3),
            MappedMinimizer::from_seq(b"AAA", 4),
        ]
    )
}

#[test]
fn mmers0() {
    let sv = SeqVector::from_bytes(b"AAACAAA");
    let iter = MinimizerIterLeftMin::new(sv.as_slice(), 6, 3, LexHasherState::new(6));

    let mmers: Vec<MappedMinimizer> = iter.collect();

    assert_eq!(
        mmers,
        vec![MappedMinimizer::from_seq(b"AAA", 0), MappedMinimizer::from_seq(b"AAA", 4),]
    )
}

#[test]
fn mmers1() {
    let sv = SeqVector::from_bytes(b"AACCAAA");
    let iter = MinimizerIterLeftMin::new(sv.as_slice(), 5, 3, LexHasherState::new(5));
    let mmers: Vec<MappedMinimizer> = iter.collect();

    assert_eq!(
        mmers,
        vec![
            MappedMinimizer::from_seq(b"AAC", 0),
            MappedMinimizer::from_seq(b"ACC", 1),
            MappedMinimizer::from_seq(b"AAA", 4),
        ]
    )
}

#[test]
fn mmers2() {
    let sv = SeqVector::from_bytes(b"CACACACCAC");
    let bh = LexHasherState::new(3);
    let iter = MinimizerIterLeftMin::new(sv.as_slice(), 7, 3, bh);

    let mmers: Vec<MappedMinimizer> = iter.collect();

    assert_eq!(
        mmers,
        vec![
            MappedMinimizer::from_seq(b"ACA", 1),
            MappedMinimizer::from_seq(b"ACA", 1),
            MappedMinimizer::from_seq(b"ACA", 3),
            MappedMinimizer::from_seq(b"ACA", 3),
        ]
    )
}

#[test]
fn leftmost_on_canon() {
    let sv = SeqVector::from_bytes(b"AAAAAAA");
    let iter = CanonicalMinimizerIter::new(sv.as_slice(), 5, 3, RandomState::new());

    let mmers: Vec<MappedMinimizer> = iter.collect();

    assert_eq!(
        mmers,
        vec![
            MappedMinimizer::from_seq(b"AAA", 0),
            MappedMinimizer::from_seq(b"AAA", 1),
            MappedMinimizer::from_seq(b"AAA", 2),
        ]
    )
}

#[test]
fn rightmost_on_rc() {
    let sv = SeqVector::from_bytes(b"TTTTTTT");
    let iter = CanonicalMinimizerIter::new(sv.as_slice(), 5, 3, RandomState::new());

    let mmers: Vec<MappedMinimizer> = iter.collect();

    assert_eq!(
        mmers,
        vec![
            MappedMinimizer::from_seq(b"AAA", 2),
            MappedMinimizer::from_seq(b"AAA", 3),
            MappedMinimizer::from_seq(b"AAA", 4),
        ]
    )
}

#[test]
fn break_ties_on_canonical() {
    let (k, w) = (7, 3);
    let sv = SeqVector::from_bytes(b"TAAATTTC");
    let iter = CanonicalMinimizerIter::new(sv.as_slice(), k, w, LexHasherState::new(w));
    let mmers: Vec<MappedMinimizer> = iter.collect();

    assert_eq!(
        mmers,
        vec![MappedMinimizer::from_seq(b"AAA", 4), MappedMinimizer::from_seq(b"AAA", 1),]
    )
}

#[test]
fn super_kmers() {
    let (k, w) = (7, 3);
    let sv = SeqVector::from_bytes(b"AGGGAAAGAA");
    let iter = CanonicalSuperKmerIterator::new(sv.as_slice(), k, w, LexHasherState::new(w));
    let skms: Vec<CanonicalSuperKmerOcc> = iter.collect();

    assert_eq!(skms.len(), 3);

    assert_eq!(
        skms[0],
        CanonicalSuperKmerOcc::from_parts(MappedMinimizer::from_seq(b"AAA", 4), 0, 1)
    );

    assert_eq!(
        skms[1],
        CanonicalSuperKmerOcc::from_parts(MappedMinimizer::from_seq(b"CCC", 1), 1, 1)
    );

    assert_eq!(
        skms[2],
        CanonicalSuperKmerOcc::from_parts(MappedMinimizer::from_seq(b"AAA", 4), 2, 2)
    )
}

#[test]
fn super_kmers2() {
    let (k, w) = (5, 3);
    let sv = SeqVector::from_bytes(b"GGCTTA");
    let iter = CanonicalSuperKmerIterator::new(sv.as_slice(), k, w, LexHasherState::new(w));
    let skms: Vec<CanonicalSuperKmerOcc> = iter.collect();

    assert_eq!(skms.len(), 2);

    assert_eq!(
        skms[0],
        CanonicalSuperKmerOcc::from_parts(MappedMinimizer::from_seq(b"aag", 2), 0, 1)
    );

    assert_eq!(
        skms[1],
        CanonicalSuperKmerOcc::from_parts(MappedMinimizer::from_seq(b"CTT", 2), 1, 1)
    );
}

#[test]
fn minimizer_is_window_minimum() {
    let s = b"GATTACAGGCTTACGATCGATCGGATCCATGAAATTTCCCGGG";
    let (k, w) = (9, 4);
    let sv = SeqVector::from_bytes(s);
    let hasher = LexHasherState::new(w);
    let mmers = MinimizerIterLeftMin::new(sv.as_slice(), k, w, hasher).collect();
    assert_eq!(mmers.len(), s.len() - k + 1);
    for (i, m) in mmers.iter().enumerate() {
        let word_at = |p: usize| kmers::kmer::Kmer::from_bytes(&s[p..p + w]);
        let h = |p: usize| kmers::hash::hash_one(&hasher, &word_at(p));
        assert!(i <= m.pos && m.pos <= i + k - w);
        assert_eq!(m.word, word_at(m.pos).data);
        for p in i..=(i + k - w) {
            assert!(h(m.pos) <= h(p));
            if p < m.pos {
                assert!(h(p) > h(m.pos));
            }
        }
    }
}

#[test]
fn super_kmers_tile_all_windows() {
    let s = b"GATTACAGGCTTACGATCGATCGGATCCATGAAATTTCCCGGGAAAAAAAAAAAAAAAAAAAAAAAAAAAAAAAAAAAA";
    let (k, w) = (11, 5);
    let sv = SeqVector::from_bytes(s);
    let occs = CanonicalSuperKmerIterator::new(sv.as_slice(), k, w, LexHasherState::new(w)).collect();
    let mut next_start = 0;
    let mut total = 0;
    for o in &occs {
        assert_eq!(o.start_pos(), next_start);
        assert!(o.n_kmers() >= 1);
        next_start += o.n_kmers();
        total += o.n_kmers();
    }
    assert_eq!(total, s.len() - k + 1);
}

#[test]
fn occurrence_moves() {
    let mut o = CanonicalSuperKmerOcc::from_parts(MappedMinimizer::from_parts(7, 12), 10, 3);
    assert_eq!(o.mmer_offset(), 2);
    o.inc_pos(5);
    assert_eq!((o.start_pos(), o.mmer_pos(), o.mmer_word(), o.n_kmers()), (15, 17, 7, 3));
    o.dec_pos(15);
    assert_eq!((o.start_pos(), o.mmer_pos()), (0, 2));
}

#[test]
fn width_equal_to_k_gives_each_window() {
    let s = b"ACGTTGCA";
    let sv = SeqVector::from_bytes(s);
    let mmers = MinimizerIterLeftMin::new(sv.as_slice(), 4, 4, LexHasherState::new(4)).collect();
    assert_eq!(mmers.len(), 5);
    for (i, m) in mmers.iter().enumerate() {
        assert_eq!(m.pos, i);
        assert_eq!(m.word, kmers::kmer::Kmer::from_bytes(&s[i..i + 4]).data);
    }
}

#[test]
fn canonical_minimizers_follow_strand() {
    let s = b"GGCTTA";
    let sv = SeqVector::from_bytes(s);
    let mmers = CanonicalMinimizerIter::new(sv.as_slice(), 5, 3, LexHasherState::new(3)).collect();
    assert_eq!(mmers, vec![MappedMinimizer::from_seq(b"aag", 2), MappedMinimizer::from_seq(b"CTT", 2)]);
}
