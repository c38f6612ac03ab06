//! Sliding-window minimizers over a packed sequence, found with a monotonic
//! deque: plain, canonical (strand-aware), and grouped into super-k-mers.
use std::collections::VecDeque;
use std::marker::PhantomData;
use vstd::prelude::*;

use crate::base::{byte_codes, Base};
use crate::hash::WordHasher;
use crate::kmer::{encode_bases, lemma_decode_encode, revcomp, Kmer};
use crate::seq_vector::{SeqVector, SeqVectorSlice};

verus! {

/// The word of the `w` bases of `s` at `p`.
pub open spec fn wmer(s: Seq<Base>, p: int, w: nat) -> u64 {
    encode_bases(s.subrange(p, p + w))
}

/// A position before the winner loses to it: with the leftmost rule on a
/// strictly larger hash, with the rightmost rule on a hash at least as large.
pub open spec fn before_ok(h: u64, winner: u64, leftmost: bool) -> bool {
    if leftmost {
        h > winner
    } else {
        h >= winner
    }
}

/// A position after the winner loses to it: with the leftmost rule on a hash
/// at least as large, with the rightmost rule on a strictly larger hash.
pub open spec fn after_ok(h: u64, winner: u64, leftmost: bool) -> bool {
    if leftmost {
        h >= winner
    } else {
        h > winner
    }
}

/// `p` is the minimizer of the positions `[lo, hi)` under hashes `hs`: no
/// position has a smaller hash, and ties go to the leftmost (or rightmost) one.
pub open spec fn window_min(hs: Seq<u64>, lo: int, hi: int, p: int, leftmost: bool) -> bool {
    &&& lo <= p < hi
    &&& forall|t: int| lo <= t < p ==> before_ok(#[trigger] hs[t], hs[p], leftmost)
    &&& forall|t: int| p < t < hi ==> after_ok(#[trigger] hs[t], hs[p], leftmost)
}

/// A minimizer word and its position in the scanned sequence.
#[derive(PartialEq, Eq, Structural, Debug, Clone, Copy)]
pub struct MappedMinimizer {
    pub word: u64,
    pub pos: usize,
}

impl MappedMinimizer {
    pub fn as_u64(&self) -> (r: u64)
        ensures
            r == self.word,
    {
        self.word
    }

    pub fn pos(&self) -> (r: usize)
        ensures
            r == self.pos,
    {
        self.pos
    }

    pub fn from_parts(lmer: u64, pos: usize) -> (r: Self)
        ensures
            r.word == lmer,
            r.pos == pos,
    {
        Self { word: lmer, pos }
    }

    /// The minimizer of the k-mer of a nucleotide byte string.
    pub fn from_seq(seq: &[u8], pos: usize) -> (r: Self)
        requires
            seq@.len() <= 32,
        ensures
            r.word == encode_bases(byte_codes(seq@)),
            r.pos == pos,
    {
        let word = Kmer::from_bytes(seq).into_u64();
        Self { word, pos }
    }
}

/// How ties between equal hashes are broken.
pub trait TieBreak {
    /// Ties go to the leftmost position.
    spec fn spec_leftmost() -> bool;

    fn leftmost() -> (r: bool)
        ensures
            r == Self::spec_leftmost(),
    ;
}

/// Ties go to the smallest position.
#[derive(PartialEq, Eq, Structural, Debug, Clone, Copy)]
pub struct LeftMin;

/// Ties go to the largest position.
#[derive(PartialEq, Eq, Structural, Debug, Clone, Copy)]
pub struct RightMin;

impl TieBreak for LeftMin {
    open spec fn spec_leftmost() -> bool {
        true
    }

    fn leftmost() -> (r: bool) {
        true
    }
}

impl TieBreak for RightMin {
    open spec fn spec_leftmost() -> bool {
        false
    }

    fn leftmost() -> (r: bool) {
        false
    }
}

/// A candidate: a word, its hash and its position.
#[derive(PartialEq, Eq, Structural, Debug, Clone, Copy)]
pub struct HashedMinimizer {
    pub word: u64,
    pub hash: u64,
    pub pos: usize,
}

impl HashedMinimizer {
    pub fn new(word: u64, hash: u64, pos: usize) -> (r: Self)
        ensures
            r == (HashedMinimizer { word, hash, pos }),
    {
        Self { word, hash, pos }
    }

    pub fn to_mapped_minimizer(&self) -> (r: MappedMinimizer)
        ensures
            r.word == self.word,
            r.pos == self.pos,
    {
        MappedMinimizer { word: self.word, pos: self.pos }
    }
}

/// The monotonic-deque invariant: `q` holds, in increasing position, the
/// candidates among the positions `[lo, hs.len())` that no later position
/// beats, and every other position of that range loses to a later candidate.
pub open spec fn queue_inv(
    q: Seq<HashedMinimizer>,
    hs: Seq<u64>,
    ws: Seq<u64>,
    lo: int,
    leftmost: bool,
) -> bool {
    let m = hs.len() as int;
    &&& candidates_inv(q, hs, ws, lo, leftmost)
    &&& q.len() == 0 ==> lo == m
    &&& q.len() > 0 ==> q[q.len() - 1].pos == m - 1
}

/// `queue_inv` but for the last candidate being the last position.
pub open spec fn candidates_inv(
    q: Seq<HashedMinimizer>,
    hs: Seq<u64>,
    ws: Seq<u64>,
    lo: int,
    leftmost: bool,
) -> bool {
    let m = hs.len() as int;
    &&& ws.len() == m
    &&& 0 <= lo <= m
    &&& forall|j: int|
        0 <= j < q.len() ==> lo <= #[trigger] q[j].pos < m && q[j].hash == hs[q[j].pos as int]
            && q[j].word == ws[q[j].pos as int]
    &&& forall|j1: int, j2: int| 0 <= j1 < j2 < q.len() ==> q[j1].pos < q[j2].pos
    &&& forall|j: int, t: int|
        0 <= j < q.len() && q[j].pos < t < m ==> after_ok(#[trigger] hs[t], #[trigger] q[j].hash, leftmost)
    &&& q.len() > 0 ==> forall|t: int| lo <= t < q[0].pos ==> before_ok(#[trigger] hs[t], q[0].hash, leftmost)
    &&& forall|j: int, t: int|
        1 <= j < q.len() && q[j - 1].pos < t < q[j].pos ==> before_ok(
            #[trigger] hs[t],
            #[trigger] q[j].hash,
            leftmost,
        )
}

/// The candidates of a sliding window, smallest first.
pub struct HashedMinimizerQueue<T: TieBreak> {
    q: VecDeque<HashedMinimizer>,
    hashes: Ghost<Seq<u64>>,
    words: Ghost<Seq<u64>>,
    lo: Ghost<int>,
    order: PhantomData<T>,
}

impl<T: TieBreak> HashedMinimizerQueue<T> {
    /// The hashes of all positions eaten so far.
    pub closed spec fn spec_hashes(&self) -> Seq<u64> {
        self.hashes@
    }

    /// The words of all positions eaten so far.
    pub closed spec fn spec_words(&self) -> Seq<u64> {
        self.words@
    }

    /// The low end of the current window.
    pub closed spec fn spec_lo(&self) -> int {
        self.lo@
    }

    pub closed spec fn spec_entries(&self) -> Seq<HashedMinimizer> {
        self.q@
    }

    pub closed spec fn wf(&self) -> bool {
        queue_inv(self.q@, self.hashes@, self.words@, self.lo@, T::spec_leftmost())
    }

    /// An empty queue.
    pub fn with_capacity(capacity: usize) -> (r: Self)
        ensures
            r.wf(),
            r.spec_hashes() == Seq::<u64>::empty(),
            r.spec_words() == Seq::<u64>::empty(),
            r.spec_lo() == 0,
    {
        Self {
            q: VecDeque::with_capacity(capacity),
            hashes: Ghost(Seq::empty()),
            words: Ghost(Seq::empty()),
            lo: Ghost(0),
            order: PhantomData,
        }
    }

    /// The best candidate of the window, if any position was eaten.
    pub fn front(&self) -> (r: Option<&HashedMinimizer>)
        requires
            self.wf(),
        ensures
            self.spec_hashes().len() > self.spec_lo() ==> (r matches Some(e) && {
                &&& e.word == self.spec_words()[e.pos as int]
                &&& e.hash == self.spec_hashes()[e.pos as int]
                &&& window_min(
                    self.spec_hashes(),
                    self.spec_lo(),
                    self.spec_hashes().len() as int,
                    e.pos as int,
                    T::spec_leftmost(),
                )
            }),
    {
        if self.q.len() == 0 {
            None
        } else {
            Some(&self.q[0])
        }
    }

    /// Eats the next position and moves the window's low end to `min_pos`.
    pub fn eat(&mut self, mmer: HashedMinimizer, min_pos: usize)
        requires
            old(self).wf(),
            mmer.pos == old(self).spec_hashes().len(),
            old(self).spec_lo() <= min_pos <= old(self).spec_lo() + 1,
            min_pos <= mmer.pos,
        ensures
            final(self).wf(),
            final(self).spec_hashes() == old(self).spec_hashes().push(mmer.hash),
            final(self).spec_words() == old(self).spec_words().push(mmer.word),
            final(self).spec_lo() == min_pos,
            eat_update(
                old(self).spec_entries(),
                final(self).spec_entries(),
                mmer,
                min_pos as int,
                T::spec_leftmost(),
            ),
    {
        let ghost left = T::spec_leftmost();
        let ghost hs = self.hashes@;
        let ghost ws = self.words@;
        let ghost q0 = self.q@;
        if self.q.len() > 0 {
            if self.q[0].pos < min_pos {
                let _ = self.q.pop_front();
            }
        }
        proof {
            lemma_pop_front(q0, self.q@, hs, ws, self.lo@, min_pos as int, left);
            if q0.len() > 0 && q0[0].pos < min_pos {
                assert(self.q@ =~= q0.drop_first());
            }
        }
        let ghost q1 = self.q@;
        self.lo = Ghost(min_pos as int);
        let leftmost = T::leftmost();
        let h = mmer.hash;
        let mut done = false;
        while !done && self.q.len() > 0
            invariant
                left == T::spec_leftmost(),
                leftmost == left,
                self.hashes@ == hs,
                self.words@ == ws,
                self.lo@ == min_pos,
                mmer.pos == hs.len(),
                h == mmer.hash,
                candidates_inv(self.q@, hs, ws, min_pos as int, left),
                tail_loses(self.q@, hs, min_pos as int, h, left),
                done ==> self.q@.len() > 0 && after_ok(h, self.q@[self.q@.len() - 1].hash, left),
                self.q@.len() <= q1.len(),
                self.q@ == q1.subrange(0, self.q@.len() as int),
                forall|j: int| self.q@.len() <= j < q1.len() ==> !after_ok(h, #[trigger] q1[j].hash, left),
            decreases self.q@.len() + (if done {
                0int
            } else {
                1int
            }),
        {
            let back = self.q[self.q.len() - 1];
            let beaten = if leftmost {
                h < back.hash
            } else {
                h <= back.hash
            };
            if beaten {
                let ghost qa = self.q@;
                let _ = self.q.pop_back();
                proof {
                    lemma_pop_back(qa, hs, ws, min_pos as int, h, left);
                    assert(self.q@ =~= qa.drop_last());
                    assert(self.q@ =~= q1.subrange(0, self.q@.len() as int));
                    assert(q1[self.q@.len() as int] == qa[qa.len() - 1]);
                }
            } else {
                done = true;
            }
        }
        let ghost qb = self.q@;
        self.q.push_back(mmer);
        self.hashes = Ghost(hs.push(h));
        self.words = Ghost(ws.push(mmer.word));
        proof {
            lemma_push(qb, hs, ws, min_pos as int, mmer, left);
            let c = qb.len() as int;
            assert(q1 == front_dropped(q0, min_pos as int));
            assert(self.q@ =~= q1.subrange(0, c).push(mmer));
            if c > 0 {
                assert(q1[c - 1] == qb[c - 1]);
            }
            assert(0 <= c <= q1.len() && self.q@ == q1.subrange(0, c).push(mmer) && (forall|j: int|
                c <= j < q1.len() ==> !after_ok(mmer.hash, #[trigger] q1[j].hash, left)) && (c > 0
                ==> after_ok(mmer.hash, q1[c - 1].hash, left)));
            assert(old(self).spec_entries() == q0);
            assert(self.spec_entries() == self.q@);
            assert(left == T::spec_leftmost());
            let q1s = front_dropped(old(self).spec_entries(), min_pos as int);
            assert(q1s == q1);
            assert(self.spec_entries() == q1s.subrange(0, c).push(mmer));
            reveal(eat_update);
        }
    }
}

/// The entry-level step of `eat`: drop the front candidate when it falls
/// below `min_pos`, drop the longest run of candidates at the back that the
/// new one beats, then push the new one.
#[verifier::opaque]
pub open spec fn eat_update(
    q0: Seq<HashedMinimizer>,
    q: Seq<HashedMinimizer>,
    mmer: HashedMinimizer,
    min_pos: int,
    leftmost: bool,
) -> bool {
    let q1 = front_dropped(q0, min_pos);
    exists|c: int|
        0 <= c <= q1.len() && q == #[trigger] q1.subrange(0, c).push(mmer) && (forall|j: int|
            c <= j < q1.len() ==> !after_ok(mmer.hash, #[trigger] q1[j].hash, leftmost)) && (c > 0
            ==> after_ok(mmer.hash, q1[c - 1].hash, leftmost))
}

/// The candidates left once the front one falls below `min_pos`.
pub open spec fn front_dropped(q: Seq<HashedMinimizer>, min_pos: int) -> Seq<HashedMinimizer> {
    if q.len() > 0 && q[0].pos < min_pos {
        q.drop_first()
    } else {
        q
    }
}

/// The positions after the last candidate (or from `lo` when there is none)
/// all lose to a candidate of hash `h` that comes after them.
pub open spec fn tail_loses(q: Seq<HashedMinimizer>, hs: Seq<u64>, lo: int, h: u64, leftmost: bool) -> bool {
    let from = if q.len() > 0 {
        q[q.len() - 1].pos + 1
    } else {
        lo
    };
    forall|t: int| from <= t < hs.len() ==> before_ok(#[trigger] hs[t], h, leftmost)
}

proof fn lemma_pop_front(
    q: Seq<HashedMinimizer>,
    q2: Seq<HashedMinimizer>,
    hs: Seq<u64>,
    ws: Seq<u64>,
    lo: int,
    min_pos: int,
    left: bool,
)
    requires
        queue_inv(q, hs, ws, lo, left),
        lo <= min_pos <= lo + 1,
        min_pos <= hs.len(),
        q2 == (if q.len() > 0 && q[0].pos < min_pos {
            q.subrange(1, q.len() as int)
        } else {
            q
        }),
    ensures
        queue_inv(q2, hs, ws, min_pos, left),
{
    if q.len() > 0 && q[0].pos < min_pos {
        assert(q[0].pos == lo);
        if q2.len() > 0 {
            assert(q2[0] == q[1]);
            assert forall|t: int| min_pos <= t < q2[0].pos implies before_ok(
                #[trigger] hs[t],
                q2[0].hash,
                left,
            ) by {
                assert(q[0].pos < t < q[1].pos);
            }
        }
        assert forall|j: int| 0 <= j < q2.len() implies min_pos <= #[trigger] q2[j].pos by {
            assert(q2[j] == q[j + 1]);
            assert(q[0].pos < q[j + 1].pos);
        }
        assert forall|j: int, t: int| 0 <= j < q2.len() && q2[j].pos < t < hs.len() implies after_ok(
            #[trigger] hs[t],
            #[trigger] q2[j].hash,
            left,
        ) by {
            assert(q2[j] == q[j + 1]);
        }
        assert forall|j: int, t: int| 1 <= j < q2.len() && q2[j - 1].pos < t < q2[j].pos implies before_ok(
            #[trigger] hs[t],
            #[trigger] q2[j].hash,
            left,
        ) by {
            assert(q2[j] == q[j + 1]);
            assert(q2[j - 1] == q[j]);
        }
        assert forall|j1: int, j2: int| 0 <= j1 < j2 < q2.len() implies q2[j1].pos < q2[j2].pos by {
            assert(q2[j1] == q[j1 + 1]);
            assert(q2[j2] == q[j2 + 1]);
        }
        if q2.len() == 0 {
            assert(q.len() == 1);
            assert(q[0].pos == hs.len() - 1);
        }
    } else if q.len() > 0 {
        assert forall|t: int| min_pos <= t < q[0].pos implies before_ok(#[trigger] hs[t], q[0].hash, left) by {}
    }
}

proof fn lemma_pop_back(q: Seq<HashedMinimizer>, hs: Seq<u64>, ws: Seq<u64>, lo: int, h: u64, left: bool)
    requires
        candidates_inv(q, hs, ws, lo, left),
        tail_loses(q, hs, lo, h, left),
        q.len() > 0,
        !after_ok(h, q[q.len() - 1].hash, left),
    ensures
        candidates_inv(q.drop_last(), hs, ws, lo, left),
        tail_loses(q.drop_last(), hs, lo, h, left),
{
    let q2 = q.drop_last();
    let back = q[q.len() - 1];
    assert(before_ok(back.hash, h, left));
    let from = if q2.len() > 0 {
        q2[q2.len() - 1].pos + 1
    } else {
        lo
    };
    assert forall|t: int| from <= t < hs.len() implies before_ok(#[trigger] hs[t], h, left) by {
        if t < back.pos {
            if q2.len() > 0 {
                assert(q[q.len() - 2].pos < t < q[q.len() - 1].pos);
                assert(before_ok(hs[t], q[q.len() - 1].hash, left));
            } else {
                assert(before_ok(hs[t], q[0].hash, left));
            }
        } else if t == back.pos {
            assert(hs[t] == back.hash);
        }
    }
    assert forall|j: int, t: int| 1 <= j < q2.len() && q2[j - 1].pos < t < q2[j].pos implies before_ok(
        #[trigger] hs[t],
        #[trigger] q2[j].hash,
        left,
    ) by {
        assert(q2[j - 1] == q[j - 1] && q2[j] == q[j]);
    }
    assert forall|j: int, t: int| 0 <= j < q2.len() && q2[j].pos < t < hs.len() implies after_ok(
        #[trigger] hs[t],
        #[trigger] q2[j].hash,
        left,
    ) by {
        assert(q2[j] == q[j]);
    }
}

proof fn lemma_push(
    q: Seq<HashedMinimizer>,
    hs: Seq<u64>,
    ws: Seq<u64>,
    lo: int,
    x: HashedMinimizer,
    left: bool,
)
    requires
        candidates_inv(q, hs, ws, lo, left),
        tail_loses(q, hs, lo, x.hash, left),
        x.pos == hs.len(),
        q.len() > 0 ==> after_ok(x.hash, q[q.len() - 1].hash, left),
    ensures
        queue_inv(q.push(x), hs.push(x.hash), ws.push(x.word), lo, left),
{
    let q2 = q.push(x);
    let hs2 = hs.push(x.hash);
    let ws2 = ws.push(x.word);
    let m = hs.len() as int;
    assert forall|j: int| 0 <= j < q2.len() implies lo <= #[trigger] q2[j].pos < m + 1 && q2[j].hash
        == hs2[q2[j].pos as int] && q2[j].word == ws2[q2[j].pos as int] by {
        if j < q.len() {
            assert(q2[j] == q[j]);
        }
    }
    assert forall|j: int, t: int| 0 <= j < q2.len() && q2[j].pos < t < m + 1 implies after_ok(
        #[trigger] hs2[t],
        #[trigger] q2[j].hash,
        left,
    ) by {
        if j < q.len() {
            assert(q2[j] == q[j]);
            if t < m {
                assert(hs2[t] == hs[t]);
            } else {
                let last = q[q.len() - 1];
                if j < q.len() - 1 {
                    assert(q[j].pos < last.pos);
                    assert(after_ok(hs[last.pos as int], q[j].hash, left));
                }
            }
        }
    }
    assert forall|j1: int, j2: int| 0 <= j1 < j2 < q2.len() implies q2[j1].pos < q2[j2].pos by {
        if j2 < q.len() {
            assert(q2[j1] == q[j1] && q2[j2] == q[j2]);
        } else {
            assert(q2[j1] == q[j1]);
        }
    }
    assert forall|t: int| lo <= t < q2[0].pos implies before_ok(#[trigger] hs2[t], q2[0].hash, left) by {
        assert(hs2[t] == hs[t]);
        if q.len() > 0 {
            assert(q2[0] == q[0]);
        }
    }
    assert forall|j: int, t: int| 1 <= j < q2.len() && q2[j - 1].pos < t < q2[j].pos implies before_ok(
        #[trigger] hs2[t],
        #[trigger] q2[j].hash,
        left,
    ) by {
        assert(hs2[t] == hs[t]);
        assert(q2[j - 1] == q[j - 1]);
        if j < q.len() {
            assert(q2[j] == q[j]);
        }
    }
}

/// The word of the reverse complement of the `w` bases of `s` at `p`.
pub open spec fn rc_wmer(s: Seq<Base>, p: int, w: nat) -> u64 {
    encode_bases(revcomp(s.subrange(p, p + w)))
}

/// The k-mer of the window of `k` bases at `i` is its own canonical form.
pub open spec fn window_is_canonical(s: Seq<Base>, i: int, k: nat) -> bool {
    encode_bases(s.subrange(i, i + k)) <= encode_bases(revcomp(s.subrange(i, i + k)))
}

/// The hashes of every `w`-mer of `s` under a hasher whose values are known.
pub open spec fn wmer_hashes<H: WordHasher>(state: H, s: Seq<Base>, w: nat) -> Seq<u64> {
    Seq::new((s.len() - w + 1) as nat, |p: int| state.spec_hash(wmer(s, p, w)))
}

/// The hashes of the reverse complement of every `w`-mer of `s`.
pub open spec fn rc_wmer_hashes<H: WordHasher>(state: H, s: Seq<Base>, w: nat) -> Seq<u64> {
    Seq::new((s.len() - w + 1) as nat, |p: int| state.spec_hash(rc_wmer(s, p, w)))
}

proof fn lemma_window_min_prefix(hs1: Seq<u64>, hs2: Seq<u64>, lo: int, hi: int, p: int, left: bool)
    requires
        window_min(hs1, lo, hi, p, left),
        hi <= hs1.len(),
        hi <= hs2.len(),
        forall|t: int| 0 <= t < hi ==> hs1[t] == hs2[t],
        0 <= lo,
    ensures
        window_min(hs2, lo, hi, p, left),
{
    assert forall|t: int| lo <= t < p implies before_ok(#[trigger] hs2[t], hs2[p], left) by {
        assert(before_ok(hs1[t], hs1[p], left));
    }
    assert forall|t: int| p < t < hi implies after_ok(#[trigger] hs2[t], hs2[p], left) by {
        assert(after_ok(hs1[t], hs1[p], left));
    }
}

/// The minimizers of the k-mer windows of a slice, one per window.
pub struct MinimizerIter<'a, H: WordHasher, T: TieBreak> {
    q: HashedMinimizerQueue<T>,
    k: usize,
    w: usize,
    curr_km_i: usize,
    sv: SeqVectorSlice<'a>,
    hash_seed: H,
}

pub type MinimizerIterLeftMin<'a, H> = MinimizerIter<'a, H, LeftMin>;

pub type MinimizerIterRightMin<'a, H> = MinimizerIter<'a, H, RightMin>;

impl<'a, H: WordHasher, T: TieBreak> MinimizerIter<'a, H, T> {
    pub closed spec fn spec_seq(&self) -> Seq<Base> {
        self.sv@
    }

    pub closed spec fn spec_k(&self) -> nat {
        self.k as nat
    }

    pub closed spec fn spec_w(&self) -> nat {
        self.w as nat
    }

    /// The index of the next k-mer window.
    pub closed spec fn spec_pos(&self) -> int {
        self.curr_km_i as int
    }

    /// The hashes the hasher gave to the `w`-mers read so far, by position.
    pub closed spec fn spec_hashes(&self) -> Seq<u64> {
        self.q.spec_hashes()
    }

    pub closed spec fn spec_hasher(&self) -> H {
        self.hash_seed
    }

    pub closed spec fn wf(&self) -> bool {
        let m = self.curr_km_i + self.k - self.w;
        &&& self.sv.wf()
        &&& 1 <= self.w <= self.k <= 32
        &&& self.k <= self.sv@.len()
        &&& self.curr_km_i <= self.sv@.len() - self.k + 1
        &&& self.hash_seed.hash_ready()
        &&& self.q.wf()
        &&& self.q.spec_hashes().len() == m
        &&& self.q.spec_lo() == (if self.curr_km_i > 0 {
            self.curr_km_i - 1
        } else {
            0
        })
        &&& forall|p: int| 0 <= p < m ==> #[trigger] self.q.spec_words()[p] == wmer(self.sv@, p, self.w as nat)
        &&& self.hash_seed.hash_known() ==> forall|p: int|
            0 <= p < m ==> #[trigger] self.q.spec_hashes()[p] == self.hash_seed.spec_hash(
                wmer(self.sv@, p, self.w as nat),
            )
    }

    /// Under a hasher with known values, the hashes read so far are those values.
    pub proof fn lemma_known_hashes(&self)
        requires
            self.wf(),
            self.spec_hasher().hash_known(),
        ensures
            forall|t: int|
                0 <= t < self.spec_hashes().len() ==> #[trigger] self.spec_hashes()[t] == wmer_hashes(
                    self.spec_hasher(),
                    self.spec_seq(),
                    self.spec_w(),
                )[t],
            self.spec_hashes().len() == self.spec_pos() + self.spec_k() - self.spec_w(),
    {
    }

    fn get_mmer(&self, pos: usize) -> (r: HashedMinimizer)
        requires
            self.sv.wf(),
            self.hash_seed.hash_ready(),
            1 <= self.w <= 32,
            pos + self.w <= self.sv@.len(),
        ensures
            r.pos == pos,
            r.word == wmer(self.sv@, pos as int, self.w as nat),
            self.hash_seed.hash_known() ==> r.hash == self.hash_seed.spec_hash(r.word),
    {
        let lmer = self.sv.get_kmer_u64(pos, self.w);
        let hash = self.hash_seed.hash_word(lmer);
        HashedMinimizer::new(lmer, hash, pos)
    }

    /// An iterator at the first window; the `w`-mers of its first `k - w`
    /// positions are already read.
    pub fn new(sv: SeqVectorSlice<'a>, k: usize, w: usize, hash_seed: H) -> (r: Self)
        requires
            sv.wf(),
            1 <= w <= k <= 32,
            k <= sv@.len(),
            hash_seed.hash_ready(),
        ensures
            r.wf(),
            r.spec_seq() == sv@,
            r.spec_k() == k,
            r.spec_w() == w,
            r.spec_pos() == 0,
            r.spec_hasher() == hash_seed,
    {
        let q = HashedMinimizerQueue::with_capacity(k - w + 1);
        let mut iter = Self { q, k, w, hash_seed, sv, curr_km_i: 0 };
        let mut i: usize = 0;
        while i < k - w
            invariant
                iter.sv == sv,
                iter.k == k,
                iter.w == w,
                iter.hash_seed == hash_seed,
                iter.curr_km_i == 0,
                sv.wf(),
                1 <= w <= k <= 32,
                k <= sv@.len(),
                hash_seed.hash_ready(),
                i <= k - w,
                iter.q.wf(),
                iter.q.spec_hashes().len() == i,
                iter.q.spec_lo() == 0,
                forall|p: int| 0 <= p < i ==> #[trigger] iter.q.spec_words()[p] == wmer(sv@, p, w as nat),
                hash_seed.hash_known() ==> forall|p: int|
                    0 <= p < i ==> #[trigger] iter.q.spec_hashes()[p] == hash_seed.spec_hash(
                        wmer(sv@, p, w as nat),
                    ),
            decreases k - w - i,
        {
            let mmer = iter.get_mmer(i);
            iter.q.eat(mmer, 0);
            i = i + 1;
        }
        iter
    }

    /// Reads the last `w`-mer of the current window.
    fn eat_next_mmer(&mut self)
        requires
            old(self).wf(),
            old(self).spec_pos() < old(self).spec_seq().len() - old(self).spec_k() + 1,
        ensures
            final(self).q.wf(),
            final(self).sv == old(self).sv,
            final(self).k == old(self).k,
            final(self).w == old(self).w,
            final(self).hash_seed == old(self).hash_seed,
            final(self).curr_km_i == old(self).curr_km_i,
            final(self).q.spec_lo() == old(self).curr_km_i,
            final(self).q.spec_hashes().len() == old(self).curr_km_i + old(self).k - old(self).w + 1,
            final(self).q.spec_hashes().subrange(0, old(self).q.spec_hashes().len() as int)
                == old(self).q.spec_hashes(),
            forall|p: int|
                0 <= p < final(self).q.spec_hashes().len() ==> #[trigger] final(self).q.spec_words()[p]
                    == wmer(final(self).sv@, p, final(self).w as nat),
            final(self).hash_seed.hash_known() ==> forall|p: int|
                0 <= p < final(self).q.spec_hashes().len() ==> #[trigger] final(self).q.spec_hashes()[p]
                    == final(self).hash_seed.spec_hash(wmer(final(self).sv@, p, final(self).w as nat)),
    {
        proof {
            self.sv.lemma_len_bound();
        }
        let pos = self.curr_km_i + self.k - self.w;
        let mmer = self.get_mmer(pos);
        let ghost old_hs = self.q.spec_hashes();
        self.q.eat(mmer, self.curr_km_i);
        proof {
            assert(self.q.spec_hashes().subrange(0, old_hs.len() as int) =~= old_hs);
        }
    }

    /// The minimizer of the next window, if any.
    pub fn next(&mut self) -> (r: Option<MappedMinimizer>)
        requires
            old(self).wf(),
        ensures
            final(self).wf(),
            final(self).spec_seq() == old(self).spec_seq(),
            final(self).spec_k() == old(self).spec_k(),
            final(self).spec_w() == old(self).spec_w(),
            final(self).spec_hasher() == old(self).spec_hasher(),
            final(self).spec_hashes().subrange(0, old(self).spec_hashes().len() as int)
                == old(self).spec_hashes(),
            ({
                let s = old(self).spec_seq();
                let i = old(self).spec_pos();
                let k = old(self).spec_k();
                let w = old(self).spec_w();
                &&& i < s.len() - k + 1 ==> (r matches Some(mm) && {
                    &&& final(self).spec_pos() == i + 1
                    &&& mm.word == wmer(s, mm.pos as int, w)
                    &&& window_min(final(self).spec_hashes(), i, i + k - w + 1, mm.pos as int, T::spec_leftmost())
                    &&& final(self).spec_hasher().hash_known() ==> window_min(
                        wmer_hashes(final(self).spec_hasher(), s, w),
                        i,
                        i + k - w + 1,
                        mm.pos as int,
                        T::spec_leftmost(),
                    )
                })
                &&& i >= s.len() - k + 1 ==> r is None && final(self).spec_pos() == i
                    && final(self).spec_hashes() == old(self).spec_hashes()
            }),
    {
        if self.curr_km_i < self.sv.len() - self.k + 1 {
            self.eat_next_mmer();
            let front = self.q.front();
            match front {
                Some(e) => {
                    let mmer = e.to_mapped_minimizer();
                    self.curr_km_i = self.curr_km_i + 1;
                    proof {
                        let i = self.curr_km_i - 1;
                        let hi = i + self.k - self.w + 1;
                        if self.hash_seed.hash_known() {
                            let full = wmer_hashes(self.hash_seed, self.sv@, self.w as nat);
                            assert forall|t: int| 0 <= t < hi implies self.q.spec_hashes()[t] == full[t] by {}
                            lemma_window_min_prefix(
                                self.q.spec_hashes(),
                                full,
                                i,
                                hi,
                                mmer.pos as int,
                                T::spec_leftmost(),
                            );
                        }
                    }
                    Some(mmer)
                },
                None => {
                    proof {
                        assert(false);
                    }
                    None
                },
            }
        } else {
            proof {
                assert(self.spec_hashes().subrange(0, self.spec_hashes().len() as int) =~= self.spec_hashes());
            }
            None
        }
    }

    /// The minimizers of the remaining windows, in order.
    pub fn collect(self) -> (r: Vec<MappedMinimizer>)
        requires
            self.wf(),
        ensures
            ({
                let s = self.spec_seq();
                let i0 = self.spec_pos();
                let k = self.spec_k();
                let w = self.spec_w();
                &&& r@.len() == s.len() - k + 1 - i0
                &&& forall|j: int|
                    0 <= j < r@.len() ==> #[trigger] r@[j].word == wmer(s, r@[j].pos as int, w) && i0
                        + j <= r@[j].pos <= i0 + j + k - w
                &&& self.spec_hasher().hash_known() ==> forall|j: int|
                    0 <= j < r@.len() ==> window_min(
                        wmer_hashes(self.spec_hasher(), s, w),
                        i0 + j,
                        i0 + j + k - w + 1,
                        #[trigger] r@[j].pos as int,
                        T::spec_leftmost(),
                    )
            }),
    {
        let ghost s = self.spec_seq();
        let ghost i0 = self.spec_pos();
        let ghost k = self.spec_k();
        let ghost w = self.spec_w();
        let ghost hasher = self.spec_hasher();
        let mut it = self;
        let mut out: Vec<MappedMinimizer> = Vec::new();
        while it.curr_km_i < it.sv.len() - it.k + 1
            invariant
                it.wf(),
                it.spec_seq() == s,
                it.spec_k() == k,
                it.spec_w() == w,
                it.spec_hasher() == hasher,
                i0 <= it.spec_pos(),
                out@.len() == it.spec_pos() - i0,
                forall|j: int|
                    0 <= j < out@.len() ==> #[trigger] out@[j].word == wmer(s, out@[j].pos as int, w)
                        && i0 + j <= out@[j].pos <= i0 + j + k - w,
                hasher.hash_known() ==> forall|j: int|
                    0 <= j < out@.len() ==> window_min(
                        wmer_hashes(hasher, s, w),
                        i0 + j,
                        i0 + j + k - w + 1,
                        #[trigger] out@[j].pos as int,
                        T::spec_leftmost(),
                    ),
            decreases s.len() - k + 1 - it.spec_pos(),
        {
            let ghost i = it.spec_pos();
            let r = it.next();
            match r {
                Some(mm) => {
                    proof {
                        if hasher.hash_known() {
                            let hs = it.spec_hashes();
                            let full = wmer_hashes(hasher, s, w);
                            assert forall|t: int| 0 <= t < i + k - w + 1 implies hs[t] == full[t] by {}
                            lemma_window_min_prefix(hs, full, i, i + k - w + 1, mm.pos as int, T::spec_leftmost());
                        }
                    }
                    out.push(mm);
                },
                None => {},
            }
        }
        out
    }
}

impl SeqVector {
    /// The minimizers of the k-mer windows of the whole sequence, ties to the left.
    pub fn iter_minimizers<H: WordHasher>(&self, k: usize, w: usize, build_hasher: H) -> (r:
        MinimizerIter<'_, H, LeftMin>)
        requires
            self.wf(),
            1 <= w <= k <= 32,
            k <= self@.len(),
            build_hasher.hash_ready(),
        ensures
            r.wf(),
            r.spec_seq() == self@,
            r.spec_k() == k,
            r.spec_w() == w,
            r.spec_pos() == 0,
    {
        MinimizerIter::new(self.as_slice(), k, w, build_hasher)
    }
}

impl<'a> SeqVectorSlice<'a> {
    /// The minimizers of the k-mer windows of the slice, ties to the left.
    pub fn iter_minimizers<H: WordHasher>(&self, k: usize, w: usize, build_hasher: H) -> (r:
        MinimizerIter<'a, H, LeftMin>)
        requires
            self.wf(),
            1 <= w <= k <= 32,
            k <= self@.len(),
            build_hasher.hash_ready(),
        ensures
            r.wf(),
            r.spec_seq() == self@,
            r.spec_k() == k,
            r.spec_w() == w,
            r.spec_pos() == 0,
    {
        MinimizerIter::new(*self, k, w, build_hasher)
    }
}

/// `mm` is the canonical minimizer of window `i`: on a canonical window the
/// leftmost smallest forward `w`-mer, otherwise the rightmost smallest
/// reverse-complement `w`-mer, with `fwh` and `rch` their hashes.
pub open spec fn canonical_mmer_ok(
    s: Seq<Base>,
    k: nat,
    w: nat,
    fwh: Seq<u64>,
    rch: Seq<u64>,
    i: int,
    mm: MappedMinimizer,
) -> bool {
    &&& window_is_canonical(s, i, k) ==> mm.word == wmer(s, mm.pos as int, w) && window_min(
        fwh,
        i,
        i + k - w + 1,
        mm.pos as int,
        true,
    )
    &&& !window_is_canonical(s, i, k) ==> mm.word == rc_wmer(s, mm.pos as int, w) && window_min(
        rch,
        i,
        i + k - w + 1,
        mm.pos as int,
        false,
    )
}

proof fn lemma_canonical_ok_full(
    s: Seq<Base>,
    k: nat,
    w: nat,
    fwh: Seq<u64>,
    rch: Seq<u64>,
    full_f: Seq<u64>,
    full_r: Seq<u64>,
    i: int,
    mm: MappedMinimizer,
)
    requires
        canonical_mmer_ok(s, k, w, fwh, rch, i, mm),
        0 <= i,
        i + k - w + 1 <= fwh.len(),
        i + k - w + 1 <= rch.len(),
        i + k - w + 1 <= full_f.len(),
        i + k - w + 1 <= full_r.len(),
        forall|t: int| 0 <= t < i + k - w + 1 ==> fwh[t] == full_f[t] && rch[t] == full_r[t],
    ensures
        canonical_mmer_ok(s, k, w, full_f, full_r, i, mm),
{
    if window_is_canonical(s, i, k) {
        lemma_window_min_prefix(fwh, full_f, i, i + k - w + 1, mm.pos as int, true);
    } else {
        lemma_window_min_prefix(rch, full_r, i, i + k - w + 1, mm.pos as int, false);
    }
}

/// The canonical minimizers of the k-mer windows of a slice.
pub struct CanonicalMinimizerIter<'a, H: WordHasher> {
    fwq: HashedMinimizerQueue<LeftMin>,
    rcq: HashedMinimizerQueue<RightMin>,
    k: usize,
    w: usize,
    curr_km_i: usize,
    sv: SeqVectorSlice<'a>,
    hash_seed: H,
}

impl<'a, H: WordHasher> CanonicalMinimizerIter<'a, H> {
    pub closed spec fn spec_seq(&self) -> Seq<Base> {
        self.sv@
    }

    pub closed spec fn spec_k(&self) -> nat {
        self.k as nat
    }

    pub closed spec fn spec_w(&self) -> nat {
        self.w as nat
    }

    /// The index of the next k-mer window.
    pub closed spec fn spec_pos(&self) -> int {
        self.curr_km_i as int
    }

    /// The hashes given to the forward `w`-mers read so far.
    pub closed spec fn spec_fw_hashes(&self) -> Seq<u64> {
        self.fwq.spec_hashes()
    }

    /// The hashes given to the reverse complements of the `w`-mers read so far.
    pub closed spec fn spec_rc_hashes(&self) -> Seq<u64> {
        self.rcq.spec_hashes()
    }

    pub closed spec fn spec_hasher(&self) -> H {
        self.hash_seed
    }

    pub closed spec fn wf(&self) -> bool {
        let m = self.curr_km_i + self.k - self.w;
        &&& self.sv.wf()
        &&& 1 <= self.w <= self.k <= 32
        &&& self.k <= self.sv@.len()
        &&& self.curr_km_i <= self.sv@.len() - self.k + 1
        &&& self.hash_seed.hash_ready()
        &&& self.fwq.wf()
        &&& self.rcq.wf()
        &&& self.fwq.spec_hashes().len() == m
        &&& self.rcq.spec_hashes().len() == m
        &&& self.fwq.spec_lo() == (if self.curr_km_i > 0 {
            self.curr_km_i - 1
        } else {
            0
        })
        &&& self.rcq.spec_lo() == self.fwq.spec_lo()
        &&& forall|p: int| 0 <= p < m ==> #[trigger] self.fwq.spec_words()[p] == wmer(self.sv@, p, self.w as nat)
        &&& forall|p: int| 0 <= p < m ==> #[trigger] self.rcq.spec_words()[p] == rc_wmer(self.sv@, p, self.w as nat)
        &&& self.hash_seed.hash_known() ==> forall|p: int|
            0 <= p < m ==> #[trigger] self.fwq.spec_hashes()[p] == self.hash_seed.spec_hash(
                wmer(self.sv@, p, self.w as nat),
            )
        &&& self.hash_seed.hash_known() ==> forall|p: int|
            0 <= p < m ==> #[trigger] self.rcq.spec_hashes()[p] == self.hash_seed.spec_hash(
                rc_wmer(self.sv@, p, self.w as nat),
            )
    }

    fn get_mmer_pair(&self, pos: usize) -> (r: (HashedMinimizer, HashedMinimizer))
        requires
            self.sv.wf(),
            self.hash_seed.hash_ready(),
            1 <= self.w <= 32,
            pos + self.w <= self.sv@.len(),
        ensures
            r.0.pos == pos,
            r.1.pos == pos,
            r.0.word == wmer(self.sv@, pos as int, self.w as nat),
            r.1.word == rc_wmer(self.sv@, pos as int, self.w as nat),
            self.hash_seed.hash_known() ==> r.0.hash == self.hash_seed.spec_hash(r.0.word),
            self.hash_seed.hash_known() ==> r.1.hash == self.hash_seed.spec_hash(r.1.word),
    {
        let fw_mmer = self.sv.get_kmer(pos, self.w);
        let rc_mmer = fw_mmer.to_reverse_complement().into_u64();
        let fw_mmer = fw_mmer.into_u64();
        proof {
            lemma_decode_encode(fw_mmer, self.w as nat);
        }
        let fw_hash = self.hash_seed.hash_word(fw_mmer);
        let rc_hash = self.hash_seed.hash_word(rc_mmer);
        (HashedMinimizer::new(fw_mmer, fw_hash, pos), HashedMinimizer::new(rc_mmer, rc_hash, pos))
    }

    /// An iterator at the first window.
    pub fn new(sv: SeqVectorSlice<'a>, k: usize, w: usize, hash_seed: H) -> (r: Self)
        requires
            sv.wf(),
            1 <= w <= k <= 32,
            k <= sv@.len(),
            hash_seed.hash_ready(),
        ensures
            r.wf(),
            r.spec_seq() == sv@,
            r.spec_k() == k,
            r.spec_w() == w,
            r.spec_pos() == 0,
            r.spec_hasher() == hash_seed,
    {
        let fwq = HashedMinimizerQueue::with_capacity(k - w + 1);
        let rcq = HashedMinimizerQueue::with_capacity(k - w + 1);
        let mut iter = Self { fwq, rcq, k, w, hash_seed, sv, curr_km_i: 0 };
        let mut i: usize = 0;
        while i < k - w
            invariant
                iter.sv == sv,
                iter.k == k,
                iter.w == w,
                iter.hash_seed == hash_seed,
                iter.curr_km_i == 0,
                sv.wf(),
                1 <= w <= k <= 32,
                k <= sv@.len(),
                hash_seed.hash_ready(),
                i <= k - w,
                iter.fwq.wf(),
                iter.rcq.wf(),
                iter.fwq.spec_hashes().len() == i,
                iter.rcq.spec_hashes().len() == i,
                iter.fwq.spec_lo() == 0,
                iter.rcq.spec_lo() == 0,
                forall|p: int| 0 <= p < i ==> #[trigger] iter.fwq.spec_words()[p] == wmer(sv@, p, w as nat),
                forall|p: int| 0 <= p < i ==> #[trigger] iter.rcq.spec_words()[p] == rc_wmer(sv@, p, w as nat),
                hash_seed.hash_known() ==> forall|p: int|
                    0 <= p < i ==> #[trigger] iter.fwq.spec_hashes()[p] == hash_seed.spec_hash(
                        wmer(sv@, p, w as nat),
                    ),
                hash_seed.hash_known() ==> forall|p: int|
                    0 <= p < i ==> #[trigger] iter.rcq.spec_hashes()[p] == hash_seed.spec_hash(
                        rc_wmer(sv@, p, w as nat),
                    ),
            decreases k - w - i,
        {
            let (fw_mmer, rc_mmer) = iter.get_mmer_pair(i);
            iter.fwq.eat(fw_mmer, 0);
            iter.rcq.eat(rc_mmer, 0);
            i = i + 1;
        }
        iter
    }

    /// Reads the last forward and reverse-complement `w`-mers of the current window.
    #[verifier::rlimit(60)]
    fn eat_next_mmer_pair(&mut self)
        requires
            old(self).wf(),
            old(self).spec_pos() < old(self).spec_seq().len() - old(self).spec_k() + 1,
        ensures
            final(self).fwq.wf(),
            final(self).rcq.wf(),
            final(self).sv == old(self).sv,
            final(self).k == old(self).k,
            final(self).w == old(self).w,
            final(self).hash_seed == old(self).hash_seed,
            final(self).curr_km_i == old(self).curr_km_i,
            final(self).fwq.spec_lo() == old(self).curr_km_i,
            final(self).rcq.spec_lo() == old(self).curr_km_i,
            final(self).fwq.spec_hashes().len() == old(self).curr_km_i + old(self).k - old(self).w + 1,
            final(self).rcq.spec_hashes().len() == final(self).fwq.spec_hashes().len(),
            final(self).fwq.spec_hashes().subrange(0, old(self).fwq.spec_hashes().len() as int)
                == old(self).fwq.spec_hashes(),
            final(self).rcq.spec_hashes().subrange(0, old(self).rcq.spec_hashes().len() as int)
                == old(self).rcq.spec_hashes(),
            forall|p: int|
                0 <= p < final(self).fwq.spec_hashes().len() ==> #[trigger] final(self).fwq.spec_words()[p]
                    == wmer(final(self).sv@, p, final(self).w as nat),
            forall|p: int|
                0 <= p < final(self).rcq.spec_hashes().len() ==> #[trigger] final(self).rcq.spec_words()[p]
                    == rc_wmer(final(self).sv@, p, final(self).w as nat),
            final(self).hash_seed.hash_known() ==> forall|p: int|
                0 <= p < final(self).fwq.spec_hashes().len() ==> #[trigger] final(self).fwq.spec_hashes()[p]
                    == final(self).hash_seed.spec_hash(wmer(final(self).sv@, p, final(self).w as nat)),
            final(self).hash_seed.hash_known() ==> forall|p: int|
                0 <= p < final(self).rcq.spec_hashes().len() ==> #[trigger] final(self).rcq.spec_hashes()[p]
                    == final(self).hash_seed.spec_hash(rc_wmer(final(self).sv@, p, final(self).w as nat)),
    {
        proof {
            self.sv.lemma_len_bound();
        }
        let pos = self.curr_km_i + self.k - self.w;
        let (fw_mmer, rc_mmer) = self.get_mmer_pair(pos);
        let ghost old_fw = self.fwq.spec_hashes();
        let ghost old_rc = self.rcq.spec_hashes();
        self.fwq.eat(fw_mmer, self.curr_km_i);
        self.rcq.eat(rc_mmer, self.curr_km_i);
        proof {
            assert(self.fwq.spec_hashes().subrange(0, old_fw.len() as int) =~= old_fw);
            assert(self.rcq.spec_hashes().subrange(0, old_rc.len() as int) =~= old_rc);
        }
    }

    /// The canonical minimizer of the next window, if any.
    #[verifier::rlimit(60)]
    pub fn next(&mut self) -> (r: Option<MappedMinimizer>)
        requires
            old(self).wf(),
        ensures
            final(self).wf(),
            final(self).spec_seq() == old(self).spec_seq(),
            final(self).spec_k() == old(self).spec_k(),
            final(self).spec_w() == old(self).spec_w(),
            final(self).spec_hasher() == old(self).spec_hasher(),
            final(self).spec_fw_hashes().subrange(0, old(self).spec_fw_hashes().len() as int)
                == old(self).spec_fw_hashes(),
            final(self).spec_rc_hashes().subrange(0, old(self).spec_rc_hashes().len() as int)
                == old(self).spec_rc_hashes(),
            ({
                let s = old(self).spec_seq();
                let i = old(self).spec_pos();
                let k = old(self).spec_k();
                let w = old(self).spec_w();
                &&& i < s.len() - k + 1 ==> (r matches Some(mm) && {
                    &&& final(self).spec_pos() == i + 1
                    &&& canonical_mmer_ok(
                        s,
                        k,
                        w,
                        final(self).spec_fw_hashes(),
                        final(self).spec_rc_hashes(),
                        i,
                        mm,
                    )
                    &&& final(self).spec_hasher().hash_known() ==> canonical_mmer_ok(
                        s,
                        k,
                        w,
                        wmer_hashes(final(self).spec_hasher(), s, w),
                        rc_wmer_hashes(final(self).spec_hasher(), s, w),
                        i,
                        mm,
                    )
                })
                &&& i >= s.len() - k + 1 ==> r is None && final(self).spec_pos() == i
            }),
    {
        proof {
            self.sv.lemma_len_bound();
        }
        if self.curr_km_i < self.sv.len() - self.k + 1 {
            self.eat_next_mmer_pair();
            let km = self.sv.get_kmer(self.curr_km_i, self.k);
            proof {
                lemma_decode_encode(km.data, km.k as nat);
            }
            let canon = km.is_canonical();
            let mmer = if canon {
                match self.fwq.front() {
                    Some(e) => e.to_mapped_minimizer(),
                    None => {
                        proof {
                            assert(false);
                        }
                        MappedMinimizer { word: 0, pos: 0 }
                    },
                }
            } else {
                match self.rcq.front() {
                    Some(e) => e.to_mapped_minimizer(),
                    None => {
                        proof {
                            assert(false);
                        }
                        MappedMinimizer { word: 0, pos: 0 }
                    },
                }
            };
            self.curr_km_i = self.curr_km_i + 1;
            proof {
                let i = self.curr_km_i - 1;
                let s = self.sv@;
                let w = self.w as nat;
                assert(canonical_mmer_ok(
                    s,
                    self.k as nat,
                    w,
                    self.spec_fw_hashes(),
                    self.spec_rc_hashes(),
                    i,
                    mmer,
                ));
                if self.hash_seed.hash_known() {
                    self.lemma_known_hashes();
                    lemma_canonical_ok_full(
                        s,
                        self.k as nat,
                        w,
                        self.spec_fw_hashes(),
                        self.spec_rc_hashes(),
                        wmer_hashes(self.hash_seed, s, w),
                        rc_wmer_hashes(self.hash_seed, s, w),
                        i,
                        mmer,
                    );
                }
            }
            Some(mmer)
        } else {
            proof {
                assert(self.spec_fw_hashes().subrange(0, self.spec_fw_hashes().len() as int) =~= self.spec_fw_hashes());
                assert(self.spec_rc_hashes().subrange(0, self.spec_rc_hashes().len() as int) =~= self.spec_rc_hashes());
            }
            None
        }
    }
}

impl<'a, H: WordHasher> CanonicalMinimizerIter<'a, H> {
    /// What a well-formed iterator says of its hashes under a known hasher.
    pub proof fn lemma_known_hashes(&self)
        requires
            self.wf(),
            self.spec_hasher().hash_known(),
        ensures
            forall|t: int|
                0 <= t < self.spec_fw_hashes().len() ==> #[trigger] self.spec_fw_hashes()[t]
                    == wmer_hashes(self.spec_hasher(), self.spec_seq(), self.spec_w())[t],
            forall|t: int|
                0 <= t < self.spec_rc_hashes().len() ==> #[trigger] self.spec_rc_hashes()[t]
                    == rc_wmer_hashes(self.spec_hasher(), self.spec_seq(), self.spec_w())[t],
            self.spec_fw_hashes().len() == self.spec_pos() + self.spec_k() - self.spec_w(),
            self.spec_rc_hashes().len() == self.spec_fw_hashes().len(),
            self.spec_pos() + self.spec_k() - self.spec_w() <= self.spec_seq().len() - self.spec_w() + 1,
    {
    }

    /// The canonical minimizers of the remaining windows, in order.
    pub fn collect(self) -> (r: Vec<MappedMinimizer>)
        requires
            self.wf(),
        ensures
            ({
                let s = self.spec_seq();
                let i0 = self.spec_pos();
                let k = self.spec_k();
                let w = self.spec_w();
                let hasher = self.spec_hasher();
                &&& r@.len() == s.len() - k + 1 - i0
                &&& forall|j: int|
                    0 <= j < r@.len() ==> i0 + j <= #[trigger] r@[j].pos <= i0 + j + k - w
                &&& hasher.hash_known() ==> forall|j: int|
                    0 <= j < r@.len() ==> canonical_mmer_ok(
                        s,
                        k,
                        w,
                        wmer_hashes(hasher, s, w),
                        rc_wmer_hashes(hasher, s, w),
                        i0 + j,
                        #[trigger] r@[j],
                    )
            }),
    {
        let ghost s = self.spec_seq();
        let ghost i0 = self.spec_pos();
        let ghost k = self.spec_k();
        let ghost w = self.spec_w();
        let ghost hasher = self.spec_hasher();
        let mut it = self;
        let mut out: Vec<MappedMinimizer> = Vec::new();
        proof {
            it.sv.lemma_len_bound();
        }
        while it.curr_km_i < it.sv.len() - it.k + 1
            invariant
                it.wf(),
                it.spec_seq() == s,
                it.spec_k() == k,
                it.spec_w() == w,
                it.spec_hasher() == hasher,
                i0 <= it.spec_pos(),
                out@.len() == it.spec_pos() - i0,
                forall|j: int| 0 <= j < out@.len() ==> i0 + j <= #[trigger] out@[j].pos <= i0 + j + k - w,
                hasher.hash_known() ==> forall|j: int|
                    0 <= j < out@.len() ==> canonical_mmer_ok(
                        s,
                        k,
                        w,
                        wmer_hashes(hasher, s, w),
                        rc_wmer_hashes(hasher, s, w),
                        i0 + j,
                        #[trigger] out@[j],
                    ),
            decreases s.len() - k + 1 - it.spec_pos(),
        {
            let ghost i = it.spec_pos();
            let r = it.next();
            match r {
                Some(mm) => {
                    proof {
                        if window_is_canonical(s, i, k) {
                            assert(window_min(it.spec_fw_hashes(), i, i + k - w + 1, mm.pos as int, true));
                        } else {
                            assert(window_min(it.spec_rc_hashes(), i, i + k - w + 1, mm.pos as int, false));
                        }
                        if hasher.hash_known() {
                            it.lemma_known_hashes();
                            lemma_canonical_ok_full(
                                s,
                                k,
                                w,
                                it.spec_fw_hashes(),
                                it.spec_rc_hashes(),
                                wmer_hashes(hasher, s, w),
                                rc_wmer_hashes(hasher, s, w),
                                i,
                                mm,
                            );
                        }
                    }
                    out.push(mm);
                },
                None => {},
            }
        }
        out
    }
}

/// A run of consecutive k-mer windows `[start, start + n_kmers)` that share
/// one canonical minimizer.
#[derive(PartialEq, Eq, Structural, Debug, Clone, Copy)]
pub struct CanonicalSuperKmerOcc {
    pub mmer: MappedMinimizer,
    pub start: usize,
    pub n_kmers: u8,
}

impl CanonicalSuperKmerOcc {
    pub fn from_parts(mmer: MappedMinimizer, start: usize, n_kmers: u8) -> (r: Self)
        ensures
            r == (CanonicalSuperKmerOcc { mmer, start, n_kmers }),
    {
        Self { mmer, start, n_kmers }
    }

    /// Moves the run and its minimizer `offset` positions right.
    pub fn inc_pos(&mut self, offset: usize)
        requires
            old(self).mmer.pos + offset <= usize::MAX,
            old(self).start + offset <= usize::MAX,
        ensures
            final(self).mmer.word == old(self).mmer.word,
            final(self).mmer.pos == old(self).mmer.pos + offset,
            final(self).start == old(self).start + offset,
            final(self).n_kmers == old(self).n_kmers,
    {
        self.mmer.pos = self.mmer.pos + offset;
        self.start = self.start + offset;
    }

    /// Moves the run and its minimizer `offset` positions left.
    pub fn dec_pos(&mut self, offset: usize)
        requires
            offset <= old(self).start,
            offset <= old(self).mmer.pos,
        ensures
            final(self).mmer.word == old(self).mmer.word,
            final(self).mmer.pos == old(self).mmer.pos - offset,
            final(self).start == old(self).start - offset,
            final(self).n_kmers == old(self).n_kmers,
    {
        self.mmer.pos = self.mmer.pos - offset;
        self.start = self.start - offset;
    }

    pub fn mmer_word(&self) -> (r: u64)
        ensures
            r == self.mmer.word,
    {
        self.mmer.word
    }

    pub fn mmer_pos(&self) -> (r: usize)
        ensures
            r == self.mmer.pos,
    {
        self.mmer.pos
    }

    /// The minimizer's offset in the run's first k-mer.
    pub fn mmer_offset(&self) -> (r: usize)
        requires
            self.start <= self.mmer.pos,
        ensures
            r == self.mmer.pos - self.start,
    {
        self.mmer_pos() - self.start_pos()
    }

    pub fn start_pos(&self) -> (r: usize)
        ensures
            r == self.start,
    {
        self.start
    }

    pub fn n_kmers(&self) -> (r: usize)
        ensures
            r == self.n_kmers,
    {
        self.n_kmers as usize
    }
}

/// The total number of windows the occurrences cover.
pub open spec fn sum_n_kmers(occs: Seq<CanonicalSuperKmerOcc>) -> nat
    decreases occs.len(),
{
    if occs.len() == 0 {
        0
    } else {
        sum_n_kmers(occs.drop_last()) + occs.last().n_kmers as nat
    }
}

/// The occurrences tile `[from, to)`: each starts where the previous ends,
/// holds 1 to 255 windows, and a run shorter than 255 windows is followed
/// by a different minimizer.
pub open spec fn tiles(occs: Seq<CanonicalSuperKmerOcc>, from: int, to: int) -> bool {
    &&& occs.len() == 0 ==> from == to
    &&& occs.len() > 0 ==> occs[0].start == from && occs.last().start + occs.last().n_kmers == to
    &&& forall|j: int| 0 <= j < occs.len() ==> 1 <= #[trigger] occs[j].n_kmers <= 255
    &&& forall|j: int|
        0 <= j < occs.len() - 1 ==> #[trigger] occs[j + 1].start == occs[j].start + occs[j].n_kmers
    &&& forall|j: int|
        0 <= j < occs.len() - 1 && #[trigger] occs[j].n_kmers < 255 ==> occs[j + 1].mmer != occs[j].mmer
}

/// Runs of equal canonical minimizers over the k-mer windows of a slice.
pub struct CanonicalSuperKmerIterator<'a, H: WordHasher> {
    minimizers: CanonicalMinimizerIter<'a, H>,
    k: usize,
    w: usize,
    curr_km_i: usize,
    sv: SeqVectorSlice<'a>,
    next_mmer: Option<MappedMinimizer>,
    emitted: Ghost<Seq<MappedMinimizer>>,
}

impl<'a, H: WordHasher> CanonicalSuperKmerIterator<'a, H> {
    /// The canonical minimizer of every window read so far.
    pub closed spec fn spec_minimizers(&self) -> Seq<MappedMinimizer> {
        self.emitted@
    }

    /// The index of the next window not yet grouped.
    pub closed spec fn spec_pos(&self) -> int {
        self.curr_km_i as int
    }

    /// The number of k-mer windows.
    pub closed spec fn spec_n_windows(&self) -> int {
        self.sv@.len() - self.k + 1
    }

    pub closed spec fn spec_seq(&self) -> Seq<Base> {
        self.sv@
    }

    pub closed spec fn spec_k(&self) -> nat {
        self.k as nat
    }

    pub closed spec fn spec_w(&self) -> nat {
        self.w as nat
    }

    pub closed spec fn spec_hasher(&self) -> H {
        self.minimizers.spec_hasher()
    }

    /// Under a hasher with known values, the minimizer read for window `i`
    /// is its canonical minimizer.
    pub open spec fn minimizer_exact(&self, i: int, mm: MappedMinimizer) -> bool {
        let s = self.spec_seq();
        let w = self.spec_w();
        self.spec_hasher().hash_known() ==> canonical_mmer_ok(
            s,
            self.spec_k(),
            w,
            wmer_hashes(self.spec_hasher(), s, w),
            rc_wmer_hashes(self.spec_hasher(), s, w),
            i,
            mm,
        )
    }

    pub closed spec fn wf(&self) -> bool {
        let n = self.sv@.len() - self.k + 1;
        &&& self.minimizers.wf()
        &&& self.minimizers.spec_seq() == self.sv@
        &&& self.minimizers.spec_k() == self.k
        &&& self.minimizers.spec_w() == self.w
        &&& forall|i: int| 0 <= i < self.emitted@.len() ==> self.minimizer_exact(i, #[trigger] self.emitted@[i])
        &&& 1 <= self.k <= self.sv@.len()
        &&& self.emitted@.len() == self.minimizers.spec_pos()
        &&& self.curr_km_i <= n
        &&& self.next_mmer is Some ==> self.curr_km_i < n && self.minimizers.spec_pos() == self.curr_km_i + 1
            && self.next_mmer == Some(self.emitted@[self.curr_km_i as int])
        &&& self.next_mmer is None ==> self.curr_km_i == n && self.minimizers.spec_pos() == n
    }

    /// An iterator at the first window.
    pub fn new(sv: SeqVectorSlice<'a>, k: usize, w: usize, hash_seed: H) -> (r: Self)
        requires
            sv.wf(),
            1 <= w <= k <= 32,
            k <= sv@.len(),
            hash_seed.hash_ready(),
        ensures
            r.wf(),
            r.spec_seq() == sv@,
            r.spec_pos() == 0,
            r.spec_n_windows() == sv@.len() - k + 1,
            r.spec_k() == k,
            r.spec_w() == w,
            r.spec_hasher() == hash_seed,
    {
        let mut minimizers = CanonicalMinimizerIter::new(sv, k, w, hash_seed);
        let next_mmer = minimizers.next();
        let ghost emitted = match next_mmer {
            Some(m) => seq![m],
            None => Seq::empty(),
        };
        proof {
            match next_mmer {
                Some(m) => {
                    if hash_seed.hash_known() {
                        minimizers.lemma_known_hashes();
                        lemma_canonical_ok_full(
                            sv@,
                            k as nat,
                            w as nat,
                            minimizers.spec_fw_hashes(),
                            minimizers.spec_rc_hashes(),
                            wmer_hashes(hash_seed, sv@, w as nat),
                            rc_wmer_hashes(hash_seed, sv@, w as nat),
                            0,
                            m,
                        );
                    }
                    assert(emitted[0] == m);
                },
                None => {},
            }
        }
        let r = Self { minimizers, sv, k, w, curr_km_i: 0, next_mmer, emitted: Ghost(emitted) };
        proof {
            assert forall|i: int| 0 <= i < r.emitted@.len() implies r.minimizer_exact(i, #[trigger] r.emitted@[i]) by {}
        }
        r
    }

    /// Reads the canonical minimizer of the next window.
    fn advance(&mut self)
        requires
            old(self).wf(),
            old(self).next_mmer is Some,
        ensures
            final(self).wf(),
            final(self).sv == old(self).sv,
            final(self).k == old(self).k,
            final(self).w == old(self).w,
            final(self).minimizers.spec_hasher() == old(self).minimizers.spec_hasher(),
            final(self).curr_km_i == old(self).curr_km_i + 1,
            final(self).emitted@.len() >= old(self).emitted@.len(),
            final(self).emitted@.subrange(0, old(self).emitted@.len() as int) == old(self).emitted@,
    {
        let ghost before = self.emitted@;
        self.next_mmer = self.minimizers.next();
        self.curr_km_i = self.curr_km_i + 1;
        let ghost after = match self.next_mmer {
            Some(m) => before.push(m),
            None => before,
        };
        self.emitted = Ghost(after);
        proof {
            assert(self.emitted@.subrange(0, before.len() as int) =~= before);
            match self.next_mmer {
                Some(m) => {
                    let hasher = self.minimizers.spec_hasher();
                    let s = self.sv@;
                    let w = self.w as nat;
                    if hasher.hash_known() {
                        self.minimizers.lemma_known_hashes();
                        lemma_canonical_ok_full(
                            s,
                            self.k as nat,
                            w,
                            self.minimizers.spec_fw_hashes(),
                            self.minimizers.spec_rc_hashes(),
                            wmer_hashes(hasher, s, w),
                            rc_wmer_hashes(hasher, s, w),
                            self.curr_km_i as int,
                            m,
                        );
                    }
                    assert forall|i: int| 0 <= i < self.emitted@.len() implies self.minimizer_exact(i, #[trigger] self.emitted@[i]) by {
                        if i < before.len() {
                            assert(self.emitted@[i] == before[i]);
                        }
                    }
                },
                None => {},
            }
        }
    }

    /// The next run: its minimizer, first window and number of windows.
    pub fn next(&mut self) -> (r: Option<CanonicalSuperKmerOcc>)
        requires
            old(self).wf(),
        ensures
            final(self).wf(),
            final(self).spec_seq() == old(self).spec_seq(),
            final(self).spec_n_windows() == old(self).spec_n_windows(),
            final(self).spec_k() == old(self).spec_k(),
            final(self).spec_w() == old(self).spec_w(),
            final(self).spec_hasher() == old(self).spec_hasher(),
            final(self).spec_minimizers().subrange(0, old(self).spec_minimizers().len() as int)
                == old(self).spec_minimizers(),
            old(self).spec_pos() == old(self).spec_n_windows() ==> r is None && final(self).spec_pos()
                == old(self).spec_pos(),
            old(self).spec_pos() < old(self).spec_n_windows() ==> (r matches Some(occ) && {
                let e = final(self).spec_minimizers();
                &&& occ.start == old(self).spec_pos()
                &&& 1 <= occ.n_kmers <= 255
                &&& final(self).spec_pos() == occ.start + occ.n_kmers
                &&& forall|t: int| occ.start <= t < occ.start + occ.n_kmers ==> #[trigger] e[t] == occ.mmer
                &&& forall|t: int| occ.start <= t < occ.start + occ.n_kmers ==> #[trigger] final(self).minimizer_exact(t, occ.mmer)
                &&& final(self).spec_pos() < final(self).spec_n_windows() && occ.n_kmers < 255 ==> e[final(self).spec_pos()] != occ.mmer
            }),
    {
        let curr_mmer = match self.next_mmer {
            Some(m) => m,
            None => {
                return None;
            },
        };
        let start_pos = self.curr_km_i;
        let mut n_kmers: u8 = 1;
        let ghost e0 = self.emitted@;
        loop
            invariant
                self.wf(),
                self.sv == old(self).sv,
                self.k == old(self).k,
                self.w == old(self).w,
                self.minimizers.spec_hasher() == old(self).minimizers.spec_hasher(),
                e0 == old(self).emitted@,
                start_pos == old(self).curr_km_i,
                old(self).next_mmer == Some(curr_mmer),
                self.emitted@.subrange(0, e0.len() as int) == e0,
                self.emitted@.len() >= e0.len(),
                self.minimizers.spec_hasher() == old(self).minimizers.spec_hasher(),
                e0.len() > start_pos,
                e0[start_pos as int] == curr_mmer,
                1 <= n_kmers <= 255,
                self.curr_km_i == start_pos + n_kmers - 1,
                self.next_mmer == Some(curr_mmer),
                forall|t: int| start_pos <= t < start_pos + n_kmers ==> #[trigger] self.emitted@[t] == curr_mmer,
            decreases self.sv@.len() - self.k + 1 - self.curr_km_i,
        {
            let ghost before = self.emitted@;
            self.advance();
            proof {
                assert forall|t: int| start_pos <= t < start_pos + n_kmers implies #[trigger] self.emitted@[t]
                    == curr_mmer by {
                    assert(self.emitted@.subrange(0, before.len() as int)[t] == before[t]);
                }
            }
            let same = match self.next_mmer {
                Some(nm) => nm.pos == curr_mmer.pos && nm.word == curr_mmer.word,
                None => false,
            };
            if same && n_kmers < 255 {
                proof {
                    assert(self.emitted@[self.curr_km_i as int] == curr_mmer);
                }
                n_kmers = n_kmers + 1;
            } else {
                proof {
                    assert forall|t: int| start_pos <= t < start_pos + n_kmers implies #[trigger] self.minimizer_exact(t, curr_mmer) by {
                        assert(self.emitted@[t] == curr_mmer);
                    }
                }
                return Some(CanonicalSuperKmerOcc { mmer: curr_mmer, start: start_pos, n_kmers });
            }
        }
    }

    /// The remaining runs, in order.
    pub fn collect(self) -> (r: Vec<CanonicalSuperKmerOcc>)
        requires
            self.wf(),
        ensures
            tiles(r@, self.spec_pos(), self.spec_n_windows()),
            sum_n_kmers(r@) == self.spec_n_windows() - self.spec_pos(),
            forall|j: int, t: int|
                0 <= j < r@.len() && r@[j].start <= t < r@[j].start + r@[j].n_kmers
                    ==> #[trigger] self.minimizer_exact(t, r@[j].mmer),
    {
        let ghost from = self.spec_pos();
        let ghost n = self.spec_n_windows();
        let mut it = self;
        let mut out: Vec<CanonicalSuperKmerOcc> = Vec::new();
        while it.next_mmer.is_some()
            invariant
                it.wf(),
                from == self.spec_pos(),
                n == self.spec_n_windows(),
                it.spec_seq() == self.spec_seq(),
                it.spec_k() == self.spec_k(),
                it.spec_w() == self.spec_w(),
                it.spec_hasher() == self.spec_hasher(),
                forall|j: int, t: int|
                    0 <= j < out@.len() && out@[j].start <= t < out@[j].start + out@[j].n_kmers
                        ==> #[trigger] self.minimizer_exact(t, out@[j].mmer),
                it.spec_n_windows() == n,
                from <= it.spec_pos() <= n,
                tiles(out@, from, it.spec_pos()),
                sum_n_kmers(out@) == it.spec_pos() - from,
                out@.len() > 0 && out@.last().n_kmers < 255 && it.spec_pos() < n ==> it.spec_minimizers()[it.spec_pos()] != out@.last().mmer,
                out@.len() > 0 ==> it.spec_minimizers()[out@.last().start as int] == out@.last().mmer,
            decreases n - it.spec_pos(),
        {
            let ghost p = it.spec_pos();
            let ghost e_before = it.spec_minimizers();
            match it.next() {
                Some(occ) => {
                    let ghost prev = out@;
                    out.push(occ);
                    proof {
                        let o = out@;
                        assert(o.drop_last() =~= prev);
                        let e = it.spec_minimizers();
                        if prev.len() > 0 {
                            assert(e[p] == occ.mmer);
                            if prev.last().n_kmers < 255 {
                                assert(e_before[p] != prev.last().mmer);
                                assert(e[p] == e_before[p]);
                            }
                        }
                        assert forall|j: int| 0 <= j < o.len() - 1 implies #[trigger] o[j + 1].start == o[j].start + o[j].n_kmers by {
                            if j < prev.len() - 1 {
                                assert(o[j] == prev[j] && o[j + 1] == prev[j + 1]);
                            }
                        }
                        assert forall|j: int| 0 <= j < o.len() - 1 && #[trigger] o[j].n_kmers < 255 implies o[j + 1].mmer != o[j].mmer by {
                            if j < prev.len() - 1 {
                                assert(o[j] == prev[j] && o[j + 1] == prev[j + 1]);
                            }
                        }
                        assert forall|j: int| 0 <= j < o.len() implies 1 <= #[trigger] o[j].n_kmers <= 255 by {
                            if j < prev.len() {
                                assert(o[j] == prev[j]);
                            }
                        }
                        assert(e[occ.start as int] == occ.mmer);
                        assert forall|j: int, t: int|
                            0 <= j < o.len() && o[j].start <= t < o[j].start + o[j].n_kmers
                                implies #[trigger] self.minimizer_exact(t, o[j].mmer) by {
                            if j < prev.len() {
                                assert(o[j] == prev[j]);
                            } else {
                                assert(it.minimizer_exact(t, occ.mmer));
                            }
                        }
                    }
                },
                None => {},
            }
        }
        out
    }
}

impl<'a> SeqVectorSlice<'a> {
    /// Runs of equal canonical minimizers over the k-mer windows of the slice.
    pub fn iter_super_kmers<H: WordHasher>(&self, k: usize, w: usize, build_hasher: H) -> (r:
        CanonicalSuperKmerIterator<'a, H>)
        requires
            self.wf(),
            1 <= w <= k <= 32,
            k <= self@.len(),
            build_hasher.hash_ready(),
        ensures
            r.wf(),
            r.spec_seq() == self@,
            r.spec_pos() == 0,
            r.spec_n_windows() == self@.len() - k + 1,
    {
        CanonicalSuperKmerIterator::new(*self, k, w, build_hasher)
    }
}

} // verus!
