//! Scans a byte string for the windows of `k` valid bases, skipping every
//! window that holds a byte outside `ACGTacgt`, and keeps the canonical
//! k-mer of the current window.
use vstd::prelude::*;

use crate::base::{byte_codes, encode_binary_u8, is_nuc_byte};
use crate::canonical_kmer::CanonicalKmer;

verus! {

/// The window of `k` bytes at `q` lies in `s` and holds only nucleotides.
pub open spec fn window_valid(s: Seq<u8>, q: int, k: int) -> bool {
    &&& 0 <= q
    &&& q + k <= s.len()
    &&& forall|t: int| q <= t < q + k ==> is_nuc_byte(#[trigger] s[t])
}

/// The number of valid windows that start in `[lo, hi)`.
pub open spec fn count_valid(s: Seq<u8>, k: int, lo: int, hi: int) -> nat
    decreases hi - lo,
{
    if lo >= hi {
        0
    } else {
        (if window_valid(s, lo, k) {
            1nat
        } else {
            0nat
        }) + count_valid(s, k, lo + 1, hi)
    }
}

proof fn lemma_count_split(s: Seq<u8>, k: int, lo: int, mid: int, hi: int)
    requires
        lo <= mid <= hi,
    ensures
        count_valid(s, k, lo, hi) == count_valid(s, k, lo, mid) + count_valid(s, k, mid, hi),
    decreases mid - lo,
{
    if lo < mid {
        lemma_count_split(s, k, lo + 1, mid, hi);
    }
}

proof fn lemma_count_none(s: Seq<u8>, k: int, lo: int, hi: int)
    requires
        forall|q: int| lo <= q < hi ==> !window_valid(s, q, k),
    ensures
        count_valid(s, k, lo, hi) == 0,
    decreases hi - lo,
{
    if lo < hi {
        lemma_count_none(s, k, lo + 1, hi);
    }
}

/// A canonical k-mer and the offset of its window (-1 before any window).
#[derive(PartialEq, Eq, Structural, Debug, Clone, Copy)]
pub struct CanonicalKmerPos {
    pub km: CanonicalKmer,
    pub pos: i32,
}

impl CanonicalKmerPos {
    fn new(k: u8) -> (r: Self)
        requires
            1 <= k <= 32,
        ensures
            r.km.wf(),
            r.km@.len() == k,
            r.pos == -1,
    {
        let km = CanonicalKmer::blank_of_size(k);
        Self { km, pos: -1i32 }
    }
}

/// The iterator over the valid windows of a byte string.
#[derive(Debug, Clone)]
pub struct CanonicalKmerIterator<'a> {
    seq: &'a [u8],
    value_pair: CanonicalKmerPos,
    invalid: bool,
    last_invalid: i32,
    k: i32,
}

impl<'a> CanonicalKmerIterator<'a> {
    pub closed spec fn spec_seq(&self) -> Seq<u8> {
        self.seq@
    }

    pub closed spec fn spec_k(&self) -> int {
        self.k as int
    }

    /// No valid window is left.
    pub closed spec fn spec_exhausted(&self) -> bool {
        self.invalid
    }

    /// The current canonical k-mer and window offset.
    pub closed spec fn spec_value(&self) -> CanonicalKmerPos {
        self.value_pair
    }

    pub closed spec fn wf(&self) -> bool {
        &&& 1 <= self.k <= 32
        &&& self.seq@.len() <= i32::MAX
        &&& self.value_pair.km.wf()
        &&& self.value_pair.km@.len() == self.k
        &&& -1 <= self.last_invalid
        &&& (self.last_invalid >= 0 ==> self.last_invalid < self.seq@.len() && !is_nuc_byte(
            self.seq@[self.last_invalid as int],
        ))
        &&& !self.invalid ==> {
            &&& window_valid(self.seq@, self.value_pair.pos as int, self.k as int)
            &&& self.last_invalid < self.value_pair.pos
            &&& forall|t: int|
                self.last_invalid < t < self.value_pair.pos + self.k ==> is_nuc_byte(
                    #[trigger] self.seq@[t],
                )
            &&& self.value_pair.km@ == byte_codes(
                self.seq@.subrange(
                    self.value_pair.pos as int,
                    self.value_pair.pos + self.k,
                ),
            )
        }
    }

    /// Unless exhausted, the iterator stands at a valid window and holds the
    /// well-formed canonical k-mer of that window.
    pub open spec fn at_window(&self) -> bool {
        let s = self.spec_seq();
        let k = self.spec_k();
        let p = self.spec_value().pos as int;
        &&& self.spec_value().km.wf()
        &&& !self.spec_exhausted() ==> {
            &&& window_valid(s, p, k)
            &&& self.spec_value().km@ == byte_codes(s.subrange(p, p + k))
        }
    }

    /// The iterator stands at the first valid window at or after `start`, or
    /// is exhausted when there is none.
    pub open spec fn scanned_from(&self, start: int) -> bool {
        let s = self.spec_seq();
        let k = self.spec_k();
        let p = self.spec_value().pos as int;
        &&& self.at_window()
        &&& !self.spec_exhausted() ==> {
            &&& start <= p
            &&& forall|q: int| start <= q < p ==> !window_valid(s, q, k)
        }
        &&& self.spec_exhausted() ==> forall|q: int| start <= q ==> !window_valid(s, q, k)
    }

    /// Reads bytes from `from` on until a window of `k` valid bytes ends.
    fn find_next(&mut self, from: i32, Ghost(start): Ghost<int>)
        requires
            old(self).wf(),
            0 <= from <= old(self).seq@.len(),
            -1 <= old(self).last_invalid < from,
            forall|t: int| old(self).last_invalid < t < from ==> is_nuc_byte(#[trigger] old(self).seq@[t]),
            ({
                let m = if from - 1 - old(self).last_invalid < old(self).k {
                    from - 1 - old(self).last_invalid
                } else {
                    old(self).k as int
                };
                old(self).value_pair.km@.subrange(old(self).k - m, old(self).k as int) == byte_codes(
                    old(self).seq@.subrange(from - m, from as int),
                )
            }),
            0 <= start,
            old(self).last_invalid + 1 >= start || from >= start + old(self).k - 1,
            forall|q: int| start <= q && q + old(self).k <= from ==> !window_valid(old(self).seq@, q, old(self).k as int),
        ensures
            final(self).wf(),
            final(self).seq == old(self).seq,
            final(self).k == old(self).k,
            final(self).scanned_from(start),
    {
        let seq_len = self.seq.len() as i32;
        let mut l = from;
        let ghost s = self.seq@;
        let ghost k = self.k as int;
        while l < seq_len
            invariant
                s == self.seq@,
                self.seq == old(self).seq,
                k == self.k,
                self.k == old(self).k,
                0 <= start,
                1 <= k <= 32,
                s.len() <= i32::MAX,
                seq_len == s.len(),
                from <= l <= seq_len,
                !self.invalid ==> self.value_pair.pos as int + k <= s.len() && window_valid(s, self.value_pair.pos as int, k),
                self.value_pair.km.wf(),
                self.value_pair.km@.len() == k,
                -1 <= self.last_invalid < l,
                self.last_invalid >= 0 ==> !is_nuc_byte(s[self.last_invalid as int]),
                forall|t: int| self.last_invalid < t < l ==> is_nuc_byte(#[trigger] s[t]),
                ({
                    let m = if l - 1 - self.last_invalid < k {
                        l - 1 - self.last_invalid
                    } else {
                        k
                    };
                    self.value_pair.km@.subrange(k - m, k) == byte_codes(s.subrange(l - m, l as int))
                }),
                self.last_invalid + 1 >= start || l >= start + k - 1,
                forall|q: int| start <= q && q + k <= l ==> !window_valid(s, q, k),
            decreases seq_len - l,
        {
            let b = encode_binary_u8(self.seq[l as usize]);
            if b < 4 {
                let ghost old_km = self.value_pair.km@;
                let ghost li = self.last_invalid as int;
                let ghost m = if l - 1 - li < k {
                    l - 1 - li
                } else {
                    k
                };
                self.value_pair.km.append_base(b);
                proof {
                    let nm = if l - li < k {
                        l - li
                    } else {
                        k
                    };
                    let nkm = self.value_pair.km@;
                    assert(nkm == old_km.drop_first().push(b));
                    assert(nkm.subrange(k - nm, k) =~= old_km.subrange(k - m, k).subrange(
                        m - (nm - 1),
                        m,
                    ).push(b));
                    assert(byte_codes(s.subrange(l + 1 - nm, l + 1)) =~= byte_codes(
                        s.subrange(l - m, l as int),
                    ).subrange(m - (nm - 1), m).push(b));
                }
                if l - self.last_invalid >= self.k {
                    self.value_pair.pos = l - self.k + 1;
                    self.invalid = false;
                    proof {
                        let p = l - k + 1;
                        assert(byte_codes(s.subrange(p, p + k)) =~= byte_codes(
                            s.subrange(l + 1 - k, l + 1),
                        ));
                        assert(self.value_pair.km@.subrange(0, k) =~= self.value_pair.km@);
                        assert(window_valid(s, p, k));
                    }
                    return;
                }
                proof {
                    assert forall|q: int| start <= q && q + k <= l + 1 implies !window_valid(
                        s,
                        q,
                        k,
                    ) by {
                        if q + k == l + 1 {
                            assert(q <= self.last_invalid);
                            assert(!is_nuc_byte(s[self.last_invalid as int]));
                        }
                    }
                }
            } else {
                self.last_invalid = l;
                proof {
                    assert(self.value_pair.km@.subrange(k, k) =~= byte_codes(
                        s.subrange(l + 1, l + 1),
                    ));
                    assert forall|q: int| start <= q && q + k <= l + 1 implies !window_valid(
                        s,
                        q,
                        k,
                    ) by {
                        if q + k == l + 1 {
                            assert(!is_nuc_byte(s[l as int]));
                        }
                    }
                }
            }
            l = l + 1;
        }
        self.invalid = true;
    }

    /// An iterator standing at the first valid window of `s`.
    pub fn from_u8_slice(s: &'a [u8], k: u8) -> (r: CanonicalKmerIterator<'a>)
        requires
            1 <= k <= 32,
            s@.len() <= i32::MAX,
        ensures
            r.wf(),
            r.spec_seq() == s@,
            r.spec_k() == k,
            r.scanned_from(0),
    {
        let mut r = Self {
            seq: s,
            value_pair: CanonicalKmerPos::new(k),
            invalid: true,
            last_invalid: -1i32,
            k: k as i32,
        };
        proof {
            assert(r.value_pair.km@.subrange(k as int, k as int) =~= byte_codes(
                s@.subrange(0, 0),
            ));
        }
        r.find_next(0, Ghost(0));
        r
    }

    /// Whether no valid window is left.
    pub fn exhausted(&self) -> (r: bool)
        ensures
            r == self.spec_exhausted(),
    {
        self.invalid
    }

    /// Moves to the next valid window; returns whether there is one.
    pub fn inc(&mut self) -> (r: bool)
        requires
            old(self).wf(),
        ensures
            final(self).wf(),
            final(self).spec_seq() == old(self).spec_seq(),
            final(self).spec_k() == old(self).spec_k(),
            r == !final(self).spec_exhausted(),
            final(self).at_window(),
            old(self).spec_exhausted() ==> final(self).spec_exhausted(),
            !old(self).spec_exhausted() ==> final(self).scanned_from(
                old(self).spec_value().pos + 1,
            ),
    {
        if self.invalid {
            return false;
        }
        let lpos = self.value_pair.pos + self.k;
        let ghost s = self.seq@;
        let ghost k = self.k as int;
        let ghost start = self.value_pair.pos + 1;
        if lpos >= self.seq.len() as i32 {
            self.invalid = true;
            proof {
                assert forall|q: int| start <= q implies !window_valid(s, q, k) by {}
            }
        }
        if !self.invalid {
            proof {
                let p = self.value_pair.pos as int;
                assert(self.value_pair.km@.subrange(0, k) =~= self.value_pair.km@);
                assert(s.subrange(lpos - k, lpos as int) =~= s.subrange(p, p + k));
            }
            self.find_next(lpos, Ghost(start));
        }
        !self.invalid
    }

    /// Applies `inc` up to `count` times, stopping once exhausted; returns
    /// whether a window is left.
    pub fn inc_by(&mut self, count: usize) -> (r: bool)
        requires
            old(self).wf(),
        ensures
            final(self).wf(),
            final(self).spec_seq() == old(self).spec_seq(),
            final(self).spec_k() == old(self).spec_k(),
            r == !final(self).spec_exhausted(),
            final(self).at_window(),
            old(self).spec_exhausted() ==> final(self).spec_exhausted(),
            count == 0 ==> final(self).spec_value() == old(self).spec_value()
                && final(self).spec_exhausted() == old(self).spec_exhausted(),
            !old(self).spec_exhausted() && !final(self).spec_exhausted() ==> old(self).spec_value().pos
                <= final(self).spec_value().pos,
            !old(self).spec_exhausted() && !final(self).spec_exhausted() ==> count_valid(
                final(self).spec_seq(),
                final(self).spec_k(),
                old(self).spec_value().pos + 1,
                final(self).spec_value().pos + 1,
            ) == count,
            !old(self).spec_exhausted() && final(self).spec_exhausted() ==> count_valid(
                final(self).spec_seq(),
                final(self).spec_k(),
                old(self).spec_value().pos + 1,
                final(self).spec_seq().len() + 1int,
            ) < count,
    {
        let mut v = !self.invalid;
        let mut count = count;
        let ghost s = self.seq@;
        let ghost k = self.k as int;
        let ghost begin = self.value_pair.pos as int;
        let ghost total = count;
        let ghost was_exhausted = self.invalid;
        let ghost vp0 = self.value_pair;
        while count > 0 && v
            invariant
                self.wf(),
                total == 0 ==> self.value_pair == vp0 && self.invalid == was_exhausted,
                self.seq@ == s,
                self.k == k,
                v == !self.invalid,
                count <= total,
                was_exhausted ==> self.invalid,
                !was_exhausted && !self.invalid ==> count_valid(
                    s,
                    k,
                    begin + 1,
                    self.value_pair.pos + 1,
                ) == total - count,
                !was_exhausted && !self.invalid ==> self.value_pair.pos >= begin,
                !was_exhausted && self.invalid ==> count_valid(s, k, begin + 1, s.len() + 1int) + count
                    + 1 <= total,
            decreases count,
        {
            let ghost prev = self.value_pair.pos as int;
            v = self.inc();
            count = count - 1;
            proof {
                if !self.invalid {
                    let p = self.value_pair.pos as int;
                    lemma_count_split(s, k, begin + 1, prev + 1, p + 1);
                    lemma_count_split(s, k, prev + 1, p, p + 1);
                    lemma_count_none(s, k, prev + 1, p);
                    assert(count_valid(s, k, p, p + 1) == 1) by {
                        assert(count_valid(s, k, p + 1, p + 1) == 0);
                    }
                } else {
                    lemma_count_split(s, k, begin + 1, prev + 1, s.len() + 1int);
                    lemma_count_none(s, k, prev + 1, s.len() + 1int);
                }
            }
        }
        v
    }

    /// A well-formed iterator stands at a valid window with its canonical
    /// k-mer, unless exhausted.
    pub proof fn lemma_at_window(&self)
        requires
            self.wf(),
        ensures
            self.at_window(),
    {
    }

    /// The current canonical k-mer and its window offset.
    pub fn get(&self) -> (r: &CanonicalKmerPos)
        ensures
            *r == self.spec_value(),
    {
        &self.value_pair
    }
}

} // verus!
