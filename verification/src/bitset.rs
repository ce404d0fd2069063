//! A growable bit set backed by a vector of 64-bit words.
//!
//! Bits inside a word are addressed most-significant-bit first: index 0 of
//! the set is the top bit of word 0.  `len` is one past the highest set bit
//! and shrinks when the current highest bit is removed.

use vstd::prelude::*;
use vstd::std_specs::bits::u64_leading_zeros;
use vstd::std_specs::bits::u64_trailing_zeros;
use vstd::std_specs::bits::axiom_u64_leading_zeros;
use vstd::std_specs::bits::axiom_u64_trailing_zeros;

verus! {

/// Bit `off` of `w`, counted from the most significant end (bit 0 is the
/// top bit).
pub open spec fn bit64(w: u64, off: u64) -> bool
    recommends
        off < 64,
{
    (w >> ((63 - off) as u64)) & 1u64 == 1u64
}

proof fn lemma_bit64_zero(j: u64)
    by (bit_vector)
    requires
        j < 64,
    ensures
        !bit64(0u64, j),
{
}

proof fn lemma_bit64_or(w: u64, off: u64)
    by (bit_vector)
    requires
        off < 64,
    ensures
        forall|j: u64|
            j < 64 ==> #[trigger] bit64(w | (0x8000000000000000u64 >> off), j) == (j == off
                || bit64(w, j)),
{
}

proof fn lemma_bit64_clear(w: u64, off: u64)
    by (bit_vector)
    requires
        off < 64,
    ensures
        forall|j: u64|
            j < 64 ==> #[trigger] bit64(w & !(0x8000000000000000u64 >> off), j) == (j != off
                && bit64(w, j)),
{
}

proof fn lemma_bit64_mask_low(w: u64, off: u64)
    by (bit_vector)
    requires
        off < 64,
    ensures
        forall|j: u64|
            j < 64 ==> #[trigger] bit64(w & (0xffff_ffff_ffff_ffffu64 >> off), j) == (j >= off
                && bit64(w, j)),
{
}

/// The leading-zero count of a nonzero word names its first set bit in
/// most-significant-first order.
proof fn lemma_leading_bit(m: u64)
    requires
        m != 0,
    ensures
        u64_leading_zeros(m) < 64,
        bit64(m, u64_leading_zeros(m) as u64),
        forall|j: u64| j < u64_leading_zeros(m) ==> !#[trigger] bit64(m, j),
{
    axiom_u64_leading_zeros(m);
    let lz = u64_leading_zeros(m) as u64;
    assert(lz < 64 ==> ((m >> ((63 - lz) as u64)) & 1u64 != 0 ==> bit64(m, lz))) by (bit_vector);
    assert forall|j: u64| j < lz implies !#[trigger] bit64(m, j) by {
        assert((m >> ((63 - j) as u64)) & 1u64 == 0u64) by {
            assert(64 - u64_leading_zeros(m) <= (63 - j) as u64);
            assert(((63 - j) as u64) < 64);
        }
    }
}

/// The trailing-zero count of a nonzero word names its last set bit in
/// most-significant-first order.
proof fn lemma_trailing_bit(m: u64)
    requires
        m != 0,
    ensures
        u64_trailing_zeros(m) < 64,
        bit64(m, (63 - u64_trailing_zeros(m)) as u64),
        forall|j: u64| 63 - u64_trailing_zeros(m) < j < 64 ==> !#[trigger] bit64(m, j),
{
    axiom_u64_trailing_zeros(m);
    let tz = u64_trailing_zeros(m) as u64;
    assert(tz < 64 ==> ((m >> tz) & 1u64 == 1u64 ==> bit64(m, (63 - tz) as u64))) by (bit_vector);
    assert forall|j: u64| 63 - tz < j < 64 implies !#[trigger] bit64(m, j) by {
        assert((m >> ((63 - j) as u64)) & 1u64 == 0u64) by {
            assert(((63 - j) as u64) < u64_trailing_zeros(m));
        }
    }
}

/// A growable set of bit indices.
#[derive(Debug)]
pub struct BitSet {
    pub data: Vec<u64>,
    pub len: usize,
}

/// Membership of index `i` in a word sequence; indices beyond the
/// allocated words are out.
pub open spec fn seq_bit(data: Seq<u64>, i: nat) -> bool {
    i / 64 < data.len() && bit64(data[(i / 64) as int], (i % 64) as u64)
}

impl BitSet {
    /// Membership of index `i`: indices beyond the allocated words are out.
    pub open spec fn spec_get(&self, i: nat) -> bool {
        seq_bit(self.data@, i)
    }

    /// `len` is one past the highest set bit (zero when the set is empty),
    /// and the storage never outgrows the index range of `usize`.
    pub open spec fn wf(&self) -> bool {
        &&& forall|i: nat| i >= self.len ==> !(#[trigger] self.spec_get(i))
        &&& self.len > 0 ==> self.spec_get((self.len - 1) as nat)
        &&& 64 * self.data@.len() <= usize::MAX as int + 1
        &&& !self.spec_get(usize::MAX as nat)
    }

    pub fn new() -> (r: Self)
        ensures
            r.wf(),
            r.len == 0,
            forall|i: nat| !(#[trigger] r.spec_get(i)),
    {
        BitSet { data: Vec::new(), len: 0 }
    }

    pub fn len(&self) -> (r: usize)
        ensures
            r == self.len,
    {
        self.len
    }

    pub fn get(&self, i: usize) -> (r: bool)
        ensures
            r == self.spec_get(i as nat),
    {
        let idx = i / 64;
        let off = i % 64;
        if idx < self.data.len() {
            let r = (self.data[idx] >> ((63 - off) as u64)) & 1u64 == 1u64;
            proof {
                assert(((63 - off) as u64) == ((63 - (i as nat % 64)) as u64));
            }
            r
        } else {
            false
        }
    }

    pub fn add(&mut self, i: usize)
        requires
            old(self).wf(),
            i < usize::MAX,
        ensures
            final(self).wf(),
            final(self).spec_get(i as nat),
            forall|j: nat| j != i ==> #[trigger] final(self).spec_get(j) == old(self).spec_get(j),
            final(self).len == if old(self).len > i {
                old(self).len as int
            } else {
                i + 1
            },
    {
        let idx = i / 64;
        let off = i % 64;
        proof {
            assert(usize::MAX == u32::MAX || usize::MAX == u64::MAX);
            assert(usize::MAX % 64 == 63);
            assert(64 * (i / 64) + 64 <= usize::MAX as int + 1) by (nonlinear_arith)
                requires
                    i < usize::MAX,
                    usize::MAX % 64 == 63,
            ;
        }
        while self.data.len() <= idx
            invariant
                idx == i / 64,
                64 * idx + 64 <= usize::MAX as int + 1,
                self.len == old(self).len,
                self.data@.len() >= old(self).data@.len(),
                forall|m: int|
                    0 <= m < old(self).data@.len() ==> self.data@[m] == old(self).data@[m],
                forall|m: int|
                    old(self).data@.len() <= m < self.data@.len() ==> self.data@[m] == 0u64,
                self.data@.len() <= idx + 1 || self.data@.len() == old(self).data@.len(),
            decreases idx + 1 - self.data@.len(),
        {
            self.data.push(0u64);
        }
        if self.len <= i {
            self.len = i + 1;
        }
        let w = self.data[idx];
        self.data.set(idx, w | (0x8000000000000000u64 >> (off as u64)));
        proof {
            lemma_bit64_or(w, off as u64);
            assert(i as nat / 64 == idx && i as nat % 64 == off);
            assert(self.data@[idx as int] == w | (0x8000000000000000u64 >> (off as u64)));
            assert forall|j: nat| j != i implies #[trigger] self.spec_get(j) == old(
                self,
            ).spec_get(j) by {
                if j / 64 < self.data@.len() {
                    let jj = (j % 64) as u64;
                    if j / 64 == idx {
                        assert(j % 64 != off) by (nonlinear_arith)
                            requires
                                j / 64 == i as nat / 64,
                                off == i as nat % 64,
                                j != i,
                        ;
                        assert(bit64(w | (0x8000000000000000u64 >> (off as u64)), jj) == (jj
                            == off as u64 || bit64(w, jj)));
                        if idx >= old(self).data@.len() {
                            assert(w == 0u64);
                            lemma_bit64_zero(jj);
                        }
                    } else if j / 64 < old(self).data@.len() {
                        assert(self.data@[(j / 64) as int] == old(self).data@[(j / 64) as int]);
                    } else {
                        lemma_bit64_zero(jj);
                        assert(self.data@[(j / 64) as int] == 0u64);
                    }
                }
            }
            assert(bit64(w | (0x8000000000000000u64 >> (off as u64)), off as u64));
            assert(self.spec_get(i as nat));
            assert(!self.spec_get(usize::MAX as nat)) by {
                assert(usize::MAX as nat != i);
            }
            if old(self).len > i {
                assert forall|j: nat| j >= self.len implies !(#[trigger] self.spec_get(j)) by {
                    assert(j != i);
                }
                if (self.len - 1) as nat != i {
                    assert(self.spec_get((self.len - 1) as nat) == old(self).spec_get(
                        (self.len - 1) as nat,
                    ));
                }
            } else {
                assert forall|j: nat| j >= self.len implies !(#[trigger] self.spec_get(j)) by {
                    assert(j != i && j >= old(self).len);
                }
            }
            assert(64 * self.data@.len() <= usize::MAX as int + 1);
        }
    }

    pub fn remove(&mut self, i: usize)
        requires
            old(self).wf(),
        ensures
            final(self).wf(),
            !final(self).spec_get(i as nat),
            forall|j: nat| j != i ==> #[trigger] final(self).spec_get(j) == old(self).spec_get(j),
    {
        if i < self.len {
            let idx = i / 64;
            let off = i % 64;
            proof {
                assert(old(self).spec_get((self.len - 1) as nat));
                assert(idx <= (self.len - 1) as nat / 64) by (nonlinear_arith)
                    requires
                        idx == i as nat / 64,
                        i < self.len,
                ;
            }
            let w = self.data[idx];
            self.data.set(idx, w & !(0x8000000000000000u64 >> (off as u64)));
            proof {
                lemma_bit64_clear(w, off as u64);
                assert(i as nat / 64 == idx && i as nat % 64 == off);
                assert forall|j: nat| j != i implies #[trigger] self.spec_get(j) == old(
                    self,
                ).spec_get(j) by {
                    if j / 64 < self.data@.len() && j / 64 == idx {
                        assert(j % 64 != off) by (nonlinear_arith)
                            requires
                                j / 64 == i as nat / 64,
                                off == i as nat % 64,
                                j != i,
                        ;
                    }
                }
                assert(!self.spec_get(i as nat));
                if usize::MAX as nat != i {
                    assert(self.spec_get(usize::MAX as nat) == old(self).spec_get(
                        usize::MAX as nat,
                    ));
                }
                assert(!seq_bit(self.data@, usize::MAX as nat));
            }
            if i == self.len - 1 {
                // the highest set bit was cleared: rescan for the new highest
                let mut k = self.data.len();
                loop
                    invariant_except_break
                        k <= self.data@.len(),
                        64 * self.data@.len() <= usize::MAX as int + 1,
                        !seq_bit(self.data@, i as nat),
                        forall|j: nat|
                            j != i ==> #[trigger] seq_bit(self.data@, j) == old(self).spec_get(j),
                        forall|j: nat| j >= 64 * k ==> !(#[trigger] seq_bit(self.data@, j)),
                        !seq_bit(self.data@, usize::MAX as nat),
                    ensures
                        final(self).wf(),
                        !final(self).spec_get(i as nat),
                        forall|j: nat|
                            j != i ==> #[trigger] final(self).spec_get(j) == old(self).spec_get(j),
                    decreases k,
                {
                    if k == 0 {
                        self.len = 0;
                        break ;
                    }
                    let w2 = self.data[k - 1];
                    if w2 > 0 {
                        let tz = w2.trailing_zeros();
                        proof {
                            lemma_trailing_bit(w2);
                            assert(64 * (k - 1) + 64 <= usize::MAX as int + 1)
                                by (nonlinear_arith)
                                requires
                                    1 <= k <= self.data@.len(),
                                    64 * self.data@.len() <= usize::MAX as int + 1,
                            ;
                            let hi = ((k - 1) * 64 + 63 - tz) as nat;
                            assert(hi / 64 == k - 1 && hi % 64 == 63 - tz) by (nonlinear_arith)
                                requires
                                    k >= 1,
                                    tz < 64,
                                    hi == (k - 1) * 64 + 63 - tz,
                            ;
                            assert(bit64(w2, (63 - tz) as u64));
                            assert(seq_bit(self.data@, hi));
                            assert(hi != usize::MAX as nat);
                            assert((k - 1) * 64 + (64 - tz) <= usize::MAX);
                        }
                        self.len = (k - 1) * 64 + (64 - (tz as usize));
                        proof {
                            let hi = ((k - 1) * 64 + 63 - tz) as nat;
                            assert(hi / 64 == k - 1 && hi % 64 == 63 - tz) by (nonlinear_arith)
                                requires
                                    k >= 1,
                                    tz < 64,
                                    hi == (k - 1) * 64 + 63 - tz,
                            ;
                            assert(bit64(w2, (63 - tz) as u64));
                            assert(seq_bit(self.data@, hi));
                            assert(hi == self.len - 1);
                            assert forall|j: nat| j >= self.len implies !(
                            #[trigger] seq_bit(self.data@, j)) by {
                                if j / 64 < self.data@.len() {
                                    let jj = (j % 64) as u64;
                                    if j / 64 == k - 1 {
                                        assert(63 - tz < j % 64 < 64) by (nonlinear_arith)
                                            requires
                                                j / 64 == k - 1,
                                                j >= (k - 1) * 64 + 64 - tz,
                                                k >= 1,
                                                tz < 64,
                                        ;
                                        assert(!bit64(w2, jj));
                                    } else {
                                        assert(j / 64 >= k) by (nonlinear_arith)
                                            requires
                                                j >= (k - 1) * 64 + 64 - tz,
                                                j / 64 != k - 1,
                                                k >= 1,
                                                tz < 64,
                                        ;
                                        assert(j >= 64 * k) by (nonlinear_arith)
                                            requires
                                                j / 64 >= k,
                                        ;
                                    }
                                }
                            }
                        }
                        break ;
                    }
                    k = k - 1;
                    proof {
                        assert forall|j: nat| j >= 64 * k implies !(#[trigger] seq_bit(
                            self.data@,
                            j,
                        )) by {
                            if j / 64 < self.data@.len() {
                                if j / 64 == k {
                                    lemma_bit64_zero((j % 64) as u64);
                                    assert(self.data@[(j / 64) as int] == 0u64);
                                } else {
                                    assert(j >= 64 * (k + 1)) by (nonlinear_arith)
                                        requires
                                            j / 64 >= k + 1,
                                    ;
                                }
                            }
                        }
                    }
                }
            } else {
                proof {
                    assert((self.len - 1) as nat != i);
                    assert(self.spec_get((self.len - 1) as nat));
                    assert forall|j: nat| j >= self.len implies !(#[trigger] self.spec_get(j)) by {
                        assert(j != i);
                    }
                    if usize::MAX as nat != i {
                        assert(self.spec_get(usize::MAX as nat) == old(self).spec_get(
                            usize::MAX as nat,
                        ));
                    }
                }
            }
        } else {
            proof {
                assert(!self.spec_get(i as nat));
            }
        }
    }

    pub fn clear(&mut self)
        requires
            old(self).wf(),
        ensures
            final(self).wf(),
            final(self).len == 0,
            forall|i: nat| !(#[trigger] final(self).spec_get(i)),
    {
        self.len = 0;
        let mut k: usize = 0;
        while k < self.data.len()
            invariant
                k <= self.data@.len(),
                self.len == 0,
                64 * self.data@.len() <= usize::MAX as int + 1,
                forall|m: int| 0 <= m < k ==> self.data@[m] == 0u64,
            decreases self.data@.len() - k,
        {
            self.data.set(k, 0u64);
            k = k + 1;
        }
        proof {
            assert forall|i: nat| !(#[trigger] self.spec_get(i)) by {
                if i / 64 < self.data@.len() {
                    lemma_bit64_zero((i % 64) as u64);
                    assert(self.data@[(i / 64) as int] == 0u64);
                }
            }
        }
    }

    /// The indices of the set bits at or above `from`, in ascending order.
    pub open spec fn ones_from(&self, from: nat) -> Seq<usize>
        decreases 64 * self.data@.len() - from,
    {
        if from >= 64 * self.data@.len() {
            Seq::empty()
        } else {
            let rest = self.ones_from(from + 1);
            if self.spec_get(from) {
                seq![from as usize] + rest
            } else {
                rest
            }
        }
    }

    pub fn iter_ones(&self) -> (it: IndexIter)
        requires
            self.wf(),
        ensures
            it.bitset == self,
            it.pos() == 0,
            it.wf(),
    {
        IndexIter::new(self)
    }
}

/// The length of a well-formed set is one past its highest set bit: every
/// index at or above `len` is out of the set, and when the set is nonempty
/// the bit just below `len` is in it.
pub proof fn lemma_len_one_past_highest(bs: &BitSet)
    requires
        bs.wf(),
    ensures
        forall|i: nat| i >= bs.len ==> !(#[trigger] bs.spec_get(i)),
        bs.len > 0 ==> bs.spec_get((bs.len - 1) as nat),
{
}

/// A stretch with no set bits contributes nothing to the enumeration.
proof fn lemma_ones_from_skip(bs: &BitSet, a: nat, b: nat)
    requires
        a <= b,
        forall|j: nat| a <= j < b ==> !(#[trigger] bs.spec_get(j)),
    ensures
        bs.ones_from(a) == bs.ones_from(b),
    decreases b - a,
{
    if a < b {
        if a >= 64 * bs.data@.len() {
            assert(bs.ones_from(a) == Seq::<usize>::empty());
            assert(b >= 64 * bs.data@.len());
            assert(bs.ones_from(b) == Seq::<usize>::empty());
        } else {
            assert(!bs.spec_get(a));
            lemma_ones_from_skip(bs, a + 1, b);
        }
    }
}

/// Set-bit enumeration is exact: it holds precisely the indices at or
/// above `from` whose bits are one, in strictly ascending order (hence
/// without duplicates).
pub proof fn lemma_ones_from_exact(bs: &BitSet, from: nat)
    requires
        64 * bs.data@.len() <= usize::MAX as int + 1,
    ensures
        forall|k: usize| #[trigger]
            bs.ones_from(from).contains(k) <==> (k >= from && bs.spec_get(k as nat)),
        forall|p: int, q: int|
            0 <= p < q < bs.ones_from(from).len() ==> #[trigger] bs.ones_from(from)[p]
                < #[trigger] bs.ones_from(from)[q],
    decreases 64 * bs.data@.len() - from,
{
    if from >= 64 * bs.data@.len() {
        assert forall|k: usize| !(k >= from && bs.spec_get(k as nat)) by {
            if k as nat >= from {
                assert(k as nat / 64 >= bs.data@.len()) by (nonlinear_arith)
                    requires
                        k as nat >= 64 * bs.data@.len(),
                ;
            }
        }
    } else {
        lemma_ones_from_exact(bs, from + 1);
        let s = bs.ones_from(from);
        let rest = bs.ones_from(from + 1);
        if bs.spec_get(from) {
            assert(s == seq![from as usize] + rest);
            assert forall|k: usize| #[trigger] s.contains(k) implies (k >= from && bs.spec_get(
                k as nat,
            )) by {
                let w = choose|w: int| 0 <= w < s.len() && s[w] == k;
                if w == 0 {
                    assert(k == from as usize);
                } else {
                    assert(rest[w - 1] == k);
                    assert(rest.contains(k));
                }
            }
            assert forall|k: usize| k >= from && bs.spec_get(k as nat) implies #[trigger] s.contains(
                k,
            ) by {
                if k as nat == from {
                    assert(s[0] == k);
                } else {
                    assert(rest.contains(k));
                    let w = choose|w: int| 0 <= w < rest.len() && rest[w] == k;
                    assert(s[w + 1] == k);
                }
            }
            assert forall|p: int, q: int| 0 <= p < q < s.len() implies #[trigger] s[p]
                < #[trigger] s[q] by {
                if p == 0 {
                    assert(rest.contains(rest[q - 1]));
                    assert(s[q] >= from + 1);
                } else {
                    assert(rest[p - 1] < rest[q - 1]);
                }
            }
        } else {
            assert(s == rest);
            assert forall|k: usize| #[trigger] s.contains(k) implies (k >= from && bs.spec_get(
                k as nat,
            )) by {
                assert(k >= from + 1);
            }
            assert forall|k: usize| k >= from && bs.spec_get(k as nat) implies #[trigger] s.contains(
                k,
            ) by {
                assert(k as nat != from);
                assert(k >= from + 1);
            }
        }
    }
}

impl Clone for BitSet {
    /// A structural copy: same words, same length.
    fn clone(&self) -> (r: Self)
        ensures
            r.data@ == self.data@,
            r.len == self.len,
    {
        let mut d: Vec<u64> = Vec::new();
        let mut k: usize = 0;
        while k < self.data.len()
            invariant
                k <= self.data@.len(),
                d@ == self.data@.subrange(0, k as int),
            decreases self.data@.len() - k,
        {
            d.push(self.data[k]);
            k = k + 1;
        }
        proof {
            assert(d@ =~= self.data@);
        }
        BitSet { data: d, len: self.len }
    }
}

/// Iterator over the bits of a [`BitSet`] in index order, yielding one
/// bool per position below `len`.
pub struct Iter<'a> {
    pub bitset: &'a BitSet,
    pub i: usize,
}

impl<'a> Iter<'a> {
    pub fn new(bitset: &'a BitSet) -> (it: Self)
        ensures
            it.bitset == bitset,
            it.i == 0,
    {
        Iter { bitset, i: 0 }
    }

    /// Yields `get(i)` for each `i` below `len`, in ascending order.
    pub fn next(&mut self) -> (r: Option<bool>)
        ensures
            final(self).bitset == old(self).bitset,
            if old(self).i < old(self).bitset.len {
                r == Some(old(self).bitset.spec_get(old(self).i as nat)) && final(self).i == old(
                    self,
                ).i + 1
            } else {
                r == None::<bool> && final(self).i == old(self).i
            },
    {
        if self.i < self.bitset.len {
            let r = self.bitset.get(self.i);
            self.i = self.i + 1;
            Some(r)
        } else {
            None
        }
    }
}

/// Iterator over the indices of the set bits of a [`BitSet`], ascending.
pub struct IndexIter<'a> {
    pub bitset: &'a BitSet,
    pub idx: usize,
    pub off: u32,
}

impl<'a> IndexIter<'a> {
    /// The next candidate index to examine.
    pub open spec fn pos(&self) -> int {
        self.idx * 64 + self.off
    }

    pub open spec fn wf(&self) -> bool {
        &&& self.off <= 64
        &&& self.idx <= self.bitset.data@.len()
        &&& 64 * self.bitset.data@.len() <= usize::MAX as int + 1
    }

    /// The set bits the iterator has not yet yielded.
    pub open spec fn remaining(&self) -> Seq<usize> {
        self.bitset.ones_from(self.pos() as nat)
    }

    pub fn new(bitset: &'a BitSet) -> (it: Self)
        requires
            64 * bitset.data@.len() <= usize::MAX as int + 1,
        ensures
            it.bitset == bitset,
            it.pos() == 0,
            it.wf(),
    {
        IndexIter { bitset, idx: 0, off: 0 }
    }

    /// Scans forward from the cursor to the next set bit.
    pub fn next(&mut self) -> (r: Option<usize>)
        requires
            old(self).wf(),
        ensures
            final(self).wf(),
            final(self).bitset == old(self).bitset,
            match r {
                Some(k) => {
                    &&& old(self).pos() <= k
                    &&& old(self).bitset.spec_get(k as nat)
                    &&& forall|j: nat|
                        old(self).pos() <= j < k ==> !(#[trigger] old(self).bitset.spec_get(j))
                    &&& final(self).pos() == k + 1
                },
                None => {
                    &&& forall|j: nat|
                        j >= old(self).pos() ==> !(#[trigger] old(self).bitset.spec_get(j))
                    &&& final(self).pos() >= old(self).pos()
                },
            },
            match r {
                Some(k) => old(self).remaining() == seq![k] + final(self).remaining(),
                None => old(self).remaining() == Seq::<usize>::empty(),
            },
    {
        let mut res: Option<usize> = None;
        loop
            invariant_except_break
                self.wf(),
                self.bitset == old(self).bitset,
                self.pos() >= old(self).pos(),
                forall|j: nat|
                    old(self).pos() <= j < self.pos() ==> !(#[trigger] self.bitset.spec_get(j)),
            ensures
                final(self).wf(),
                final(self).bitset == old(self).bitset,
                match res {
                    Some(k) => {
                        &&& old(self).pos() <= k
                        &&& old(self).bitset.spec_get(k as nat)
                        &&& forall|j: nat|
                            old(self).pos() <= j < k ==> !(#[trigger] old(self).bitset.spec_get(j))
                        &&& final(self).pos() == k + 1
                    },
                    None => {
                        &&& forall|j: nat|
                            j >= old(self).pos() ==> !(#[trigger] old(self).bitset.spec_get(j))
                        &&& final(self).pos() >= old(self).pos()
                    },
                },
            decreases self.bitset.data@.len() - self.idx, 64 - self.off,
        {
            if self.idx >= self.bitset.data.len() {
                proof {
                    assert forall|j: nat| j >= old(self).pos() implies !(
                    #[trigger] self.bitset.spec_get(j)) by {
                        if j >= self.pos() {
                            assert(j / 64 >= self.idx) by (nonlinear_arith)
                                requires
                                    j >= self.idx * 64 + self.off,
                                    0 <= self.off <= 64,
                                    self.idx >= 0,
                            ;
                        }
                    }
                }
                res = None;
                break ;
            }
            if self.off >= 64 {
                self.idx = self.idx + 1;
                self.off = 0;
            } else {
                let w = self.bitset.data[self.idx] & (0xffff_ffff_ffff_ffffu64 >> (self.off
                    as u64));
                proof {
                    lemma_bit64_mask_low(self.bitset.data@[self.idx as int], self.off as u64);
                }
                if w == 0 {
                    proof {
                        let oldpos = self.pos();
                        assert forall|j: nat|
                            oldpos <= j < (self.idx + 1) * 64 implies !(
                        #[trigger] self.bitset.spec_get(j)) by {
                            assert(j / 64 == self.idx && j % 64 >= self.off) by (nonlinear_arith)
                                requires
                                    self.idx * 64 + self.off <= j < (self.idx + 1) * 64,
                                    0 <= self.off < 64,
                                    self.idx >= 0,
                            ;
                            let jj = (j % 64) as u64;
                            assert(bit64(
                                self.bitset.data@[self.idx as int] & (0xffff_ffff_ffff_ffffu64
                                    >> (self.off as u64)),
                                jj,
                            ) == (jj >= self.off as u64 && bit64(
                                self.bitset.data@[self.idx as int],
                                jj,
                            )));
                            lemma_bit64_zero(jj);
                            assert(!bit64(0u64, jj));
                        }
                    }
                    self.idx = self.idx + 1;
                    self.off = 0;
                } else {
                    let lz = w.leading_zeros();
                    proof {
                        lemma_leading_bit(w);
                        assert(64 * self.idx + 64 <= usize::MAX as int + 1) by (nonlinear_arith)
                            requires
                                self.idx < self.bitset.data@.len(),
                                64 * self.bitset.data@.len() <= usize::MAX as int + 1,
                        ;
                    }
                    let k = self.idx * 64 + (lz as usize);
                    proof {
                        assert(k as nat / 64 == self.idx && k as nat % 64 == lz)
                            by (nonlinear_arith)
                            requires
                                k == self.idx * 64 + lz,
                                0 <= lz < 64,
                                self.idx >= 0,
                        ;
                        assert(bit64(w, lz as u64) && lz == u64_leading_zeros(w));
                        assert(bit64(
                            self.bitset.data@[self.idx as int] & (0xffff_ffff_ffff_ffffu64 >> (
                            self.off as u64)),
                            lz as u64,
                        ) == (lz as u64 >= self.off as u64 && bit64(
                            self.bitset.data@[self.idx as int],
                            lz as u64,
                        )));
                        assert(self.bitset.spec_get(k as nat));
                        assert forall|j: nat| old(self).pos() <= j < k implies !(
                        #[trigger] self.bitset.spec_get(j)) by {
                            if j >= self.pos() {
                                assert(j / 64 == self.idx && self.off <= j % 64 < lz)
                                    by (nonlinear_arith)
                                    requires
                                        self.idx * 64 + self.off <= j,
                                        j < self.idx * 64 + lz,
                                        0 <= self.off < 64,
                                        0 <= lz < 64,
                                        self.idx >= 0,
                                ;
                                let jj = (j % 64) as u64;
                                assert(!bit64(w, jj));
                                assert(bit64(
                                    self.bitset.data@[self.idx as int] & (
                                    0xffff_ffff_ffff_ffffu64 >> (self.off as u64)),
                                    jj,
                                ) == (jj >= self.off as u64 && bit64(
                                    self.bitset.data@[self.idx as int],
                                    jj,
                                )));
                            }
                        }
                    }
                    self.off = lz + 1;
                    res = Some(k);
                    break ;
                }
            }
        }
        proof {
            let bs = self.bitset;
            match res {
                Some(k) => {
                    lemma_ones_from_skip(bs, old(self).pos() as nat, k as nat);
                    assert((k as nat) < 64 * bs.data@.len()) by {
                        assert(k as nat / 64 < bs.data@.len());
                        assert((k as nat) < 64 * bs.data@.len()) by (nonlinear_arith)
                            requires
                                k as nat / 64 < bs.data@.len(),
                        ;
                    }
                    assert(bs.ones_from(k as nat) == seq![k] + bs.ones_from(k as nat + 1));
                }
                None => {
                    if old(self).pos() < 64 * bs.data@.len() {
                        lemma_ones_from_skip(
                            bs,
                            old(self).pos() as nat,
                            (64 * bs.data@.len()) as nat,
                        );
                    }
                    assert(bs.ones_from(old(self).pos() as nat) =~= Seq::<usize>::empty());
                }
            }
        }
        res
    }
}

} // verus!
