//! A fixed 32-wide bit set stored in one machine word.
//!
//! Positions are addressed most-significant-bit first: index 0 is the top
//! bit of the word.

use vstd::prelude::*;
use vstd::std_specs::bits::u32_leading_zeros;
use vstd::std_specs::bits::axiom_u32_leading_zeros;

verus! {

/// Bit `off` of `w`, counted from the most significant end (bit 0 is the
/// top bit).
pub open spec fn bit32(w: u32, off: u32) -> bool
    recommends
        off < 32,
{
    (w >> ((31 - off) as u32)) & 1u32 == 1u32
}

proof fn lemma_bit32_zero(j: u32)
    by (bit_vector)
    requires
        j < 32,
    ensures
        !bit32(0u32, j),
{
}

proof fn lemma_bit32_or(w: u32, off: u32)
    by (bit_vector)
    requires
        off < 32,
    ensures
        forall|j: u32|
            j < 32 ==> #[trigger] bit32(w | (0x80000000u32 >> off), j) == (j == off || bit32(
                w,
                j,
            )),
{
}

proof fn lemma_bit32_clear(w: u32, off: u32)
    by (bit_vector)
    requires
        off < 32,
    ensures
        forall|j: u32|
            j < 32 ==> #[trigger] bit32(w & !(0x80000000u32 >> off), j) == (j != off && bit32(
                w,
                j,
            )),
{
}

proof fn lemma_bit32_mask_low(w: u32, off: u32)
    by (bit_vector)
    requires
        off < 32,
    ensures
        forall|j: u32|
            j < 32 ==> #[trigger] bit32(w & (0xffff_ffffu32 >> off), j) == (j >= off && bit32(
                w,
                j,
            )),
{
}

proof fn lemma_bit32_test(w: u32, i: u32)
    by (bit_vector)
    requires
        i < 32,
    ensures
        (w & (0x80000000u32 >> i) > 0) == bit32(w, i),
{
}

/// The leading-zero count of a nonzero word names its first set bit in
/// most-significant-first order.
proof fn lemma_leading_bit32(m: u32)
    requires
        m != 0,
    ensures
        u32_leading_zeros(m) < 32,
        bit32(m, u32_leading_zeros(m) as u32),
        forall|j: u32| j < u32_leading_zeros(m) ==> !#[trigger] bit32(m, j),
{
    axiom_u32_leading_zeros(m);
    let lz = u32_leading_zeros(m);
    assert(lz < 32 ==> ((m >> ((31 - lz) as u32)) & 1u32 != 0 ==> bit32(m, lz))) by (bit_vector);
    assert forall|j: u32| j < lz implies !#[trigger] bit32(m, j) by {
        assert((m >> ((31 - j) as u32)) & 1u32 == 0u32) by {
            assert(32 - u32_leading_zeros(m) <= (31 - j) as u32);
            assert(((31 - j) as u32) < 32);
        }
    }
}

/// The indices of the set bits of `w` at or above `from`, ascending.
pub open spec fn ones_from32(w: u32, from: u32) -> Seq<u32>
    decreases 32 - from,
{
    if from >= 32 {
        Seq::empty()
    } else {
        let rest = ones_from32(w, (from + 1) as u32);
        if bit32(w, from) {
            seq![from] + rest
        } else {
            rest
        }
    }
}

/// The number of set bits of `w`.
pub open spec fn spec_cardinality(w: u32) -> nat {
    ones_from32(w, 0).len()
}

/// A stretch with no set bits contributes nothing to the enumeration.
proof fn lemma_ones_from32_skip(w: u32, a: u32, b: u32)
    requires
        a <= b,
        forall|j: u32| a <= j < b ==> !(#[trigger] bit32(w, j)),
    ensures
        ones_from32(w, a) == ones_from32(w, b),
    decreases b - a,
{
    if a < b {
        if a >= 32 {
            assert(ones_from32(w, a) == Seq::<u32>::empty());
            assert(ones_from32(w, b) == Seq::<u32>::empty());
        } else {
            lemma_ones_from32_skip(w, (a + 1) as u32, b);
        }
    }
}

/// Set-bit enumeration is exact: it holds precisely the indices at or
/// above `from` whose bits are one, in strictly ascending order (hence
/// without duplicates); over the whole word its count is the cardinality.
pub proof fn lemma_ones_from32_exact(w: u32, from: u32)
    ensures
        forall|k: u32| #[trigger]
            ones_from32(w, from).contains(k) <==> (from <= k < 32 && bit32(w, k)),
        forall|p: int, q: int|
            0 <= p < q < ones_from32(w, from).len() ==> #[trigger] ones_from32(w, from)[p]
                < #[trigger] ones_from32(w, from)[q],
    decreases 32 - from,
{
    if from < 32 {
        lemma_ones_from32_exact(w, (from + 1) as u32);
        let s = ones_from32(w, from);
        let rest = ones_from32(w, (from + 1) as u32);
        if bit32(w, from) {
            assert(s == seq![from] + rest);
            assert forall|k: u32| #[trigger] s.contains(k) implies (from <= k < 32 && bit32(
                w,
                k,
            )) by {
                let p = choose|p: int| 0 <= p < s.len() && s[p] == k;
                if p > 0 {
                    assert(rest[p - 1] == k);
                    assert(rest.contains(k));
                }
            }
            assert forall|k: u32| from <= k < 32 && bit32(w, k) implies #[trigger] s.contains(
                k,
            ) by {
                if k == from {
                    assert(s[0] == k);
                } else {
                    assert(rest.contains(k));
                    let p = choose|p: int| 0 <= p < rest.len() && rest[p] == k;
                    assert(s[p + 1] == k);
                }
            }
            assert forall|p: int, q: int| 0 <= p < q < s.len() implies #[trigger] s[p]
                < #[trigger] s[q] by {
                if p == 0 {
                    assert(rest.contains(rest[q - 1]));
                    assert(s[q] >= from + 1);
                } else {
                    assert(rest[p - 1] < rest[q - 1]);
                }
            }
        } else {
            assert(s == rest);
            assert forall|k: u32| from <= k < 32 && bit32(w, k) implies #[trigger] s.contains(
                k,
            ) by {
                assert(k != from);
            }
        }
    }
}

/// The binary rendering of `w` in most-significant-first order, one char
/// per bit.
pub open spec fn bits_chars(w: u32, from: u32) -> Seq<char>
    decreases 32 - from,
{
    if from >= 32 {
        Seq::empty()
    } else {
        seq![if bit32(w, from) { '1' } else { '0' }] + bits_chars(w, (from + 1) as u32)
    }
}

/// A fixed set of 32 bit positions.
#[derive(Copy, Clone, PartialEq, Eq, Structural, Debug)]
pub struct BitSet32 {
    pub value: u32,
}

impl BitSet32 {
    /// Membership of position `i`.
    pub open spec fn spec_get(&self, i: u32) -> bool {
        i < 32 && bit32(self.value, i)
    }

    pub fn new() -> (r: Self)
        ensures
            r.value == 0u32,
            forall|i: u32| !(#[trigger] r.spec_get(i)),
    {
        proof {
            assert forall|i: u32| i < 32 implies !bit32(0u32, i) by {
                lemma_bit32_zero(i);
            }
        }
        BitSet32 { value: 0 }
    }

    pub fn add(&mut self, i: u32)
        requires
            i < 32,
        ensures
            final(self).spec_get(i),
            forall|j: u32| j != i ==> #[trigger] final(self).spec_get(j) == old(self).spec_get(j),
    {
        proof {
            lemma_bit32_or(self.value, i);
        }
        self.value = self.value | (0x80000000u32 >> i);
    }

    pub fn remove(&mut self, i: u32)
        requires
            i < 32,
        ensures
            !final(self).spec_get(i),
            forall|j: u32| j != i ==> #[trigger] final(self).spec_get(j) == old(self).spec_get(j),
    {
        proof {
            lemma_bit32_clear(self.value, i);
        }
        self.value = self.value & !(0x80000000u32 >> i);
    }

    pub fn clear(&mut self)
        ensures
            forall|i: u32| !(#[trigger] final(self).spec_get(i)),
    {
        proof {
            assert forall|i: u32| i < 32 implies !bit32(0u32, i) by {
                lemma_bit32_zero(i);
            }
        }
        self.value = 0;
    }

    pub fn set(&mut self, i: u32, v: bool)
        requires
            i < 32,
        ensures
            final(self).spec_get(i) == v,
            forall|j: u32| j != i ==> #[trigger] final(self).spec_get(j) == old(self).spec_get(j),
    {
        match v {
            true => self.add(i),
            false => self.remove(i),
        }
    }

    pub fn get(&self, i: u32) -> (r: bool)
        requires
            i < 32,
        ensures
            r == self.spec_get(i),
    {
        proof {
            lemma_bit32_test(self.value, i);
        }
        self.value & (0x80000000u32 >> i) > 0
    }

    pub fn iter(&self) -> (it: Iter32)
        ensures
            it.value == self.value,
            it.i == 0,
    {
        Iter32::new(self)
    }

    pub fn iter_ones(&self) -> (it: IndexIter32)
        ensures
            it.value == self.value,
            it.i == 0,
    {
        IndexIter32::new(self)
    }

    /// Population count, by a bit-by-bit scan of the word.
    pub fn cardinality(&self) -> (r: u32)
        ensures
            r == spec_cardinality(self.value),
    {
        let mut count: u32 = 0;
        let mut i: u32 = 0;
        while i < 32
            invariant
                i <= 32,
                count <= i,
                count + ones_from32(self.value, i).len() == spec_cardinality(self.value),
            decreases 32 - i,
        {
            if self.get(i) {
                count = count + 1;
            }
            i = i + 1;
        }
        count
    }

    /// The rendering the set shows when printed: the word as 32 binary
    /// digits, most significant first.
    pub fn describe(&self) -> (r: String)
        ensures
            r@ == "BitSet32("@ + bits_chars(self.value, 0) + ")"@,
    {
        let mut s = String::new();
        s.append("BitSet32(");
        proof {
            assert(s@ =~= "BitSet32("@ + bits_chars(self.value, 0).take(0));
        }
        let mut i: u32 = 0;
        while i < 32
            invariant
                i <= 32,
                s@ == "BitSet32("@ + bits_chars(self.value, 0).take(i as int),
            decreases 32 - i,
        {
            if self.get(i) {
                s.append("1");
            } else {
                s.append("0");
            }
            proof {
                lemma_bits_chars_take(self.value, 0, (i + 1) as u32);
                lemma_bits_chars_take(self.value, 0, i);
                assert(bits_chars(self.value, 0).take(i + 1) =~= bits_chars(self.value, 0).take(
                    i as int,
                ) + seq![if bit32(self.value, i) { '1' } else { '0' }]);
                reveal_strlit("1");
                reveal_strlit("0");
                assert(s@ =~= "BitSet32("@ + bits_chars(self.value, 0).take(i + 1));
            }
            i = i + 1;
        }
        s.append(")");
        proof {
            lemma_bits_chars_take(self.value, 0, 32);
            assert(bits_chars(self.value, 0).take(32) =~= bits_chars(self.value, 0));
        }
        s
    }
}

/// The bit characters of positions `from + p` stand at offsets `p` of the
/// rendering suffix; in particular the whole rendering has one char per
/// remaining position.
proof fn lemma_bits_chars_take(w: u32, from: u32, upto: u32)
    requires
        from <= upto <= 32,
    ensures
        bits_chars(w, from).len() == 32 - from,
        forall|p: int|
            0 <= p < 32 - from ==> #[trigger] bits_chars(w, from)[p] == (if bit32(
                w,
                (from + p) as u32,
            ) {
                '1'
            } else {
                '0'
            }),
    decreases 32 - from,
{
    if from < 32 {
        lemma_bits_chars_take(w, (from + 1) as u32, if upto > from + 1 {
            upto
        } else {
            (from + 1) as u32
        });
    }
}

/// Iterator over the 32 positions of a [`BitSet32`] in index order,
/// yielding one bool per position.
pub struct Iter32 {
    pub value: u32,
    pub i: u32,
}

impl Iter32 {
    pub fn new(bitset: &BitSet32) -> (it: Self)
        ensures
            it.value == bitset.value,
            it.i == 0,
    {
        Iter32 { value: bitset.value, i: 0 }
    }

    /// Yields `get(i)` for each `i` below 32, in ascending order.
    pub fn next(&mut self) -> (r: Option<bool>)
        ensures
            final(self).value == old(self).value,
            if old(self).i < 32 {
                r == Some((BitSet32 { value: old(self).value }).spec_get(old(self).i))
                    && final(self).i == old(self).i + 1
            } else {
                r == None::<bool> && final(self).i == old(self).i
            },
    {
        let i = self.i;
        if i < 32 {
            proof {
                lemma_bit32_test(self.value, i);
            }
            self.i = i + 1;
            Some(self.value & (0x80000000u32 >> i) > 0)
        } else {
            None
        }
    }
}

/// Iterator over the indices of the set bits of a [`BitSet32`], ascending.
pub struct IndexIter32 {
    pub value: u32,
    pub i: u32,
}

impl IndexIter32 {
    /// The set bits the iterator has not yet yielded.
    pub open spec fn remaining(&self) -> Seq<u32> {
        ones_from32(self.value, self.i)
    }

    pub open spec fn wf(&self) -> bool {
        self.i <= 32
    }

    pub fn new(bitset: &BitSet32) -> (it: Self)
        ensures
            it.value == bitset.value,
            it.i == 0,
            it.wf(),
    {
        IndexIter32 { value: bitset.value, i: 0 }
    }

    /// Scans forward from the cursor to the next set bit.
    pub fn next(&mut self) -> (r: Option<u32>)
        requires
            old(self).wf(),
        ensures
            final(self).wf(),
            final(self).value == old(self).value,
            match r {
                Some(k) => {
                    &&& old(self).i <= k < 32
                    &&& bit32(old(self).value, k)
                    &&& forall|j: u32| old(self).i <= j < k ==> !(#[trigger] bit32(old(self).value, j))
                    &&& final(self).i == k + 1
                    &&& old(self).remaining() == seq![k] + final(self).remaining()
                },
                None => {
                    &&& forall|j: u32| old(self).i <= j < 32 ==> !(#[trigger] bit32(old(self).value, j))
                    &&& old(self).remaining() == Seq::<u32>::empty()
                },
            },
    {
        let i = self.i;
        if i < 32 {
            let v = self.value & (0xffff_ffffu32 >> i);
            proof {
                lemma_bit32_mask_low(self.value, i);
            }
            if v > 0 {
                let lz = v.leading_zeros();
                proof {
                    lemma_leading_bit32(v);
                    assert(bit32(self.value & (0xffff_ffffu32 >> i), lz) == (lz >= i && bit32(
                        self.value,
                        lz,
                    )));
                    assert forall|j: u32| i <= j < lz implies !(#[trigger] bit32(
                        self.value,
                        j,
                    )) by {
                        assert(!bit32(v, j));
                        assert(bit32(self.value & (0xffff_ffffu32 >> i), j) == (j >= i && bit32(
                            self.value,
                            j,
                        )));
                    }
                    lemma_ones_from32_skip(self.value, i, lz);
                    assert(ones_from32(self.value, lz) == seq![lz] + ones_from32(
                        self.value,
                        (lz + 1) as u32,
                    ));
                }
                self.i = lz + 1;
                Some(lz)
            } else {
                proof {
                    assert forall|j: u32| i <= j < 32 implies !(#[trigger] bit32(
                        self.value,
                        j,
                    )) by {
                        lemma_bit32_zero(j);
                        assert(bit32(self.value & (0xffff_ffffu32 >> i), j) == (j >= i && bit32(
                            self.value,
                            j,
                        )));
                    }
                    lemma_ones_from32_skip(self.value, i, 32);
                    assert(ones_from32(self.value, 32) == Seq::<u32>::empty());
                }
                self.i = 32;
                None
            }
        } else {
            proof {
                assert(ones_from32(self.value, self.i) == Seq::<u32>::empty());
            }
            None
        }
    }
}

} // verus!
