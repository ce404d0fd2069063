//! The letter-indexed board: for every letter, the set of cells holding
//! it, and for every cell and letter, an 8-bit mask of the compass
//! directions whose neighbor holds that letter.
//!
//! Mask bits stand for directions most-significant-bit first: bit 7 is NW
//! and bit 0 is SE, so direction `d` is bit `7 - d`.

use vstd::prelude::*;
use vstd::std_specs::bits::u8_leading_zeros;
use vstd::std_specs::bits::axiom_u8_leading_zeros;
use crate::bitset::BitSet;
use crate::bitset::IndexIter;
use crate::grid::adjacent;
use crate::grid::has_nbr;
use crate::grid::letter_neighbors;
use crate::grid::letter_neighbors_from;
use crate::grid::nbr;
use crate::grid::nbr_index;
use crate::grid::lemma_nbr_symmetric;
use crate::simple_board::SimpleBoggleBoard;

verus! {

/// Bit of mask `m` for direction `d` (NW is the top bit).
pub open spec fn mask_bit(m: u8, d: u8) -> bool
    recommends
        d < 8,
{
    (m >> ((7 - d) as u8)) & 1u8 == 1u8
}

proof fn lemma_mask_zero(d: u8)
    by (bit_vector)
    requires
        d < 8,
    ensures
        !mask_bit(0u8, d),
{
}

proof fn lemma_mask_or(m: u8, b: u8)
    by (bit_vector)
    requires
        b < 8,
    ensures
        forall|dd: u8|
            dd < 8 ==> #[trigger] mask_bit(m | (1u8 << b), dd) == (dd == 7 - b || mask_bit(m, dd)),
{
}

proof fn lemma_mask_clear_top(m: u8, b: u8)
    by (bit_vector)
    requires
        b < 8,
    ensures
        forall|dd: u8|
            dd < 8 ==> #[trigger] mask_bit(m & !(0x80u8 >> b), dd) == (dd != b && mask_bit(m, dd)),
{
}

/// The leading-zero count of a nonzero mask names its first set direction.
proof fn lemma_mask_leading(m: u8)
    requires
        m != 0,
    ensures
        u8_leading_zeros(m) < 8,
        mask_bit(m, u8_leading_zeros(m) as u8),
        forall|dd: u8| dd < u8_leading_zeros(m) ==> !#[trigger] mask_bit(m, dd),
{
    axiom_u8_leading_zeros(m);
    let lz = u8_leading_zeros(m) as u8;
    assert(lz < 8 ==> ((m >> ((7 - lz) as u8)) & 1u8 != 0 ==> mask_bit(m, lz))) by (bit_vector);
    assert forall|dd: u8| dd < lz implies !#[trigger] mask_bit(m, dd) by {
        assert((m >> ((7 - dd) as u8)) & 1u8 == 0u8) by {
            assert(8 - u8_leading_zeros(m) <= (7 - dd) as u8);
            assert(((7 - dd) as u8) < 8);
        }
    }
}

/// The neighbors a mask stands for, for directions `d` and beyond, in
/// canonical direction order.
pub open spec fn mask_neighbors_from(m: u8, w: int, h: int, i: int, d: int) -> Seq<usize>
    decreases 8 - d,
{
    if !(0 <= d < 8) {
        Seq::empty()
    } else {
        (if mask_bit(m, d as u8) {
            seq![nbr(w, h, i, d) as usize]
        } else {
            Seq::empty()
        }) + mask_neighbors_from(m, w, h, i, d + 1)
    }
}

/// A stretch of unset directions contributes nothing.
proof fn lemma_mask_nbrs_skip(m: u8, w: int, h: int, i: int, a: int, b: int)
    requires
        0 <= a <= b,
        forall|dd: u8| a <= dd < b ==> !(#[trigger] mask_bit(m, dd)),
    ensures
        mask_neighbors_from(m, w, h, i, a) == mask_neighbors_from(m, w, h, i, b),
    decreases b - a,
{
    if a < b {
        if a >= 8 {
            assert(mask_neighbors_from(m, w, h, i, a) == Seq::<usize>::empty());
            assert(mask_neighbors_from(m, w, h, i, b) == Seq::<usize>::empty());
        } else {
            assert(!mask_bit(m, a as u8));
            lemma_mask_nbrs_skip(m, w, h, i, a + 1, b);
        }
    }
}

/// Masks that agree on the directions at or beyond `d` enumerate the same
/// neighbors there.
proof fn lemma_mask_nbrs_agree(m1: u8, m2: u8, w: int, h: int, i: int, d: int)
    requires
        forall|dd: u8| 0 <= dd < 8 && dd >= d ==> #[trigger] mask_bit(m1, dd) == mask_bit(m2, dd),
    ensures
        mask_neighbors_from(m1, w, h, i, d) == mask_neighbors_from(m2, w, h, i, d),
    decreases 8 - d,
{
    if 0 <= d < 8 {
        assert(mask_bit(m1, d as u8) == mask_bit(m2, d as u8));
        lemma_mask_nbrs_agree(m1, m2, w, h, i, d + 1);
    }
}

/// A mask that mirrors the grid enumerates exactly the letter-filtered
/// neighbors.
proof fn lemma_mask_matches_letter(
    m: u8,
    w: int,
    h: int,
    g: Seq<Option<u8>>,
    i: int,
    v: u8,
    d: int,
)
    requires
        forall|dd: u8|
            dd < 8 ==> (#[trigger] mask_bit(m, dd) <==> has_nbr(w, h, i, dd as int) && g[nbr(
                w,
                h,
                i,
                dd as int,
            )] == Some(v)),
    ensures
        mask_neighbors_from(m, w, h, i, d) == letter_neighbors_from(w, h, g, i, v, d),
    decreases 8 - d,
{
    if 0 <= d < 8 {
        assert(mask_bit(m, d as u8) == (has_nbr(w, h, i, d) && g[nbr(w, h, i, d)] == Some(v)));
        lemma_mask_matches_letter(m, w, h, g, i, v, d + 1);
    }
}

/// The letter-indexed board.  The grid it was built from is kept as a
/// ghost so the indexes can be stated against it; each cell is `None`
/// until a letter is placed on it.
pub struct RadixBoggleBoard {
    pub width: usize,
    pub height: usize,
    pub alpha: Vec<BitSet>,
    pub masks: Vec<Vec<u8>>,
    pub grid: Ghost<Seq<Option<u8>>>,
}

impl RadixBoggleBoard {
    /// Both indexes mirror the ghost grid exactly: letter `v`'s bit set
    /// holds the cells where the grid holds `v`, and the mask bit of cell
    /// `c` for letter `v` and direction `d` is set exactly when `c`'s
    /// neighbor in direction `d` exists and holds `v`.
    pub open spec fn wf(&self) -> bool {
        &&& self.width >= 1
        &&& self.height >= 1
        &&& self.width * self.height <= usize::MAX
        &&& self.grid@.len() == self.width * self.height
        &&& (forall|c: int| 0 <= c < self.grid@.len() && self.grid@[c] is Some ==> (
        #[trigger] self.grid@[c])->0 < 26)
        &&& self.alpha@.len() == 26
        &&& (forall|v: int| 0 <= v < 26 ==> (#[trigger] self.alpha@[v]).wf())
        &&& (forall|v: int, ii: nat|
            0 <= v < 26 ==> ((#[trigger] self.alpha@[v].spec_get(ii)) <==> ii < self.width
                * self.height && self.grid@[ii as int] == Some(v as u8)))
        &&& self.masks@.len() == self.width * self.height
        &&& (forall|c: int| 0 <= c < self.masks@.len() ==> (#[trigger] self.masks@[c])@.len() == 26)
        &&& (forall|c: int, v: int, d: u8|
            0 <= c < self.masks@.len() && 0 <= v < 26 && d < 8 ==> ((#[trigger] mask_bit(
                self.masks@[c]@[v],
                d,
            )) <==> has_nbr(self.width as int, self.height as int, c, d as int) && self.grid@[nbr(
                self.width as int,
                self.height as int,
                c,
                d as int,
            )] == Some(v as u8)))
    }

    pub fn new(width: usize, height: usize) -> (r: Self)
        requires
            width >= 1,
            height >= 1,
            width * height <= usize::MAX,
        ensures
            r.wf(),
            r.width == width,
            r.height == height,
            r.grid@ == Seq::new((width * height) as nat, |c: int| None::<u8>),
    {
        let mut alpha: Vec<BitSet> = Vec::new();
        let mut k: usize = 0;
        while k < 26
            invariant
                k <= 26,
                alpha@.len() == k,
                forall|v: int|
                    0 <= v < k ==> (#[trigger] alpha@[v]).wf() && forall|ii: nat|
                        !(#[trigger] alpha@[v].spec_get(ii)),
            decreases 26 - k,
        {
            alpha.push(BitSet::new());
            k = k + 1;
        }
        let n = width * height;
        let mut masks: Vec<Vec<u8>> = Vec::new();
        let mut c: usize = 0;
        while c < n
            invariant
                c <= n,
                masks@.len() == c,
                forall|cc: int|
                    0 <= cc < c ==> (#[trigger] masks@[cc])@.len() == 26 && forall|v: int|
                        0 <= v < 26 ==> (#[trigger] masks@[cc]@[v]) == 0u8,
            decreases n - c,
        {
            let mut row: Vec<u8> = Vec::new();
            let mut v: usize = 0;
            while v < 26
                invariant
                    v <= 26,
                    row@.len() == v,
                    forall|vv: int| 0 <= vv < v ==> (#[trigger] row@[vv]) == 0u8,
                decreases 26 - v,
            {
                row.push(0);
                v = v + 1;
            }
            masks.push(row);
            c = c + 1;
        }
        let r = RadixBoggleBoard {
            width,
            height,
            alpha,
            masks,
            grid: Ghost(Seq::new((width * height) as nat, |c: int| None::<u8>)),
        };
        proof {
            assert forall|c2: int, v: int, d: u8|
                0 <= c2 < r.masks@.len() && 0 <= v < 26 && d < 8 implies ((#[trigger] mask_bit(
                r.masks@[c2]@[v],
                d,
            )) <==> has_nbr(r.width as int, r.height as int, c2, d as int) && r.grid@[nbr(
                r.width as int,
                r.height as int,
                c2,
                d as int,
            )] == Some(v as u8)) by {
                lemma_mask_zero(d);
                assert(r.masks@[c2]@[v] == 0u8);
                if has_nbr(r.width as int, r.height as int, c2, d as int) {
                    lemma_nbr_symmetric(r.width as int, r.height as int, c2, d as int);
                    assert(r.grid@[nbr(r.width as int, r.height as int, c2, d as int)]
                        is None);
                }
            }
            assert(r.wf());
        }
        r
    }

    /// Builds the indexes from a filled plain board.
    pub fn from(src: &SimpleBoggleBoard) -> (r: Self)
        requires
            src.wf(),
        ensures
            r.wf(),
            r.width == src.width,
            r.height == src.height,
            r.grid@ == src.grid(),
    {
        let mut dst = Self::new(src.width(), src.height());
        let cells = src.iter();
        let n = cells.len();
        let mut i: usize = 0;
        while i < n
            invariant
                i <= n,
                src.wf(),
                cells@ == src.cells@,
                n == src.cells@.len(),
                dst.wf(),
                dst.width == src.width,
                dst.height == src.height,
                dst.grid@.len() == n,
                forall|c: int|
                    0 <= c < n ==> #[trigger] dst.grid@[c] == if c < i {
                        Some(src.cells@[c])
                    } else {
                        None::<u8>
                    },
            decreases n - i,
        {
            let v = cells[i];
            proof {
                assert(src.cells@[i as int] < 26);
            }
            dst.set(i, v);
            i = i + 1;
        }
        proof {
            assert(dst.grid@ =~= src.grid());
        }
        dst
    }

    /// The cells holding letter `v`, as an ascending index iterator over
    /// letter `v`'s bit set.
    pub fn any(&self, v: u8) -> (it: IndexIter)
        requires
            self.wf(),
            v < 26,
        ensures
            it.wf(),
            it.pos() == 0,
            *it.bitset == self.alpha@[v as int],
    {
        self.alpha[v as usize].iter_ones()
    }

    /// The neighbors of cell `i` holding letter `v`, decoded lazily from
    /// the cell's mask in canonical direction order.
    pub fn neighbors(&self, i: usize, v: u8) -> (it: RadixNeighborIter)
        requires
            self.wf(),
            i < self.width * self.height,
            v < 26,
        ensures
            it.wf(),
            it.remaining() == letter_neighbors(
                self.width as int,
                self.height as int,
                self.grid@,
                i as int,
                v,
            ),
            it.idx == i,
            it.width == self.width,
            it.height@ == self.height as int,
            it.grid@ == self.grid@,
            it.letter@ == v,
    {
        let row = &self.masks[i];
        let m = row[v as usize];
        let it = RadixNeighborIter {
            value: m,
            idx: i,
            width: self.width,
            height: Ghost(self.height as int),
            grid: Ghost(self.grid@),
            letter: Ghost(v),
        };
        proof {
            lemma_mask_matches_letter(
                m,
                self.width as int,
                self.height as int,
                self.grid@,
                i as int,
                v,
                0,
            );
        }
        it
    }

    /// Sets the bit for `mask` in cell `i`'s mask for letter `v`.
    fn mask_cell(&mut self, v: usize, i: usize, mask: u8)
        requires
            i < old(self).masks@.len(),
            v < old(self).masks@[i as int]@.len(),
        ensures
            final(self).masks@.len() == old(self).masks@.len(),
            final(self).masks@[i as int]@ == old(self).masks@[i as int]@.update(
                v as int,
                old(self).masks@[i as int]@[v as int] | mask,
            ),
            forall|c: int|
                0 <= c < old(self).masks@.len() && c != i ==> #[trigger] final(self).masks@[c]
                    == old(self).masks@[c],
            final(self).width == old(self).width,
            final(self).height == old(self).height,
            final(self).alpha == old(self).alpha,
            final(self).grid == old(self).grid,
    {
        let row = &mut self.masks[i];
        let m = row[v];
        row.set(v, m | mask);
    }

    /// Places letter `v` on cell `i` of the underlying grid: records the
    /// cell in `v`'s bit set, and marks `v`'s direction bit in the mask of
    /// each geometric neighbor of `i`.
    pub fn set(&mut self, i: usize, v: u8)
        requires
            old(self).wf(),
            i < old(self).width * old(self).height,
            v < 26,
            old(self).grid@[i as int] is None,
        ensures
            final(self).wf(),
            final(self).width == old(self).width,
            final(self).height == old(self).height,
            final(self).grid@ == old(self).grid@.update(i as int, Some(v)),
    {
        let ghost g0 = self.grid@;
        let ghost g1 = self.grid@.update(i as int, Some(v));
        let w = self.width;
        let h = self.height;
        let a = &mut self.alpha[v as usize];
        a.add(i);
        self.grid = Ghost(g1);
        proof {
            assert forall|vv: int, ii: nat| 0 <= vv < 26 implies ((#[trigger] self.alpha@[
            vv].spec_get(ii)) <==> ii < w * h && g1[ii as int] == Some(vv as u8)) by {
                if vv == v {
                    if ii == i {
                    } else {
                        assert(self.alpha@[vv].spec_get(ii) == old(self).alpha@[vv].spec_get(ii));
                    }
                } else {
                    assert(self.alpha@[vv] == old(self).alpha@[vv]);
                    if ii == i {
                        assert(g0[ii as int] is None);
                        assert(g1[ii as int] == Some(v));
                    }
                }
            }
        }
        let mut d: u8 = 0;
        while d < 8
            invariant
                d <= 8,
                w == self.width,
                h == self.height,
                w >= 1,
                h >= 1,
                i < w * h,
                v < 26,
                w * h <= usize::MAX,
                self.grid@ == g1,
                g1 == g0.update(i as int, Some(v)),
                g0.len() == w * h,
                g0[i as int] is None,
                forall|c: int| 0 <= c < g0.len() && g0[c] is Some ==> (#[trigger] g0[c])->0 < 26,
                self.alpha@.len() == 26,
                forall|vv: int| 0 <= vv < 26 ==> (#[trigger] self.alpha@[vv]).wf(),
                forall|vv: int, ii: nat|
                    0 <= vv < 26 ==> ((#[trigger] self.alpha@[vv].spec_get(ii)) <==> ii < w * h
                        && g1[ii as int] == Some(vv as u8)),
                self.masks@.len() == w * h,
                forall|c: int| 0 <= c < self.masks@.len() ==> (#[trigger] self.masks@[c])@.len() == 26,
                forall|c: int, vv: int, dd: u8|
                    0 <= c < self.masks@.len() && 0 <= vv < 26 && dd < 8 ==> ((#[trigger] mask_bit(
                        self.masks@[c]@[vv],
                        dd,
                    )) <==> (has_nbr(w as int, h as int, c, dd as int) && {
                        let t = nbr(w as int, h as int, c, dd as int);
                        if t == i && vv == v {
                            7 - dd < d
                        } else {
                            g0[t] == Some(vv as u8)
                        }
                    })),
            decreases 8 - d,
        {
            let ghost masks0 = self.masks@;
            match nbr_index(w, h, i, d) {
                Some(j) => {
                    proof {
                        lemma_nbr_symmetric(w as int, h as int, i as int, d as int);
                    }
                    self.mask_cell(v as usize, j, 1u8 << d);
                    proof {
                        let jj = j as int;
                        lemma_mask_or(masks0[jj]@[v as int], d);
                        assert forall|c: int, vv: int, dd: u8|
                            0 <= c < self.masks@.len() && 0 <= vv < 26 && dd < 8 implies ((
                        #[trigger] mask_bit(self.masks@[c]@[vv], dd)) <==> (has_nbr(
                            w as int,
                            h as int,
                            c,
                            dd as int,
                        ) && {
                            let t = nbr(w as int, h as int, c, dd as int);
                            if t == i && vv == v {
                                7 - dd < d + 1
                            } else {
                                g0[t] == Some(vv as u8)
                            }
                        })) by {
                            if has_nbr(w as int, h as int, c, dd as int) {
                                lemma_nbr_symmetric(w as int, h as int, c, dd as int);
                            }
                            if c == jj && vv == v {
                                assert(self.masks@[c]@[vv] == (masks0[jj]@[v as int] | (1u8
                                    << d)));
                                if dd == 7 - d {
                                    assert(mask_bit(self.masks@[c]@[vv], dd));
                                    assert(has_nbr(w as int, h as int, c, dd as int) && nbr(
                                        w as int,
                                        h as int,
                                        c,
                                        dd as int,
                                    ) == i);
                                } else {
                                    assert(mask_bit(self.masks@[c]@[vv], dd) == mask_bit(
                                        masks0[jj]@[v as int],
                                        dd,
                                    ));
                                }
                            } else {
                                if c == jj {
                                    assert(self.masks@[c]@[vv] == masks0[c]@[vv]);
                                } else {
                                    assert(self.masks@[c] == masks0[c]);
                                }
                                if has_nbr(w as int, h as int, c, dd as int) && nbr(
                                    w as int,
                                    h as int,
                                    c,
                                    dd as int,
                                ) == i && vv == v && 7 - dd == d {
                                    assert(c == nbr(w as int, h as int, i as int, d as int));
                                    assert(false);
                                }
                            }
                        }
                    }
                },
                None => {
                    proof {
                        assert forall|c: int, vv: int, dd: u8|
                            0 <= c < self.masks@.len() && 0 <= vv < 26 && dd < 8 implies ((
                        #[trigger] mask_bit(self.masks@[c]@[vv], dd)) <==> (has_nbr(
                            w as int,
                            h as int,
                            c,
                            dd as int,
                        ) && {
                            let t = nbr(w as int, h as int, c, dd as int);
                            if t == i && vv == v {
                                7 - dd < d + 1
                            } else {
                                g0[t] == Some(vv as u8)
                            }
                        })) by {
                            if has_nbr(w as int, h as int, c, dd as int) && nbr(
                                w as int,
                                h as int,
                                c,
                                dd as int,
                            ) == i && vv == v && 7 - dd == d {
                                lemma_nbr_symmetric(w as int, h as int, c, dd as int);
                                assert(has_nbr(w as int, h as int, i as int, d as int));
                                assert(false);
                            }
                        }
                    }
                },
            }
            d = d + 1;
        }
        proof {
            assert forall|c: int, vv: int, dd: u8|
                0 <= c < self.masks@.len() && 0 <= vv < 26 && dd < 8 implies ((#[trigger] mask_bit(
                self.masks@[c]@[vv],
                dd,
            )) <==> has_nbr(w as int, h as int, c, dd as int) && g1[nbr(
                w as int,
                h as int,
                c,
                dd as int,
            )] == Some(vv as u8)) by {
                if has_nbr(w as int, h as int, c, dd as int) {
                    let t = nbr(w as int, h as int, c, dd as int);
                    lemma_nbr_symmetric(w as int, h as int, c, dd as int);
                    if t == i && vv == v {
                    } else if t == i {
                        assert(g0[t] is None);
                        assert(g1[t] == Some(v));
                    } else {
                        assert(g1[t] == g0[t]);
                    }
                }
            }
            assert forall|c: int| 0 <= c < g1.len() && g1[c] is Some implies (
            #[trigger] g1[c])->0 < 26 by {
                if c != i {
                    assert(g1[c] == g0[c]);
                }
            }
            assert(self.wf());
        }
    }
}

/// Iterator over the neighbors a cell's mask records for one letter, in
/// canonical direction order; consumed bits are cleared as it advances.
pub struct RadixNeighborIter {
    pub value: u8,
    pub idx: usize,
    pub width: usize,
    pub height: Ghost<int>,
    pub grid: Ghost<Seq<Option<u8>>>,
    pub letter: Ghost<u8>,
}

impl RadixNeighborIter {
    /// Every still-set direction names an existing neighbor that holds the
    /// letter.
    pub open spec fn wf(&self) -> bool {
        &&& self.width >= 1
        &&& self.height@ >= 1
        &&& self.idx < self.width * self.height@
        &&& self.width * self.height@ <= usize::MAX
        &&& self.grid@.len() == self.width * self.height@
        &&& (forall|dd: u8|
            dd < 8 && #[trigger] mask_bit(self.value, dd) ==> has_nbr(
                self.width as int,
                self.height@,
                self.idx as int,
                dd as int,
            ) && self.grid@[nbr(self.width as int, self.height@, self.idx as int, dd as int)]
                == Some(self.letter@))
    }

    /// The neighbors not yet yielded, in canonical direction order.
    pub open spec fn remaining(&self) -> Seq<usize> {
        mask_neighbors_from(self.value, self.width as int, self.height@, self.idx as int, 0)
    }

    /// Yields the next recorded neighbor: the head of `remaining()`, whose
    /// cell holds the letter the iterator was made for.
    pub fn next(&mut self) -> (r: Option<usize>)
        requires
            old(self).wf(),
        ensures
            final(self).wf(),
            final(self).idx == old(self).idx,
            final(self).width == old(self).width,
            final(self).height == old(self).height,
            final(self).grid == old(self).grid,
            final(self).letter == old(self).letter,
            match r {
                Some(k) => {
                    &&& old(self).remaining() == seq![k] + final(self).remaining()
                    &&& k < old(self).width * old(self).height@
                    &&& old(self).grid@[k as int] == Some(old(self).letter@)
                    &&& adjacent(old(self).width as int, old(self).height@, old(self).idx as int, k as int)
                    &&& k != old(self).idx
                },
                None => {
                    &&& old(self).remaining() == Seq::<usize>::empty()
                    &&& final(self).remaining() == Seq::<usize>::empty()
                },
            },
    {
        let lz32 = self.value.leading_zeros();
        if lz32 >= 8 {
            proof {
                axiom_u8_leading_zeros(self.value);
                assert(self.value == 0);
                assert forall|dd: u8| 0 <= dd < 8 implies !(#[trigger] mask_bit(
                    self.value,
                    dd,
                )) by {
                    lemma_mask_zero(dd);
                }
                lemma_mask_nbrs_skip(
                    self.value,
                    self.width as int,
                    self.height@,
                    self.idx as int,
                    0,
                    8,
                );
                assert(mask_neighbors_from(
                    self.value,
                    self.width as int,
                    self.height@,
                    self.idx as int,
                    8,
                ) == Seq::<usize>::empty());
            }
            None
        } else {
            let d = lz32 as u8;
            proof {
                lemma_mask_leading(self.value);
                assert(mask_bit(self.value, d));
            }
            let ghost wi = self.width as int;
            let ghost hi = self.height@;
            let ghost ii = self.idx as int;
            proof {
                lemma_nbr_symmetric(wi, hi, ii, d as int);
                crate::grid::lemma_rowcol(wi, hi, ii);
                assert(self.idx / self.width < hi && (self.idx / self.width) * self.width
                    + self.idx % self.width == self.idx) by (nonlinear_arith)
                    requires
                        self.width >= 1,
                        hi >= 1,
                        self.idx < self.width * hi,
                        wi == self.width,
                        ii == self.idx,
                ;
                assert((ii / wi + 1) * wi + ii % wi == ii + wi && (ii / wi - 1) * wi + ii % wi == ii
                    - wi) by (nonlinear_arith)
                    requires
                        wi >= 1,
                ;
            }
            let row = self.idx / self.width;
            let col = self.idx % self.width;
            let j = match d {
                0 => self.idx - self.width - 1,
                1 => self.idx - self.width,
                2 => self.idx - self.width + 1,
                3 => self.idx - 1,
                4 => self.idx + 1,
                5 => self.idx + self.width - 1,
                6 => self.idx + self.width,
                _ => self.idx + self.width + 1,
            };
            proof {
                assert(j == nbr(wi, hi, ii, d as int));
                assert(j < wi * hi);
                assert(adjacent(wi, hi, ii, j as int)) by {
                    assert(0 <= d < 8 && has_nbr(wi, hi, ii, d as int) && nbr(wi, hi, ii, d as int)
                        == j);
                }
            }
            let ghost val0 = self.value;
            self.value = self.value & !(0x80u8 >> d);
            proof {
                lemma_mask_clear_top(val0, d);
                lemma_mask_nbrs_skip(val0, wi, hi, ii, 0, d as int);
                assert(mask_neighbors_from(val0, wi, hi, ii, d as int) == seq![j]
                    + mask_neighbors_from(val0, wi, hi, ii, d as int + 1));
                lemma_mask_nbrs_agree(self.value, val0, wi, hi, ii, d as int + 1);
                lemma_mask_nbrs_skip(self.value, wi, hi, ii, 0, d as int + 1);
            }
            Some(j)
        }
    }
}

} // verus!
