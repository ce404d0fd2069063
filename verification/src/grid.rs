//! Grid geometry: cells of a `width × height` board, numbered row-major,
//! and their up to eight compass neighbors.
//!
//! Directions are numbered in the canonical order NW, N, NE, W, E, SW, S,
//! SE; the opposite of direction `d` is `7 - d`.

use vstd::prelude::*;

verus! {

/// The row of cell `i` on a board `w` cells wide.
pub open spec fn spec_row(w: int, i: int) -> int {
    i / w
}

/// The column of cell `i` on a board `w` cells wide.
pub open spec fn spec_col(w: int, i: int) -> int {
    i % w
}

/// Row offset of direction `d`.
pub open spec fn dir_dr(d: int) -> int {
    if d <= 2 {
        -1
    } else if d <= 4 {
        0
    } else {
        1
    }
}

/// Column offset of direction `d`.
pub open spec fn dir_dc(d: int) -> int {
    if d == 0 || d == 3 || d == 5 {
        -1
    } else if d == 1 || d == 6 {
        0
    } else {
        1
    }
}

/// The neighbor of cell `i` in direction `d` exists on the grid.
pub open spec fn has_nbr(w: int, h: int, i: int, d: int) -> bool
    recommends
        w >= 1,
        0 <= i,
        0 <= d < 8,
{
    &&& 0 <= spec_row(w, i) + dir_dr(d) < h
    &&& 0 <= spec_col(w, i) + dir_dc(d) < w
}

/// The cell index of `i`'s neighbor in direction `d`.
pub open spec fn nbr(w: int, h: int, i: int, d: int) -> int
    recommends
        has_nbr(w, h, i, d),
{
    (spec_row(w, i) + dir_dr(d)) * w + (spec_col(w, i) + dir_dc(d))
}

/// `b` is a geometric neighbor of `a` under the 8-neighbor rule.
pub open spec fn adjacent(w: int, h: int, a: int, b: int) -> bool {
    exists|d: int| 0 <= d < 8 && has_nbr(w, h, a, d) && nbr(w, h, a, d) == b
}

/// Row-major numbering: a cell is its row times the width plus its column,
/// and in-range cells have in-range rows and columns.
pub proof fn lemma_rowcol(w: int, h: int, i: int)
    requires
        w >= 1,
        h >= 1,
        0 <= i < w * h,
    ensures
        i == spec_row(w, i) * w + spec_col(w, i),
        0 <= spec_row(w, i) < h,
        0 <= spec_col(w, i) < w,
{
    assert(i == (i / w) * w + (i % w) && 0 <= i % w < w && 0 <= i / w < h) by (nonlinear_arith)
        requires
            w >= 1,
            h >= 1,
            0 <= i < w * h,
    ;
}

/// Row-major numbering is injective on rows and columns.
pub proof fn lemma_cell_id(w: int, r: int, c: int)
    requires
        w >= 1,
        0 <= c < w,
        0 <= r,
    ensures
        spec_row(w, r * w + c) == r,
        spec_col(w, r * w + c) == c,
        r * w + c >= 0,
{
    assert((r * w + c) / w == r && (r * w + c) % w == c && r * w + c >= 0) by (nonlinear_arith)
        requires
            w >= 1,
            0 <= c < w,
            0 <= r,
    ;
}

/// A cell's neighbor lies on the grid, differs from it, and has the cell
/// itself as its neighbor in the opposite direction.
pub proof fn lemma_nbr_symmetric(w: int, h: int, i: int, d: int)
    requires
        w >= 1,
        h >= 1,
        0 <= i < w * h,
        0 <= d < 8,
        has_nbr(w, h, i, d),
    ensures
        0 <= nbr(w, h, i, d) < w * h,
        nbr(w, h, i, d) != i,
        has_nbr(w, h, nbr(w, h, i, d), 7 - d),
        nbr(w, h, nbr(w, h, i, d), 7 - d) == i,
{
    lemma_rowcol(w, h, i);
    let r = spec_row(w, i);
    let c = spec_col(w, i);
    let r2 = r + dir_dr(d);
    let c2 = c + dir_dc(d);
    let j = nbr(w, h, i, d);
    lemma_cell_id(w, r2, c2);
    assert(j < w * h) by (nonlinear_arith)
        requires
            w >= 1,
            h >= 1,
            0 <= r2 < h,
            0 <= c2 < w,
            j == r2 * w + c2,
    ;
    assert(dir_dr(7 - d) == -dir_dr(d) && dir_dc(7 - d) == -dir_dc(d));
    assert(dir_dr(d) != 0 || dir_dc(d) != 0);
    if j == i {
        assert(r2 == r && c2 == c);
    }
    assert(nbr(w, h, j, 7 - d) == r * w + c);
    lemma_rowcol(w, h, i);
}

/// The adjacency relation is symmetric.
pub proof fn lemma_adjacent_symmetric(w: int, h: int, a: int, b: int)
    requires
        w >= 1,
        h >= 1,
        0 <= a < w * h,
        adjacent(w, h, a, b),
    ensures
        0 <= b < w * h,
        b != a,
        adjacent(w, h, b, a),
{
    let d = choose|d: int| 0 <= d < 8 && has_nbr(w, h, a, d) && nbr(w, h, a, d) == b;
    lemma_nbr_symmetric(w, h, a, d);
    assert(0 <= 7 - d < 8 && has_nbr(w, h, b, 7 - d) && nbr(w, h, b, 7 - d) == a);
}

/// The neighbor index of `i` in direction `d`, when that neighbor exists.
pub fn nbr_index(w: usize, h: usize, i: usize, d: u8) -> (r: Option<usize>)
    requires
        w >= 1,
        h >= 1,
        i < w * h,
        d < 8,
        w * h <= usize::MAX,
    ensures
        r == if has_nbr(w as int, h as int, i as int, d as int) {
            Some(nbr(w as int, h as int, i as int, d as int) as usize)
        } else {
            None::<usize>
        },
{
    proof {
        lemma_rowcol(w as int, h as int, i as int);
        assert(i / w < h && (i / w) * w + i % w == i) by (nonlinear_arith)
            requires
                w >= 1,
                h >= 1,
                i < w * h,
        ;
        assert((i / w + 1) * w + i % w == i + w && (i / w - 1) * w + i % w == i - w)
            by (nonlinear_arith)
            requires
                w >= 1,
        ;
        assert(i / w + 1 < h ==> (i / w + 1) * w + w <= w * h) by (nonlinear_arith)
            requires
                w >= 1,
                h >= 1,
        ;
    }
    let row = i / w;
    let col = i % w;
    match d {
        0 => if row > 0 && col > 0 {
            Some(i - w - 1)
        } else {
            None
        },
        1 => if row > 0 {
            Some(i - w)
        } else {
            None
        },
        2 => if row > 0 && col + 1 < w {
            Some(i - w + 1)
        } else {
            None
        },
        3 => if col > 0 {
            Some(i - 1)
        } else {
            None
        },
        4 => if col + 1 < w {
            Some(i + 1)
        } else {
            None
        },
        5 => if row + 1 < h && col > 0 {
            Some(i + w - 1)
        } else {
            None
        },
        6 => if row + 1 < h {
            Some(i + w)
        } else {
            None
        },
        _ => if row + 1 < h && col + 1 < w {
            Some(i + w + 1)
        } else {
            None
        },
    }
}

/// The neighbors of cell `i` holding letter `v`, for directions `d` and
/// beyond, in canonical direction order.
pub open spec fn letter_neighbors_from(
    w: int,
    h: int,
    g: Seq<Option<u8>>,
    i: int,
    v: u8,
    d: int,
) -> Seq<usize>
    decreases 8 - d,
{
    if !(0 <= d < 8) {
        Seq::empty()
    } else {
        (if has_nbr(w, h, i, d) && g[nbr(w, h, i, d)] == Some(v) {
            seq![nbr(w, h, i, d) as usize]
        } else {
            Seq::empty()
        }) + letter_neighbors_from(w, h, g, i, v, d + 1)
    }
}

/// The neighbors of cell `i` holding letter `v`, in canonical direction
/// order (NW, N, NE, W, E, SW, S, SE).
pub open spec fn letter_neighbors(w: int, h: int, g: Seq<Option<u8>>, i: int, v: u8) -> Seq<
    usize,
> {
    letter_neighbors_from(w, h, g, i, v, 0)
}

proof fn lemma_letter_neighbors_from_exact(
    w: int,
    h: int,
    g: Seq<Option<u8>>,
    i: int,
    v: u8,
    d: int,
)
    requires
        w >= 1,
        h >= 1,
        0 <= i < w * h,
        g.len() == w * h,
        w * h <= usize::MAX,
        0 <= d,
    ensures
        forall|k: usize| #[trigger]
            letter_neighbors_from(w, h, g, i, v, d).contains(k) <==> exists|dd: int|
                d <= dd < 8 && has_nbr(w, h, i, dd) && nbr(w, h, i, dd) == k && g[k as int]
                    == Some(v),
    decreases 8 - d,
{
    if 0 <= d < 8 {
        lemma_letter_neighbors_from_exact(w, h, g, i, v, d + 1);
        let s = letter_neighbors_from(w, h, g, i, v, d);
        let rest = letter_neighbors_from(w, h, g, i, v, d + 1);
        if has_nbr(w, h, i, d) {
            lemma_nbr_symmetric(w, h, i, d);
        }
        assert forall|k: usize| #[trigger] s.contains(k) implies exists|dd: int|
            d <= dd < 8 && has_nbr(w, h, i, dd) && nbr(w, h, i, dd) == k && g[k as int] == Some(
                v,
            ) by {
            let p = choose|p: int| 0 <= p < s.len() && s[p] == k;
            if has_nbr(w, h, i, d) && g[nbr(w, h, i, d)] == Some(v) {
                if p == 0 {
                    assert(has_nbr(w, h, i, d) && nbr(w, h, i, d) == k && g[k as int] == Some(v));
                } else {
                    assert(rest[p - 1] == k);
                    assert(rest.contains(k));
                }
            } else {
                assert(rest.contains(k));
            }
        }
        assert forall|k: usize|
            (exists|dd: int|
                d <= dd < 8 && has_nbr(w, h, i, dd) && nbr(w, h, i, dd) == k && g[k as int]
                    == Some(v)) implies #[trigger] s.contains(k) by {
            let dd = choose|dd: int|
                d <= dd < 8 && has_nbr(w, h, i, dd) && nbr(w, h, i, dd) == k && g[k as int]
                    == Some(v);
            if dd == d {
                assert(s[0] == k);
            } else {
                assert(rest.contains(k));
                let p = choose|p: int| 0 <= p < rest.len() && rest[p] == k;
                if has_nbr(w, h, i, d) && g[nbr(w, h, i, d)] == Some(v) {
                    assert(s[p + 1] == k);
                } else {
                    assert(s == rest);
                }
            }
        }
    } else {
        assert forall|k: usize| !(#[trigger] letter_neighbors_from(w, h, g, i, v, d).contains(
            k,
        )) by {}
    }
}

/// The letter-filtered neighbor enumeration is exact: it holds precisely
/// the geometric neighbors of `i` that hold `v`.  With the symmetry of the
/// adjacency relation this makes neighbor masks symmetric: a cell appears
/// among the neighbors of `i` for its own letter exactly when the two
/// cells are geometrically adjacent.
pub proof fn lemma_letter_neighbors_exact(w: int, h: int, g: Seq<Option<u8>>, i: int, v: u8)
    requires
        w >= 1,
        h >= 1,
        0 <= i < w * h,
        g.len() == w * h,
        w * h <= usize::MAX,
    ensures
        forall|k: usize| #[trigger]
            letter_neighbors(w, h, g, i, v).contains(k) <==> (adjacent(w, h, i, k as int) && g[k as int]
                == Some(v)),
{
    lemma_letter_neighbors_from_exact(w, h, g, i, v, 0);
}

/// The cells holding letter `v` at index `from` and beyond, ascending.
pub open spec fn cells_with_from(g: Seq<Option<u8>>, v: u8, from: int) -> Seq<usize>
    decreases g.len() - from,
{
    if !(0 <= from < g.len()) {
        Seq::empty()
    } else {
        (if g[from] == Some(v) {
            seq![from as usize]
        } else {
            Seq::empty()
        }) + cells_with_from(g, v, from + 1)
    }
}

/// The cells holding letter `v`, ascending.
pub open spec fn cells_with(g: Seq<Option<u8>>, v: u8) -> Seq<usize> {
    cells_with_from(g, v, 0)
}

proof fn lemma_cells_with_from_exact(g: Seq<Option<u8>>, v: u8, from: int)
    requires
        g.len() <= usize::MAX,
        0 <= from,
    ensures
        forall|k: usize| #[trigger]
            cells_with_from(g, v, from).contains(k) <==> (from <= k < g.len() && g[k as int]
                == Some(v)),
    decreases g.len() - from,
{
    if 0 <= from < g.len() {
        lemma_cells_with_from_exact(g, v, from + 1);
        let s = cells_with_from(g, v, from);
        let rest = cells_with_from(g, v, from + 1);
        assert forall|k: usize| #[trigger] s.contains(k) implies (from <= k < g.len() && g[k as int]
            == Some(v)) by {
            let p = choose|p: int| 0 <= p < s.len() && s[p] == k;
            if g[from] == Some(v) {
                if p > 0 {
                    assert(rest[p - 1] == k);
                    assert(rest.contains(k));
                }
            } else {
                assert(rest.contains(k));
            }
        }
        assert forall|k: usize| from <= k < g.len() && g[k as int] == Some(v) implies
            #[trigger] s.contains(k) by {
            if k == from {
                assert(g[from] == Some(v));
                assert(s[0] == k);
            } else {
                assert(rest.contains(k));
                let p = choose|p: int| 0 <= p < rest.len() && rest[p] == k;
                if g[from] == Some(v) {
                    assert(s[p + 1] == k);
                } else {
                    assert(s == rest);
                }
            }
        }
    }
}

/// The per-letter cell enumeration is exact: it holds precisely the cells
/// holding `v`.
pub proof fn lemma_cells_with_exact(g: Seq<Option<u8>>, v: u8)
    requires
        g.len() <= usize::MAX,
    ensures
        forall|k: usize| #[trigger]
            cells_with(g, v).contains(k) <==> (k < g.len() && g[k as int] == Some(v)),
{
    lemma_cells_with_from_exact(g, v, 0);
}


} // verus!
