//! A plain letter grid: one letter value per cell, kept row-major, with
//! neighbor and per-letter queries computed geometrically on demand.

use vstd::prelude::*;
use vstd::string::StrSliceExecFns;
use crate::grid::cells_with;
use crate::grid::cells_with_from;
use crate::grid::has_nbr;
use crate::grid::letter_neighbors;
use crate::grid::letter_neighbors_from;
use crate::grid::nbr;
use crate::grid::nbr_index;
use crate::letters::all_letters;
use crate::letters::is_letter;
use crate::letters::letter_of;
use crate::letters::word_letters;

verus! {

/// True when `c` is an ASCII whitespace character stripped from the rim of
/// a board line.
pub open spec fn is_space(c: char) -> bool {
    c == ' ' || c == '\t' || c == '\r' || c == '\n'
}

/// `s` with its leading whitespace removed.
pub open spec fn trim_front(s: Seq<char>) -> Seq<char>
    decreases s.len(),
{
    if s.len() > 0 && is_space(s[0]) {
        trim_front(s.drop_first())
    } else {
        s
    }
}

/// `s` with its trailing whitespace removed.
pub open spec fn trim_back(s: Seq<char>) -> Seq<char>
    decreases s.len(),
{
    if s.len() > 0 && is_space(s.last()) {
        trim_back(s.drop_last())
    } else {
        s
    }
}

/// `s` with whitespace removed from both ends.
pub open spec fn trimmed(s: Seq<char>) -> Seq<char> {
    trim_back(trim_front(s))
}

proof fn lemma_trim_front_skip(s: Seq<char>, a: int)
    requires
        0 <= a <= s.len(),
        forall|j: int| 0 <= j < a ==> is_space(#[trigger] s[j]),
        a < s.len() ==> !is_space(s[a]),
    ensures
        trim_front(s) == s.skip(a),
    decreases a,
{
    if a == 0 {
        assert(s.skip(0) =~= s);
    } else {
        assert(is_space(s[0]));
        lemma_trim_front_skip(s.drop_first(), a - 1);
        assert(s.drop_first().skip(a - 1) =~= s.skip(a));
    }
}

proof fn lemma_trim_back_take(s: Seq<char>, b: int)
    requires
        0 <= b <= s.len(),
        forall|j: int| b <= j < s.len() ==> is_space(#[trigger] s[j]),
        b > 0 ==> !is_space(s[b - 1]),
    ensures
        trim_back(s) == s.take(b),
    decreases s.len(),
{
    if s.len() > b {
        assert(is_space(s.last()));
        lemma_trim_back_take(s.drop_last(), b);
        assert(s.drop_last().take(b) =~= s.take(b));
    } else {
        assert(s.take(b) =~= s);
        if b > 0 {
            assert(!is_space(s.last()));
        }
    }
}

/// The condition under which a board can be read from `lines`: at least
/// two lines, the first nonempty once trimmed, and every line trimming to
/// letters of the same count.
pub open spec fn readable(lines: Seq<Seq<char>>) -> bool {
    &&& lines.len() >= 2
    &&& trimmed(lines[0]).len() >= 1
    &&& forall|j: int|
        0 <= j < lines.len() ==> all_letters(#[trigger] trimmed(lines[j])) && trimmed(
            lines[j],
        ).len() == trimmed(lines[0]).len()
}

/// The views of a vector of lines.
pub open spec fn line_views(lines: Seq<String>) -> Seq<Seq<char>> {
    lines.map_values(|s: String| s@)
}

/// A rectangular grid of letter values in `[0, 26)`, row-major.
#[derive(Debug)]
pub struct SimpleBoggleBoard {
    pub width: usize,
    pub height: usize,
    pub cells: Vec<u8>,
}

impl SimpleBoggleBoard {
    /// A nonempty rectangle whose every cell holds a letter value.
    pub open spec fn wf(&self) -> bool {
        &&& self.width >= 1
        &&& self.height >= 1
        &&& self.width * self.height <= usize::MAX
        &&& self.cells@.len() == self.width * self.height
        &&& forall|c: int| 0 <= c < self.cells@.len() ==> #[trigger] self.cells@[c] < 26
    }

    /// The grid this board presents to a search: every cell holds its
    /// letter.
    pub open spec fn grid(&self) -> Seq<Option<u8>> {
        self.cells@.map_values(|v: u8| Some(v))
    }

    pub fn new(width: usize, height: usize) -> (r: Self)
        requires
            width >= 1,
            height >= 1,
            width * height <= usize::MAX,
        ensures
            r.wf(),
            r.width == width,
            r.height == height,
            forall|c: int| 0 <= c < width * height ==> #[trigger] r.cells@[c] == 0u8,
    {
        let n = width * height;
        let mut cells: Vec<u8> = Vec::new();
        let mut k: usize = 0;
        while k < n
            invariant
                k <= n,
                cells@.len() == k,
                forall|c: int| 0 <= c < k ==> #[trigger] cells@[c] == 0u8,
            decreases n - k,
        {
            cells.push(0);
            k = k + 1;
        }
        SimpleBoggleBoard { width, height, cells }
    }

    /// Reads a board from text lines.  Each line is trimmed of surrounding
    /// ASCII whitespace and folded to lower case; reading fails when there
    /// is no line, when a line holds anything but letters (or the first
    /// line is empty), when the lines do not form a rectangle, or when
    /// there is only one line.
    pub fn read(lines: &Vec<String>) -> (r: Result<SimpleBoggleBoard, &'static str>)
        ensures
            r is Ok <==> readable(line_views(lines@)),
            match r {
                Ok(b) => {
                    &&& b.wf()
                    &&& b.width == trimmed(lines@[0]@).len()
                    &&& b.height == lines@.len()
                    &&& forall|j: int, c: int|
                        0 <= j < lines@.len() && 0 <= c < b.width ==> b.cells@[j * b.width + c]
                            == letter_of(#[trigger] trimmed(lines@[j]@)[c])
                },
                Err(m) => {
                    &&& (m@ == "Empty iterator"@ <==> lines@.len() == 0)
                    &&& m@ == "Invalid chars"@ ==> exists|j: int|
                        0 <= j < lines@.len() && (!all_letters(#[trigger] trimmed(lines@[j]@))
                            || trimmed(lines@[j]@).len() == 0)
                    &&& m@ == "Invalid line length"@ ==> exists|j: int|
                        0 < j < lines@.len() && trimmed(#[trigger] lines@[j]@).len() != trimmed(
                            lines@[0]@,
                        ).len()
                    &&& m@ == "Board height must be >= 2"@ ==> lines@.len() == 1
                },
            },
    {
        proof {
            broadcast use vstd::string::group_string_axioms;

            reveal_strlit("Empty iterator");
            reveal_strlit("Invalid chars");
            reveal_strlit("Invalid line length");
            reveal_strlit("Board height must be >= 2");
            assert("Empty iterator"@.len() == 14);
            assert("Invalid chars"@.len() == 13);
            assert("Invalid line length"@.len() == 19);
            assert("Board height must be >= 2"@.len() == 25);
        }
        let n = lines.len();
        if n == 0 {
            proof {
                assert(lines@.len() == 0);
                assert(!readable(line_views(lines@)));
            }
            return Err("Empty iterator");
        }
        let first = match Self::line_letters(&lines[0]) {
            Some(v) => v,
            None => {
                proof {
                    assert(line_views(lines@)[0] == lines@[0]@);
                    assert(!all_letters(trimmed(line_views(lines@)[0])));
                    assert(!readable(line_views(lines@)));
                }
                return Err("Invalid chars");
            },
        };
        let width = first.len();
        if width == 0 {
            proof {
                assert(line_views(lines@)[0] == lines@[0]@);
                assert(trimmed(line_views(lines@)[0]).len() == 0);
                assert(!readable(line_views(lines@)));
            }
            return Err("Invalid chars");
        }
        let mut cells = first;
        let mut j: usize = 1;
        while j < n
            invariant
                1 <= j <= n,
                n == lines@.len(),
                width >= 1,
                width == trimmed(lines@[0]@).len(),
                cells@.len() == j * width,
                forall|jj: int|
                    0 <= jj < j ==> all_letters(#[trigger] trimmed(lines@[jj]@)) && trimmed(
                        lines@[jj]@,
                    ).len() == width,
                forall|jj: int, c: int|
                    0 <= jj < j && 0 <= c < width ==> cells@[jj * width + c] == letter_of(
                        #[trigger] trimmed(lines@[jj]@)[c],
                    ),
            decreases n - j,
        {
            let row = match Self::line_letters(&lines[j]) {
                Some(v) => v,
                None => {
                    proof {
                        reveal_strlit("Empty iterator");
                        reveal_strlit("Invalid chars");
                        reveal_strlit("Invalid line length");
                        reveal_strlit("Board height must be >= 2");
                        assert("Invalid chars"@ != "Empty iterator"@) by {
                            assert("Invalid chars"@.len() == 13 && "Empty iterator"@.len() == 14);
                        }
                        assert("Invalid chars"@ != "Invalid line length"@) by {
                            assert("Invalid line length"@.len() == 19);
                        }
                        assert("Invalid chars"@ != "Board height must be >= 2"@) by {
                            assert("Board height must be >= 2"@.len() == 25);
                        }
                        assert(line_views(lines@)[j as int] == lines@[j as int]@);
                        assert(!all_letters(trimmed(lines@[j as int]@)));
                        assert(!all_letters(trimmed(line_views(lines@)[j as int])));
                        assert(!readable(line_views(lines@)));
                    }
                    return Err("Invalid chars");
                },
            };
            if row.len() != width {
                proof {
                    reveal_strlit("Empty iterator");
                    reveal_strlit("Invalid chars");
                    reveal_strlit("Invalid line length");
                    reveal_strlit("Board height must be >= 2");
                    assert("Invalid line length"@ != "Empty iterator"@) by {
                        assert("Invalid line length"@.len() == 19 && "Empty iterator"@.len() == 14);
                    }
                    assert("Invalid line length"@ != "Invalid chars"@) by {
                        assert("Invalid chars"@.len() == 13);
                    }
                    assert("Invalid line length"@ != "Board height must be >= 2"@) by {
                        assert("Board height must be >= 2"@.len() == 25);
                    }
                    assert(line_views(lines@)[j as int] == lines@[j as int]@);
                    assert(line_views(lines@)[0] == lines@[0]@);
                    assert(trimmed(line_views(lines@)[j as int]).len() == row@.len());
                    assert(trimmed(lines@[j as int]@).len() != trimmed(lines@[0]@).len());
                    assert(!readable(line_views(lines@)));
                }
                return Err("Invalid line length");
            }
            let ghost cells_before = cells@;
            let mut row_mut = row;
            cells.append(&mut row_mut);
            proof {
                assert(cells@.len() == j * width + width) by (nonlinear_arith)
                    requires
                        cells@.len() == cells_before.len() + width,
                        cells_before.len() == j * width,
                ;
                assert((j + 1) * width == j * width + width) by (nonlinear_arith);
                assert forall|jj: int, c: int|
                    0 <= jj < j + 1 && 0 <= c < width implies cells@[jj * width + c] == letter_of(
                    #[trigger] trimmed(lines@[jj]@)[c],
                ) by {
                    if jj < j {
                        assert(0 <= jj * width + c < j * width) by (nonlinear_arith)
                            requires
                                0 <= jj < j,
                                0 <= c < width,
                        ;
                        assert(cells@[jj * width + c] == cells_before[jj * width + c]);
                    } else {
                        assert(jj * width + c == j * width + c);
                        assert(cells@[j * width + c] == trimmed_letters(lines@[j as int]@)[c]);
                    }
                }
            }
            j = j + 1;
        }
        if n == 1 {
            proof {
                assert(lines@.len() == 1);
                assert(!readable(line_views(lines@)));
            }
            return Err("Board height must be >= 2");
        }
        let total = cells.len();
        proof {
            assert(total == n * width);
            assert forall|jj: int| 0 <= jj < lines@.len() implies all_letters(
                #[trigger] trimmed(line_views(lines@)[jj]),
            ) && trimmed(line_views(lines@)[jj]).len() == trimmed(line_views(lines@)[0]).len() by {
                assert(line_views(lines@)[jj] == lines@[jj]@);
                assert(line_views(lines@)[0] == lines@[0]@);
            }
            assert(line_views(lines@)[0] == lines@[0]@);
            assert(readable(line_views(lines@)));
            // every stored cell is a letter value
            assert forall|c: int| 0 <= c < cells@.len() implies #[trigger] cells@[c] < 26 by {
                let jj = c / (width as int);
                let cc = c % (width as int);
                assert(jj * width + cc == c && 0 <= cc < width && 0 <= jj < n)
                    by (nonlinear_arith)
                    requires
                        width >= 1,
                        0 <= c < n * width,
                        jj == c / (width as int),
                        cc == c % (width as int),
                ;
                assert(cells@[jj * (width as int) + cc] == letter_of(trimmed(lines@[jj]@)[cc]));
                assert(is_letter(trimmed(lines@[jj]@)[cc]));
            }
        }
        Ok(SimpleBoggleBoard { width, height: n, cells })
    }

    /// The trimmed letters of one line, or `None` when anything but a
    /// letter remains after trimming.
    fn line_letters(s: &String) -> (r: Option<Vec<u8>>)
        ensures
            match r {
                Some(v) => all_letters(trimmed(s@)) && v@ == trimmed_letters(s@),
                None => !all_letters(trimmed(s@)),
            },
    {
        let n = s.as_str().unicode_len();
        let mut a: usize = 0;
        while a < n && is_space_char(s.as_str().get_char(a))
            invariant
                a <= n,
                n == s@.len(),
                forall|j: int| 0 <= j < a ==> is_space(#[trigger] s@[j]),
            decreases n - a,
        {
            a = a + 1;
        }
        proof {
            lemma_trim_front_skip(s@, a as int);
        }
        let mut b: usize = n;
        while b > a && is_space_char(s.as_str().get_char(b - 1))
            invariant
                a <= b <= n,
                n == s@.len(),
                forall|j: int| 0 <= j < a ==> is_space(#[trigger] s@[j]),
                forall|j: int| b <= j < n ==> is_space(#[trigger] s@[j]),
            decreases b,
        {
            b = b - 1;
        }
        let ghost t = s@.skip(a as int);
        proof {
            assert forall|j: int| b - a <= j < t.len() implies is_space(#[trigger] t[j]) by {
                assert(t[j] == s@[j + a]);
            }
            if b > a {
                assert(t[b - a - 1] == s@[b - 1]);
            }
            lemma_trim_back_take(t, b - a);
            assert(trimmed(s@) == t.take(b - a));
        }
        let mut v: Vec<u8> = Vec::new();
        let mut k: usize = a;
        while k < b
            invariant
                a <= k <= b <= n,
                n == s@.len(),
                trimmed(s@) == s@.skip(a as int).take(b - a),
                v@.len() == k - a,
                forall|j: int| 0 <= j < k - a ==> is_letter(#[trigger] trimmed(s@)[j]),
                forall|j: int| 0 <= j < k - a ==> #[trigger] v@[j] == letter_of(trimmed(s@)[j]),
            decreases b - k,
        {
            let c = s.as_str().get_char(k);
            proof {
                assert(trimmed(s@)[k - a] == s@[k as int]);
            }
            let u = c as u32;
            if 97 <= u && u <= 122 {
                v.push((u - 97) as u8);
            } else if 65 <= u && u <= 90 {
                v.push((u - 65) as u8);
            } else {
                proof {
                    assert(!is_letter(trimmed(s@)[k - a]));
                }
                return None;
            }
            k = k + 1;
        }
        proof {
            assert(trimmed(s@).len() == b - a);
            assert(v@ =~= trimmed_letters(s@));
        }
        Some(v)
    }

    /// Overwrites the letter of one cell.
    pub fn set(&mut self, i: usize, v: u8)
        requires
            old(self).wf(),
            i < old(self).cells@.len(),
            v < 26,
        ensures
            final(self).wf(),
            final(self).width == old(self).width,
            final(self).height == old(self).height,
            final(self).cells@ == old(self).cells@.update(i as int, v),
    {
        self.cells.set(i, v);
    }

    /// The cells of the board, row-major.
    pub fn iter(&self) -> (r: &Vec<u8>)
        ensures
            r@ == self.cells@,
    {
        &self.cells
    }

    pub fn width(&self) -> (r: usize)
        ensures
            r == self.width,
    {
        self.width
    }

    pub fn height(&self) -> (r: usize)
        ensures
            r == self.height,
    {
        self.height
    }

    /// The neighbors of cell `i` holding letter `v`, in canonical
    /// direction order.
    pub fn neighbors(&self, i: usize, v: u8) -> (r: Vec<usize>)
        requires
            self.wf(),
            i < self.width * self.height,
        ensures
            r@ == letter_neighbors(
                self.width as int,
                self.height as int,
                self.grid(),
                i as int,
                v,
            ),
    {
        let mut out: Vec<usize> = Vec::new();
        let mut d: u8 = 0;
        while d < 8
            invariant
                d <= 8,
                self.wf(),
                i < self.width * self.height,
                out@ + letter_neighbors_from(
                    self.width as int,
                    self.height as int,
                    self.grid(),
                    i as int,
                    v,
                    d as int,
                ) == letter_neighbors(
                    self.width as int,
                    self.height as int,
                    self.grid(),
                    i as int,
                    v,
                ),
            decreases 8 - d,
        {
            let ghost pre = out@;
            match nbr_index(self.width, self.height, i, d) {
                Some(jj) => {
                    proof {
                        crate::grid::lemma_nbr_symmetric(
                            self.width as int,
                            self.height as int,
                            i as int,
                            d as int,
                        );
                    }
                    if self.cells[jj] == v {
                        out.push(jj);
                    }
                },
                None => {},
            }
            proof {
                let w = self.width as int;
                let h = self.height as int;
                let g = self.grid();
                if has_nbr(w, h, i as int, d as int) {
                    crate::grid::lemma_nbr_symmetric(w, h, i as int, d as int);
                    assert(g[nbr(w, h, i as int, d as int)] == Some(
                        self.cells@[nbr(w, h, i as int, d as int)],
                    ));
                }
                assert(letter_neighbors_from(w, h, g, i as int, v, d as int) == (if has_nbr(
                    w,
                    h,
                    i as int,
                    d as int,
                ) && g[nbr(w, h, i as int, d as int)] == Some(v) {
                    seq![nbr(w, h, i as int, d as int) as usize]
                } else {
                    Seq::empty()
                }) + letter_neighbors_from(w, h, g, i as int, v, d as int + 1));
                assert(out@ + letter_neighbors_from(w, h, g, i as int, v, d as int + 1) =~= (pre
                    + letter_neighbors_from(w, h, g, i as int, v, d as int)));
            }
            d = d + 1;
        }
        proof {
            assert(letter_neighbors_from(
                self.width as int,
                self.height as int,
                self.grid(),
                i as int,
                v,
                8,
            ) == Seq::<usize>::empty());
            assert(out@ =~= out@ + Seq::<usize>::empty());
        }
        out
    }

    /// The cells holding letter `v`, in ascending index order.
    pub fn any(&self, v: u8) -> (r: Vec<usize>)
        requires
            self.wf(),
        ensures
            r@ == cells_with(self.grid(), v),
    {
        let n = self.cells.len();
        let mut out: Vec<usize> = Vec::new();
        let mut k: usize = 0;
        while k < n
            invariant
                k <= n,
                self.wf(),
                n == self.cells@.len(),
                out@ + cells_with_from(self.grid(), v, k as int) == cells_with(self.grid(), v),
            decreases n - k,
        {
            let ghost pre = out@;
            if self.cells[k] == v {
                out.push(k);
            }
            proof {
                let g = self.grid();
                assert(g[k as int] == Some(self.cells@[k as int]));
                assert(cells_with_from(g, v, k as int) == (if g[k as int] == Some(v) {
                    seq![k]
                } else {
                    Seq::empty()
                }) + cells_with_from(g, v, k as int + 1));
                assert(out@ + cells_with_from(g, v, k as int + 1) =~= (pre + cells_with_from(
                    g,
                    v,
                    k as int,
                )));
            }
            k = k + 1;
        }
        proof {
            assert(cells_with_from(self.grid(), v, n as int) == Seq::<usize>::empty());
            assert(out@ =~= out@ + Seq::<usize>::empty());
        }
        out
    }
}

/// The letter indices of a line once trimmed.
pub open spec fn trimmed_letters(s: Seq<char>) -> Seq<u8> {
    word_letters(trimmed(s))
}

/// True when `c` is stripped from the rim of a board line.
fn is_space_char(c: char) -> (r: bool)
    ensures
        r == is_space(c),
{
    c == ' ' || c == '\t' || c == '\r' || c == '\n'
}

} // verus!
