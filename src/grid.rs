//! A rectangular grid of tiles, each either empty or holding a roll.
use vstd::arithmetic::div_mod::lemma_fundamental_div_mod_converse;
use crate::text::{find_byte, index_of};
use vstd::prelude::*;

verus! {

/// Byte that marks a tile holding a roll.
pub const ROLL: u8 = 0x40;

/// Byte that marks an empty tile.
pub const EMPTY: u8 = 0x2e;

/// Byte that ends each row of a grid's text.
pub const NEWLINE: u8 = 0x0a;

/// Error returned when a text is not a grid.
#[derive(Debug, Clone, Copy, PartialEq, Eq, Structural)]
pub enum GridError {
    /// The text is not a non-empty sequence of rows of equal, positive width,
    /// each made of roll and empty bytes and ended by a newline.
    Malformed,
}

/// `s` is rows of `w` tiles, each row ended by a newline.
pub open spec fn is_grid_text(s: Seq<u8>, w: nat) -> bool {
    &&& w > 0
    &&& s.len() > 0
    &&& s.len() % (w + 1) == 0
    &&& forall|i: int|
        0 <= i < s.len() ==> if i % (w + 1) as int == w as int {
            s[i] == NEWLINE
        } else {
            s[i] == ROLL || s[i] == EMPTY
        }
}

/// `s` is the text of a grid whose width is its first row's length.
pub open spec fn well_formed_text(s: Seq<u8>) -> bool {
    is_grid_text(s, index_of(s, NEWLINE))
}

/// The tiles that a grid text describes, row by row.
pub open spec fn tiles_of_text(s: Seq<u8>) -> Seq<Seq<bool>> {
    let w = index_of(s, NEWLINE);
    Seq::new(
        s.len() / (w + 1),
        |y: int| Seq::new(w, |x: int| s[y * (w + 1) as int + x] == ROLL),
    )
}

/// `g` has `h` rows of `w` tiles each, and at least one tile.
pub open spec fn is_rectangle(g: Seq<Seq<bool>>, w: nat, h: nat) -> bool {
    &&& w > 0
    &&& h > 0
    &&& g.len() == h
    &&& forall|y: int| 0 <= y < h ==> #[trigger] g[y].len() == w
}

/// Position `i` lies in row `q`, column `r` of rows `w + 1` bytes long.
proof fn lemma_row_col(i: int, w: int, q: int, r: int)
    requires
        w >= 0,
        q >= 0,
        0 <= r <= w,
        i == q * (w + 1) + r,
    ensures
        i % (w + 1) == r,
        i / (w + 1) == q,
{
    lemma_fundamental_div_mod_converse(i, w + 1, q, r);
}

/// A rectangular grid with each tile either empty or containing a roll.
pub struct Grid {
    rows: Vec<Vec<bool>>,
    width: usize,
    height: usize,
}

impl View for Grid {
    type V = Seq<Seq<bool>>;

    /// Row `y`, tile `x` is `true` when it holds a roll.
    closed spec fn view(&self) -> Seq<Seq<bool>> {
        self.rows@.map_values(|r: Vec<bool>| r@)
    }
}

impl Grid {
    pub closed spec fn spec_width(&self) -> nat {
        self.width as nat
    }

    pub closed spec fn spec_height(&self) -> nat {
        self.height as nat
    }

    /// The rows have equal, positive length and the tile count fits a `usize`.
    pub open spec fn wf(&self) -> bool {
        &&& is_rectangle(self@, self.spec_width(), self.spec_height())
        &&& self.spec_width() * self.spec_height() <= usize::MAX
    }

    /// Reads a grid from its text: rows of roll and empty bytes, each ended by
    /// a newline, all as long as the first.
    pub fn load(content: &[u8]) -> (r: Result<Grid, GridError>)
        ensures
            r is Ok <==> well_formed_text(content@),
            r matches Ok(g) ==> {
                &&& g.wf()
                &&& g@ == tiles_of_text(content@)
                &&& g.spec_width() == index_of(content@, NEWLINE)
                &&& g.spec_height() == content@.len() / (index_of(content@, NEWLINE) + 1)
            },
    {
        let ghost s = content@;
        let n = content.len();
        let w = find_byte(content, 0, NEWLINE);
        assert(s.subrange(0, n as int) =~= s);
        if w == 0 || w == n {
            proof {
                if w > 0 {
                    lemma_row_col(n as int, n as int, 0, n as int);
                }
            }
            return Err(GridError::Malformed);
        }
        let ghost wi = w as int;
        let mut rows: Vec<Vec<bool>> = Vec::new();
        let mut row: Vec<bool> = Vec::new();
        let mut i: usize = 0;
        assert(0 * (wi + 1) == 0);
        while i < n
            invariant
                s == content@,
                n == s.len(),
                0 < w < n,
                wi == w,
                i <= n,
                index_of(s, NEWLINE) == w,
                i == rows@.len() * (wi + 1) + row@.len(),
                row@.len() <= w,
                forall|y: int| 0 <= y < rows@.len() ==> #[trigger] rows@[y]@.len() == w,
                forall|y: int, x: int|
                    0 <= y < rows@.len() && 0 <= x < w ==> #[trigger] rows@[y]@[x] == (s[y * (wi
                        + 1) + x] == ROLL),
                forall|x: int|
                    0 <= x < row@.len() ==> #[trigger] row@[x] == (s[rows@.len() * (wi + 1) + x]
                        == ROLL),
                forall|j: int|
                    0 <= j < i ==> if j % (wi + 1) == wi {
                        s[j] == NEWLINE
                    } else {
                        s[j] == ROLL || s[j] == EMPTY
                    },
            decreases n - i,
        {
            proof {
                lemma_row_col(i as int, wi, rows@.len() as int, row@.len() as int);
            }
            let b = content[i];
            if row.len() == w {
                if b != NEWLINE {
                    return Err(GridError::Malformed);
                }
                let ghost y = rows@.len() as int;
                rows.push(row);
                row = Vec::new();
                assert((y + 1) * (wi + 1) == y * (wi + 1) + wi + 1) by (nonlinear_arith);
            } else {
                if b == ROLL {
                    row.push(true);
                } else if b == EMPTY {
                    row.push(false);
                } else {
                    return Err(GridError::Malformed);
                }
            }
            i = i + 1;
        }
        proof {
            lemma_row_col(n as int, wi, rows@.len() as int, row@.len() as int);
        }
        if row.len() != 0 {
            return Err(GridError::Malformed);
        }
        let height = rows.len();
        let ghost rows_seq = rows@;
        let g = Grid { rows, width: w, height };
        proof {
            let h = height as int;
            assert(h > 0) by (nonlinear_arith)
                requires
                    n == h * (wi + 1),
                    n > 0,
                    h >= 0,
                    wi >= 0,
            ;
            assert(wi * h <= n) by (nonlinear_arith)
                requires
                    n == h * (wi + 1),
                    h >= 0,
                    wi >= 0,
            ;
            let t = tiles_of_text(s);
            assert(t.len() == h);
            assert forall|y: int| 0 <= y < h implies #[trigger] g@[y] =~= t[y] by {
                assert(g@[y] == rows_seq[y]@);
            }
            assert(g@ =~= t);
        }
        Ok(g)
    }

    pub fn width(&self) -> (r: usize)
        ensures
            r == self.spec_width(),
    {
        self.width
    }

    pub fn height(&self) -> (r: usize)
        ensures
            r == self.spec_height(),
    {
        self.height
    }

    /// Tells whether the tile at column `x` of row `y` holds a roll.
    pub fn is_roll_at(&self, x: usize, y: usize) -> (r: bool)
        requires
            self.wf(),
            x < self.spec_width(),
            y < self.spec_height(),
        ensures
            r == self@[y as int][x as int],
    {
        assert(self@[y as int] == self.rows@[y as int]@);
        self.rows[y][x]
    }

    /// Empties the tile at column `x` of row `y`, which holds a roll.
    pub fn remove_roll_at(&mut self, x: usize, y: usize)
        requires
            old(self).wf(),
            x < old(self).spec_width(),
            y < old(self).spec_height(),
            old(self)@[y as int][x as int],
        ensures
            final(self).wf(),
            final(self).spec_width() == old(self).spec_width(),
            final(self).spec_height() == old(self).spec_height(),
            final(self)@ == old(self)@.update(y as int, old(self)@[y as int].update(x as int, false)),
    {
        assert(self@[y as int] == self.rows@[y as int]@);
        self.rows[y].set(x, false);
        assert(self@ =~= old(self)@.update(y as int, old(self)@[y as int].update(x as int, false)));
    }
}

} // verus!
