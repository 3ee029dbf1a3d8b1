//! The board: a width x height grid of `Stone` values, row-major, with
//! position/index translation. The board holds no rules knowledge: it does
//! not know about groups, liberties, or legality.

use vstd::prelude::*;
use crate::game_move::GameMove;
use crate::stone::Stone;

verus! {

/// Orthogonal adjacency of two positions: up/down/left/right neighbors;
/// diagonals are not adjacent.
pub open spec fn adjacent(r1: int, c1: int, r2: int, c2: int) -> bool {
    (r1 == r2 && (c1 + 1 == c2 || c2 + 1 == c1)) || (c1 == c2 && (r1 + 1 == r2 || r2 + 1 == r1))
}

/// The scan order of a position's orthogonal neighbors: left, then right,
/// then up, then down.
pub open spec fn nbr_rank(pos: (usize, usize), q: (usize, usize)) -> int {
    if q.0 == pos.0 && q.1 + 1 == pos.1 {
        0
    } else if q.0 == pos.0 && q.1 == pos.1 + 1 {
        1
    } else if q.1 == pos.1 && q.0 + 1 == pos.0 {
        2
    } else {
        3
    }
}

pub struct Board {
    pub state: Vec<Vec<Stone>>,
    pub width: usize,
    pub height: usize,
}

impl Board {
    /// The grid has `height` rows of `width` cells each, and every cell is
    /// addressable by a flat index that fits in `usize`.
    pub open spec fn wf(self) -> bool {
        &&& self.state@.len() == self.height
        &&& forall|r: int| 0 <= r < self.height ==> (#[trigger] self.state@[r])@.len() == self.width
        &&& self.width * self.height <= usize::MAX
    }

    pub open spec fn cell(self, row: int, col: int) -> Stone {
        self.state@[row]@[col]
    }

    pub open spec fn in_bounds_spec(self, row: int, col: int) -> bool {
        0 <= row < self.height && 0 <= col < self.width
    }

    /// A grid of `Empty` cells.
    pub fn new(width: usize, height: usize) -> (r: Board)
        requires
            width * height <= usize::MAX,
        ensures
            r.wf(),
            r.width == width,
            r.height == height,
            forall|row: int, col: int|
                r.in_bounds_spec(row, col) ==> #[trigger] r.cell(row, col) == Stone::Empty,
    {
        let mut state: Vec<Vec<Stone>> = Vec::new();
        let mut r: usize = 0;
        while r < height
            invariant
                r <= height,
                state@.len() == r,
                forall|i: int| 0 <= i < r ==> (#[trigger] state@[i])@.len() == width,
                forall|i: int, j: int|
                    0 <= i < r && 0 <= j < width ==> (#[trigger] state@[i]@[j]) == Stone::Empty,
            decreases height - r,
        {
            let mut row: Vec<Stone> = Vec::new();
            let mut c: usize = 0;
            while c < width
                invariant
                    c <= width,
                    row@.len() == c,
                    forall|j: int| 0 <= j < c ==> (#[trigger] row@[j]) == Stone::Empty,
                decreases width - c,
            {
                row.push(Stone::Empty);
                c += 1;
            }
            state.push(row);
            r += 1;
        }
        Board { state, width, height }
    }

    /// Whether a position lies on the board.
    pub fn in_bounds(&self, row: usize, col: usize) -> (r: bool)
        ensures
            r == self.in_bounds_spec(row as int, col as int),
    {
        row < self.height && col < self.width
    }

    /// The deterministic bijection between a 2-D position and the flat
    /// index `row * width + column`, the key space shared with the tracker.
    pub fn index_of_pos(&self, pos: (usize, usize)) -> (r: usize)
        requires
            self.wf(),
            self.in_bounds_spec(pos.0 as int, pos.1 as int),
        ensures
            r as int == pos.0 * self.width + pos.1,
            r < self.width * self.height,
    {
        proof {
            assert(pos.0 * self.width + pos.1 < self.width * self.height) by (nonlinear_arith)
                requires
                    0 <= pos.0 < self.height,
                    0 <= pos.1 < self.width,
            ;
        }
        pos.0 * self.width + pos.1
    }

    /// The current value of one cell.
    pub fn stone_at(&self, row: usize, col: usize) -> (r: Stone)
        requires
            self.wf(),
            self.in_bounds_spec(row as int, col as int),
        ensures
            r == self.cell(row as int, col as int),
    {
        let line = &self.state[row];
        line[col]
    }

    /// Overwrite the cell at the move's position with the move's stone.
    /// Validation is the controller's job, not the board's; the bounds
    /// precondition guarantees no out-of-range write.
    pub fn place_stone(&mut self, mv: &GameMove)
        requires
            old(self).wf(),
            old(self).in_bounds_spec(mv.pos.0 as int, mv.pos.1 as int),
        ensures
            final(self).wf(),
            final(self).width == old(self).width,
            final(self).height == old(self).height,
            final(self).cell(mv.pos.0 as int, mv.pos.1 as int) == mv.stone,
            forall|r: int, c: int|
                old(self).in_bounds_spec(r, c) && !(r == mv.pos.0 && c == mv.pos.1)
                    ==> #[trigger] final(self).cell(r, c) == old(self).cell(r, c),
    {
        self.set_cell(mv.pos.0, mv.pos.1, mv.stone)
    }

    /// Write one cell.
    pub fn set_cell(&mut self, row: usize, col: usize, stone: Stone)
        requires
            old(self).wf(),
            old(self).in_bounds_spec(row as int, col as int),
        ensures
            final(self).wf(),
            final(self).width == old(self).width,
            final(self).height == old(self).height,
            final(self).cell(row as int, col as int) == stone,
            forall|r: int, c: int|
                old(self).in_bounds_spec(r, c) && !(r == row && c == col)
                    ==> #[trigger] final(self).cell(r, c) == old(self).cell(r, c),
    {
        let line = &mut self.state[row];
        line.set(col, stone);
    }

    /// A copy of the grid, row by row.
    pub fn get_state(&self) -> (r: Vec<Vec<Stone>>)
        requires
            self.wf(),
        ensures
            r@.len() == self.height,
            forall|i: int| 0 <= i < self.height ==> (#[trigger] r@[i])@.len() == self.width,
            forall|i: int, j: int|
                0 <= i < self.height && 0 <= j < self.width ==> (#[trigger] r@[i]@[j])
                    == self.cell(i, j),
    {
        let mut out: Vec<Vec<Stone>> = Vec::new();
        let mut i: usize = 0;
        while i < self.height
            invariant
                self.wf(),
                i <= self.height,
                out@.len() == i,
                forall|a: int| 0 <= a < i ==> (#[trigger] out@[a])@.len() == self.width,
                forall|a: int, b: int|
                    0 <= a < i && 0 <= b < self.width ==> (#[trigger] out@[a]@[b]) == self.cell(
                        a,
                        b,
                    ),
            decreases self.height - i,
        {
            let src = &self.state[i];
            let mut row: Vec<Stone> = Vec::new();
            let mut j: usize = 0;
            while j < src.len()
                invariant
                    j <= src@.len(),
                    row@.len() == j,
                    forall|b: int| 0 <= b < j ==> (#[trigger] row@[b]) == src@[b],
                decreases src@.len() - j,
            {
                row.push(src[j]);
                j += 1;
            }
            out.push(row);
            i += 1;
        }
        out
    }

    /// The number of cells: the tracker's node count.
    pub open spec fn n(self) -> int {
        self.width * self.height
    }

    /// The row a flat index addresses.
    pub open spec fn row_of(self, q: int) -> int {
        q / (self.width as int)
    }

    /// The column a flat index addresses.
    pub open spec fn col_of(self, q: int) -> int {
        q % (self.width as int)
    }

    /// The cell a flat index addresses.
    pub open spec fn cell_at(self, q: int) -> Stone {
        self.cell(self.row_of(q), self.col_of(q))
    }

    /// The flat index of a position.
    pub open spec fn fidx(self, r: int, c: int) -> int {
        r * self.width + c
    }

    /// Orthogonal adjacency between two flat indices.
    pub open spec fn adj_flat(self, a: int, b: int) -> bool {
        adjacent(self.row_of(a), self.col_of(a), self.row_of(b), self.col_of(b))
    }

    /// A position's flat index addresses that position.
    pub proof fn lemma_flat(self, r: int, c: int)
        requires
            self.wf(),
            self.in_bounds_spec(r, c),
        ensures
            0 <= self.fidx(r, c) < self.n(),
            self.row_of(self.fidx(r, c)) == r,
            self.col_of(self.fidx(r, c)) == c,
            self.cell_at(self.fidx(r, c)) == self.cell(r, c),
    {
        let w = self.width as int;
        assert(0 <= r * w + c < self.width * self.height) by (nonlinear_arith)
            requires
                0 <= r < self.height,
                0 <= c < self.width,
                w == self.width,
        ;
        vstd::arithmetic::div_mod::lemma_fundamental_div_mod_converse(r * w + c, w, r, c);
    }

    /// A flat index in range addresses an in-bounds position.
    pub proof fn lemma_unflat(self, q: int)
        requires
            self.wf(),
            0 <= q < self.n(),
        ensures
            self.in_bounds_spec(self.row_of(q), self.col_of(q)),
            self.fidx(self.row_of(q), self.col_of(q)) == q,
    {
        let w = self.width as int;
        assert(w > 0) by (nonlinear_arith)
            requires
                0 <= q < self.width * self.height,
                w == self.width,
        ;
        vstd::arithmetic::div_mod::lemma_fundamental_div_mod(q, w);
        vstd::arithmetic::div_mod::lemma_mod_pos_bound(q, w);
        assert(0 <= q / w < self.height) by (nonlinear_arith)
            requires
                0 <= q < self.width * self.height,
                w == self.width,
                w * (q / w) + q % w == q,
                0 <= q % w < w,
        ;
        assert((q / w) * w + q % w == q) by (nonlinear_arith)
            requires
                w * (q / w) + q % w == q,
        ;
    }

    /// Write one cell, addressed by its flat index.
    pub fn set_cell_by_index(&mut self, q: usize, stone: Stone)
        requires
            old(self).wf(),
            q < old(self).n(),
        ensures
            final(self).wf(),
            final(self).width == old(self).width,
            final(self).height == old(self).height,
            final(self).cell_at(q as int) == stone,
            forall|j: int|
                0 <= j < old(self).n() && j != q ==> #[trigger] final(self).cell_at(j) == old(
                    self,
                ).cell_at(j),
    {
        proof {
            old(self).lemma_unflat(q as int);
        }
        let row = q / self.width;
        let col = q % self.width;
        self.set_cell(row, col, stone);
        proof {
            assert forall|j: int|
                0 <= j < old(self).n() && j != q implies #[trigger] self.cell_at(j) == old(
                self,
            ).cell_at(j) by {
                old(self).lemma_unflat(j);
                if self.row_of(j) == row as int && self.col_of(j) == col as int {
                    assert(old(self).fidx(self.row_of(j), self.col_of(j)) == j);
                    assert(false);
                }
            }
        }
    }

    /// The orthogonally adjacent positions of `pos` that lie on the board
    /// and are currently `Empty`: the per-position liberty candidates.
    pub fn get_liberties_of_pos(&self, pos: (usize, usize)) -> (libs: Vec<(usize, usize)>)
        requires
            self.wf(),
            self.in_bounds_spec(pos.0 as int, pos.1 as int),
        ensures
            libs@.no_duplicates(),
            forall|k: int|
                0 <= k < libs@.len() ==> {
                    let q = #[trigger] libs@[k];
                    &&& self.in_bounds_spec(q.0 as int, q.1 as int)
                    &&& adjacent(pos.0 as int, pos.1 as int, q.0 as int, q.1 as int)
                    &&& self.cell(q.0 as int, q.1 as int) == Stone::Empty
                },
            forall|r: int, c: int|
                self.in_bounds_spec(r, c) && adjacent(pos.0 as int, pos.1 as int, r, c)
                    && self.cell(r, c) == Stone::Empty ==> libs@.contains(
                    ((r as usize, c as usize)),
                ),
            forall|k1: int, k2: int|
                #![trigger libs@[k1], libs@[k2]]
                0 <= k1 < k2 < libs@.len() ==> nbr_rank(pos, libs@[k1]) < nbr_rank(pos, libs@[k2]),
    {
        let row = pos.0;
        let col = pos.1;
        let mut libs: Vec<(usize, usize)> = Vec::new();
        let has_l = col > 0 && self.stone_at(row, col - 1) == Stone::Empty;
        let has_r = col + 1 < self.width && self.stone_at(row, col + 1) == Stone::Empty;
        let has_u = row > 0 && self.stone_at(row - 1, col) == Stone::Empty;
        let has_d = row + 1 < self.height && self.stone_at(row + 1, col) == Stone::Empty;
        if has_l {
            libs.push((row, col - 1));
        }
        if has_r {
            libs.push((row, col + 1));
        }
        if has_u {
            libs.push((row - 1, col));
        }
        if has_d {
            libs.push((row + 1, col));
        }
        proof {
            assert forall|k: int|
                0 <= k < libs@.len() implies nbr_rank(pos, #[trigger] libs@[k]) == (if has_l && k
                == 0 {
                0int
            } else if has_r && k == (if has_l {
                1int
            } else {
                0int
            }) {
                1int
            } else if has_u && k == (if has_l {
                1int
            } else {
                0int
            }) + (if has_r {
                1int
            } else {
                0int
            }) {
                2int
            } else {
                3int
            }) by {}
            assert forall|r: int, c: int|
                self.in_bounds_spec(r, c) && adjacent(pos.0 as int, pos.1 as int, r, c)
                    && self.cell(r, c) == Stone::Empty implies libs@.contains(
                ((r as usize, c as usize)),
            ) by {
                let q = (r as usize, c as usize);
                if r == row as int && c + 1 == col as int {
                    assert(libs@[0] == q);
                } else if r == row as int && c == col as int + 1 {
                    assert(libs@[if has_l {
                        1int
                    } else {
                        0int
                    }] == q);
                } else if c == col as int && r + 1 == row as int {
                    assert(libs@[(if has_l {
                        1int
                    } else {
                        0int
                    }) + (if has_r {
                        1int
                    } else {
                        0int
                    })] == q);
                } else {
                    assert(libs@[(if has_l {
                        1int
                    } else {
                        0int
                    }) + (if has_r {
                        1int
                    } else {
                        0int
                    }) + (if has_u {
                        1int
                    } else {
                        0int
                    })] == q);
                }
            }
        }
        libs
    }
}

} // verus!
