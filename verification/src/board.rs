//! Bounds-checked square grid of stones. The board carries no rule knowledge;
//! it only stores cells and offers equality by full grid contents, which the
//! rules engine uses for position-repetition (ko) checks.

use vstd::prelude::*;

use crate::stones::Stone;

verus! {

/// A 0-indexed (row, column) position on the board.
pub type Coordinates = (usize, usize);

pub type BoardSideLength = usize;

pub const SMALL: BoardSideLength = 9;
pub const MEDIUM: BoardSideLength = 13;
pub const BIG: BoardSideLength = 19;

/// The side lengths a board may have.
pub open spec fn valid_side(n: int) -> bool {
    n == SMALL || n == MEDIUM || n == BIG
}

/// A well-formed grid view: a square grid with a valid side length.
pub open spec fn grid_wf(v: Seq<Seq<Stone>>) -> bool {
    &&& valid_side(v.len() as int)
    &&& forall|i: int| 0 <= i < v.len() ==> (#[trigger] v[i]).len() == v.len()
}

/// Whether a coordinate lies on a grid of side `n`.
pub open spec fn in_bounds(n: int, c: Coordinates) -> bool {
    c.0 < n && c.1 < n
}

/// The occupant of cell `c` in grid `v`.
pub open spec fn cell(v: Seq<Seq<Stone>>, c: Coordinates) -> Stone {
    v[c.0 as int][c.1 as int]
}

/// Grid `v` with the cell at `c` replaced by `s`.
pub open spec fn grid_update(v: Seq<Seq<Stone>>, c: Coordinates, s: Stone) -> Seq<Seq<Stone>> {
    v.update(c.0 as int, v[c.0 as int].update(c.1 as int, s))
}

/// Whether two coordinates are orthogonal neighbours.
pub open spec fn adjacent(a: Coordinates, b: Coordinates) -> bool {
    ||| (a.0 == b.0 && (a.1 + 1 == b.1 || b.1 + 1 == a.1))
    ||| (a.1 == b.1 && (a.0 + 1 == b.0 || b.0 + 1 == a.0))
}

/// Fixed-side square grid of stones. Side length is fixed at construction to
/// one of {9, 13, 19}; an invalid requested size coerces to 19.
pub struct Board {
    data: Vec<Vec<Stone>>,
    board_side_length: BoardSideLength,
}

impl View for Board {
    type V = Seq<Seq<Stone>>;

    closed spec fn view(&self) -> Seq<Seq<Stone>> {
        self.data@.map_values(|row: Vec<Stone>| row@)
    }
}

impl Board {
    /// Internal consistency of the representation.
    pub closed spec fn inv(self) -> bool {
        &&& self.board_side_length == self.data@.len()
        &&& forall|i: int| 0 <= i < self.data@.len()
            ==> (#[trigger] self.data@[i])@.len() == self.data@.len()
    }

    /// A well-formed board: internally consistent, square, of a valid side.
    pub open spec fn wf(self) -> bool {
        self.inv() && grid_wf(self@)
    }

    proof fn lemma_inv_grid(self)
        requires
            self.inv(),
            valid_side(self.data@.len() as int),
        ensures
            grid_wf(self@),
            self@.len() == self.data@.len(),
    {
        assert(forall|i: int| 0 <= i < self@.len() ==> (#[trigger] self@[i]).len() == self@.len());
    }

    /// Builds an empty board. A side length other than 9, 13 or 19 coerces
    /// to 19.
    pub fn new(side_length: BoardSideLength) -> (r: Board)
        ensures
            r.wf(),
            valid_side(side_length as int) ==> r@.len() == side_length,
            !valid_side(side_length as int) ==> r@.len() == BIG,
            forall|c: Coordinates| in_bounds(r@.len() as int, c) ==> cell(r@, c) == Stone::Empty,
    {
        let side: usize = if side_length == SMALL || side_length == MEDIUM || side_length == BIG {
            side_length
        } else {
            BIG
        };
        let mut data: Vec<Vec<Stone>> = Vec::new();
        let mut i: usize = 0;
        while i < side
            invariant
                i <= side,
                valid_side(side as int),
                data@.len() == i,
                forall|k: int| 0 <= k < i ==> (#[trigger] data@[k])@.len() == side,
                forall|k: int, l: int|
                    0 <= k < i && 0 <= l < side ==> (#[trigger] data@[k]@[l]) == Stone::Empty,
            decreases side - i,
        {
            let mut row: Vec<Stone> = Vec::new();
            let mut j: usize = 0;
            while j < side
                invariant
                    j <= side,
                    row@.len() == j,
                    forall|l: int| 0 <= l < j ==> (#[trigger] row@[l]) == Stone::Empty,
                decreases side - j,
            {
                row.push(Stone::Empty);
                j = j + 1;
            }
            data.push(row);
            i = i + 1;
        }
        let r = Board { data, board_side_length: side };
        proof {
            r.lemma_inv_grid();
        }
        r
    }

    /// The side length of the board.
    pub fn side(&self) -> (r: usize)
        requires
            self.wf(),
        ensures
            r == self@.len(),
    {
        proof {
            self.lemma_inv_grid();
        }
        self.board_side_length
    }

    /// The occupant of the cell at `c`.
    pub fn get(&self, c: Coordinates) -> (r: Stone)
        requires
            self.wf(),
            in_bounds(self@.len() as int, c),
        ensures
            r == cell(self@, c),
    {
        self.data[c.0][c.1]
    }

    /// Replaces the occupant of the cell at `c` by `s`.
    pub fn set(&mut self, c: Coordinates, s: Stone)
        requires
            old(self).wf(),
            in_bounds(old(self)@.len() as int, c),
        ensures
            final(self).wf(),
            final(self)@ =~~= grid_update(old(self)@, c, s),
            final(self)@.len() == old(self)@.len(),
    {
        let row: &mut Vec<Stone> = &mut self.data[c.0];
        row.set(c.1, s);
        proof {
            assert(self@ =~~= grid_update(old(self)@, c, s));
        }
    }

    /// A full deep copy of the board.
    pub fn duplicate(&self) -> (r: Board)
        requires
            self.wf(),
        ensures
            r.wf(),
            r@ =~~= self@,
    {
        let side = self.side();
        let mut data: Vec<Vec<Stone>> = Vec::new();
        let mut i: usize = 0;
        while i < side
            invariant
                i <= side,
                self.wf(),
                side == self@.len(),
                data@.len() == i,
                forall|k: int| 0 <= k < i ==> (#[trigger] data@[k])@ =~= self@[k],
            decreases side - i,
        {
            let mut row: Vec<Stone> = Vec::new();
            let mut j: usize = 0;
            while j < side
                invariant
                    j <= side,
                    i < side,
                    self.wf(),
                    side == self@.len(),
                    row@.len() == j,
                    forall|l: int| 0 <= l < j ==> (#[trigger] row@[l]) == self@[i as int][l],
                decreases side - j,
            {
                row.push(self.get((i, j)));
                j = j + 1;
            }
            data.push(row);
            i = i + 1;
        }
        let r = Board { data, board_side_length: side };
        proof {
            assert(r.inv());
            assert(r@ =~~= self@);
        }
        r
    }

    /// Whether two boards hold exactly the same grid of stones.
    pub fn equals(&self, other: &Board) -> (r: bool)
        requires
            self.wf(),
            other.wf(),
        ensures
            r <==> self@ =~~= other@,
    {
        let n = self.side();
        if other.side() != n {
            return false;
        }
        let mut i: usize = 0;
        while i < n
            invariant
                i <= n,
                self.wf(),
                other.wf(),
                n == self@.len(),
                n == other@.len(),
                forall|k: int, l: int| 0 <= k < i && 0 <= l < n ==> self@[k][l] == other@[k][l],
            decreases n - i,
        {
            let mut j: usize = 0;
            while j < n
                invariant
                    j <= n,
                    i < n,
                    self.wf(),
                    other.wf(),
                    n == self@.len(),
                    n == other@.len(),
                    forall|k: int, l: int| 0 <= k < i && 0 <= l < n ==> self@[k][l] == other@[k][l],
                    forall|l: int| 0 <= l < j ==> self@[i as int][l] == other@[i as int][l],
                decreases n - j,
            {
                if self.get((i, j)) != other.get((i, j)) {
                    return false;
                }
                j = j + 1;
            }
            i = i + 1;
        }
        proof {
            assert(self@ =~~= other@);
        }
        true
    }
}

} // verus!
