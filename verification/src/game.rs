//! The rules engine: a turn state machine over a board, with legality
//! checking, capture and ko resolution, area scoring and terminal detection.

use vstd::prelude::*;

use crate::board::{
    adjacent, cell, grid_update, grid_wf, in_bounds, valid_side, Board, BoardSideLength,
    Coordinates,
};
use crate::region::{
    flood_fill, in_border, in_group, lemma_distinct_coords_bounded, lemma_in_group_matches,
    lemma_same_group_same_border, neighbors_indices, region_exact, Region,
};
use crate::signals::Signals;
use crate::stones::Stone;

verus! {

/// A move: place a stone at a coordinate, or pass.
pub type Move = Option<Coordinates>;

/// The mathematical model of a game state.
#[verifier::ext_equal]
pub ghost struct GameView {
    /// Side length of the board.
    pub size: int,
    /// The current board.
    pub board: Seq<Seq<Stone>>,
    /// Whether the superko rule (no repetition of any earlier position) is
    /// in force instead of simple ko.
    pub super_ko: bool,
    /// Boards after each committed stone placement, oldest first.
    pub history: Seq<Seq<Seq<Stone>>>,
    /// For each history entry, the index of the player who produced it.
    pub movers: Seq<int>,
    /// The stone colours of player 0 and player 1.
    pub players: (Stone, Stone),
    /// Index of the player to move.
    pub current: int,
    /// Whether the immediately preceding turn was a pass.
    pub passed: bool,
    /// Komi in half-points, credited to player 1.
    pub komi2: int,
    /// Whether the game has ended.
    pub over: bool,
}

impl GameView {
    /// The stone colour of the player with the given index.
    pub open spec fn stone_of(self, idx: int) -> Stone {
        if idx == 0 {
            self.players.0
        } else {
            self.players.1
        }
    }

    /// The stone colour of the player to move.
    pub open spec fn mover_stone(self) -> Stone {
        self.stone_of(self.current)
    }

    /// Well-formedness of the model.
    pub open spec fn wf(self) -> bool {
        &&& grid_wf(self.board)
        &&& self.size == self.board.len()
        &&& 0 <= self.current < 2
        &&& self.players.0.is_color()
        &&& self.players.1.is_color()
        &&& self.players.0 != self.players.1
        &&& self.movers.len() == self.history.len()
        &&& forall|i: int| 0 <= i < self.movers.len() ==> 0 <= #[trigger] self.movers[i] < 2
        &&& forall|i: int|
            0 <= i < self.history.len() ==> grid_wf(#[trigger] self.history[i])
                && self.history[i].len() == self.size
        &&& self.komi2 >= 0
    }
}

/// Whether every border cell of the liberty-mode group of `c` holds `by`.
/// With `by` the opposing colour this says the group has zero liberties.
pub open spec fn group_surrounded_by(v: Seq<Seq<Stone>>, n: int, c: Coordinates, by: Stone) -> bool {
    forall|m: Coordinates| in_border(v, n, c, false, m) ==> cell(v, m) == by
}

/// Whether placing `mover`'s stone at `c` leaves the mover's own group with
/// zero liberties: on the hypothetical board the group of the new stone is
/// bordered exclusively by the opposing colour.
pub open spec fn is_suicide(v: Seq<Seq<Stone>>, n: int, c: Coordinates, mover: Stone) -> bool {
    group_surrounded_by(grid_update(v, c, mover), n, c, mover.spec_opposite())
}

/// On a board `w` that already holds the new stone at `mv`, whether the cell
/// `d` belongs to an opposing group that is orthogonally adjacent to the new
/// stone and fully surrounded by the mover's colour.
pub open spec fn is_captured_on(
    w: Seq<Seq<Stone>>,
    n: int,
    mv: Coordinates,
    mover: Stone,
    d: Coordinates,
) -> bool {
    &&& in_bounds(n, d)
    &&& cell(w, d) == mover.spec_opposite()
    &&& exists|a: Coordinates|
        #![auto]
        adjacent(mv, a) && in_bounds(n, a) && cell(w, a) == mover.spec_opposite() && in_group(
            w,
            n,
            a,
            false,
            d,
        )
    &&& group_surrounded_by(w, n, d, mover)
}

/// Whether placing `mover`'s stone at `mv` on board `v` captures the cell
/// `d`.
pub open spec fn is_captured(
    v: Seq<Seq<Stone>>,
    n: int,
    mv: Coordinates,
    mover: Stone,
    d: Coordinates,
) -> bool {
    is_captured_on(grid_update(v, mv, mover), n, mv, mover, d)
}

/// Whether placing `mover`'s stone at `mv` captures anything at all.
pub open spec fn any_capture(v: Seq<Seq<Stone>>, n: int, mv: Coordinates, mover: Stone) -> bool {
    exists|d: Coordinates| is_captured(v, n, mv, mover, d)
}

/// The board that results from `mover` playing at `mv`: the stone is placed
/// and every captured opposing stone is removed.
pub open spec fn board_after_move(
    v: Seq<Seq<Stone>>,
    n: int,
    mv: Coordinates,
    mover: Stone,
) -> Seq<Seq<Stone>> {
    Seq::new(
        v.len(),
        |i: int|
            Seq::new(
                v[i].len(),
                |j: int|
                    if is_captured(v, n, mv, mover, (i as usize, j as usize)) {
                        Stone::Empty
                    } else {
                        cell(grid_update(v, mv, mover), (i as usize, j as usize))
                    },
            ),
    )
}

/// Whether the grid `w` already occurs in the position history.
pub open spec fn history_repeats(h: Seq<Seq<Seq<Stone>>>, w: Seq<Seq<Stone>>) -> bool {
    exists|i: int| 0 <= i < h.len() && h[i] == w
}

/// The most recent board recorded for player `p`'s turn slot, if any.
pub open spec fn last_slot_board(
    h: Seq<Seq<Seq<Stone>>>,
    movers: Seq<int>,
    p: int,
) -> Option<Seq<Seq<Stone>>>
    decreases h.len(),
{
    if h.len() == 0 || movers.len() != h.len() {
        None
    } else if movers.last() == p {
        Some(h.last())
    } else {
        last_slot_board(h.drop_last(), movers.drop_last(), p)
    }
}

/// Whether the board after the move would repeat a forbidden position:
/// under superko, any board in the full game history; under simple ko, the
/// most recent board recorded for the mover's own turn slot.
pub open spec fn ko_violation(g: GameView, c: Coordinates) -> bool {
    let w = board_after_move(g.board, g.size, c, g.mover_stone());
    if g.super_ko {
        history_repeats(g.history, w)
    } else {
        last_slot_board(g.history, g.movers, g.current) == Some(w)
    }
}

/// The verdict of `step` on a move, checked strictly in order: terminal
/// flag, pass handling, bounds, occupancy, suicide without capture, then ko.
pub open spec fn step_verdict(g: GameView, mv: Move) -> Result<(), Signals> {
    if g.over {
        Err(Signals::GameOver)
    } else {
        match mv {
            None => if g.passed {
                Err(Signals::DoublePass)
            } else {
                Ok(())
            },
            Some(c) => {
                let mover = g.mover_stone();
                if !in_bounds(g.size, c) {
                    Err(Signals::OutsideBounds)
                } else if cell(g.board, c) != Stone::Empty {
                    Err(Signals::OccupiedCase)
                } else if is_suicide(g.board, g.size, c, mover) && !any_capture(
                    g.board,
                    g.size,
                    c,
                    mover,
                ) {
                    Err(Signals::InducesSuicide)
                } else if any_capture(g.board, g.size, c, mover) && ko_violation(g, c) {
                    if g.super_ko {
                        Err(Signals::BreakingSuperKo)
                    } else {
                        Err(Signals::BreakingKo)
                    }
                } else {
                    Ok(())
                }
            },
        }
    }
}

/// The state after `step`: on a committed placement the hypothetical board
/// becomes current and is appended to the history, the pass flag clears and
/// the turn swaps; on a pass the pass flag is set and the turn swaps; a
/// second consecutive pass only sets the terminal flag; a rejected move
/// changes nothing.
pub open spec fn step_next(g: GameView, mv: Move) -> GameView {
    if g.over {
        g
    } else {
        match mv {
            None => {
                if g.passed {
                    GameView { over: true, ..g }
                } else {
                    GameView { passed: true, current: 1 - g.current, ..g }
                }
            },
            Some(c) => {
                if step_verdict(g, mv) == Ok::<(), Signals>(()) {
                    let w = board_after_move(g.board, g.size, c, g.mover_stone());
                    GameView {
                        board: w,
                        history: g.history.push(w),
                        movers: g.movers.push(g.current),
                        current: 1 - g.current,
                        passed: false,
                        ..g
                    }
                } else {
                    g
                }
            },
        }
    }
}

/// Number of cells holding `s` among the first `j` cells of a row.
pub open spec fn row_count(row: Seq<Stone>, s: Stone, j: int) -> nat
    decreases j,
{
    if j <= 0 {
        0
    } else {
        row_count(row, s, j - 1) + (if row[j - 1] == s {
            1nat
        } else {
            0nat
        })
    }
}

/// Number of cells holding `s` in the first `i` full rows.
pub open spec fn grid_count(v: Seq<Seq<Stone>>, s: Stone, i: int) -> nat
    decreases i,
{
    if i <= 0 {
        0
    } else {
        grid_count(v, s, i - 1) + row_count(v[i - 1], s, v[i - 1].len() as int)
    }
}

/// Number of stones of colour `s` on the board.
pub open spec fn stones_on_board(v: Seq<Seq<Stone>>, s: Stone) -> nat {
    grid_count(v, s, v.len() as int)
}

proof fn lemma_row_count_le(row: Seq<Stone>, s: Stone, j: int)
    ensures
        row_count(row, s, j) <= (if j <= 0 {
            0int
        } else {
            j
        }),
    decreases j,
{
    if j > 0 {
        lemma_row_count_le(row, s, j - 1);
    }
}

proof fn lemma_grid_count_le(v: Seq<Seq<Stone>>, s: Stone, i: int, n: int)
    requires
        n >= 0,
        forall|k: int| 0 <= k < v.len() ==> (#[trigger] v[k]).len() == n,
        i <= v.len(),
    ensures
        grid_count(v, s, i) <= (if i <= 0 {
            0int
        } else {
            i * n
        }),
    decreases i,
{
    if i > 0 {
        lemma_grid_count_le(v, s, i - 1, n);
        lemma_row_count_le(v[i - 1], s, n);
        assert((i - 1) * n + n == i * n) by (nonlinear_arith);
    }
}

/// Whether the empty region containing `c` is owned by `col`: the cell is
/// empty, the region borders at least one stone, and every bordering stone
/// holds `col`.
pub open spec fn territory_owner_is(v: Seq<Seq<Stone>>, n: int, c: Coordinates, col: Stone) -> bool {
    &&& cell(v, c) == Stone::Empty
    &&& exists|m: Coordinates| in_border(v, n, c, false, m)
    &&& forall|m: Coordinates| in_border(v, n, c, false, m) ==> cell(v, m) == col
}

/// The owner of the empty region containing `c`, if any. On a board without
/// stones no region has an owner, since no single-colour border exists.
pub open spec fn spec_territory_owner(v: Seq<Seq<Stone>>, n: int, c: Coordinates) -> Option<
    Stone,
> {
    if territory_owner_is(v, n, c, Stone::Black) {
        Some(Stone::Black)
    } else if territory_owner_is(v, n, c, Stone::White) {
        Some(Stone::White)
    } else {
        None
    }
}

/// Number of cells owned by `col` among the first `j` cells of row `i`.
pub open spec fn terr_row_count(v: Seq<Seq<Stone>>, n: int, col: Stone, i: int, j: int) -> nat
    decreases j,
{
    if j <= 0 {
        0
    } else {
        terr_row_count(v, n, col, i, j - 1) + (if spec_territory_owner(
            v,
            n,
            (i as usize, (j - 1) as usize),
        ) == Some(col) {
            1nat
        } else {
            0nat
        })
    }
}

/// Number of cells owned by `col` in the first `i` full rows.
pub open spec fn terr_grid_count(v: Seq<Seq<Stone>>, n: int, col: Stone, i: int) -> nat
    decreases i,
{
    if i <= 0 {
        0
    } else {
        terr_grid_count(v, n, col, i - 1) + terr_row_count(v, n, col, i - 1, n)
    }
}

/// Total area of the empty regions owned by `col`, counted cell by cell.
pub open spec fn territory_of(v: Seq<Seq<Stone>>, n: int, col: Stone) -> nat {
    terr_grid_count(v, n, col, n)
}

proof fn lemma_terr_row_count_le(v: Seq<Seq<Stone>>, n: int, col: Stone, i: int, j: int)
    ensures
        terr_row_count(v, n, col, i, j) <= (if j <= 0 {
            0int
        } else {
            j
        }),
    decreases j,
{
    if j > 0 {
        lemma_terr_row_count_le(v, n, col, i, j - 1);
    }
}

proof fn lemma_terr_grid_count_le(v: Seq<Seq<Stone>>, n: int, col: Stone, i: int)
    requires
        n >= 0,
    ensures
        terr_grid_count(v, n, col, i) <= (if i <= 0 {
            0int
        } else {
            i * n
        }),
    decreases i,
{
    if i > 0 {
        lemma_terr_grid_count_le(v, n, col, i - 1);
        lemma_terr_row_count_le(v, n, col, i - 1, n);
        assert((i - 1) * n + n == i * n) by (nonlinear_arith);
    }
}

/// Whether every in-bounds orthogonal neighbour of `c` holds `col`.
pub open spec fn all_neighbors_are(v: Seq<Seq<Stone>>, n: int, c: Coordinates, col: Stone) -> bool {
    forall|m: Coordinates| adjacent(c, m) && in_bounds(n, m) ==> cell(v, m) == col
}

/// The colour for which the single cell `c` is an eye, if any: every
/// in-bounds orthogonal neighbour holds that colour.
pub open spec fn spec_eye_owner(v: Seq<Seq<Stone>>, n: int, c: Coordinates) -> Option<Stone> {
    if all_neighbors_are(v, n, c, Stone::Black) {
        Some(Stone::Black)
    } else if all_neighbors_are(v, n, c, Stone::White) {
        Some(Stone::White)
    } else {
        None
    }
}

impl GameView {
    /// The area score of the player with the given index, in half-points:
    /// twice the stones on the board of that player's colour, plus twice the
    /// area of the empty regions owned by that colour, plus the komi for
    /// player 1.
    pub open spec fn score2(self, idx: int) -> int {
        2 * stones_on_board(self.board, self.stone_of(idx)) + 2 * territory_of(
            self.board,
            self.size,
            self.stone_of(idx),
        ) + if idx == 1 {
            self.komi2
        } else {
            0
        }
    }

    /// The colour of the winning player: the one with the strictly higher
    /// area score, or nothing on a tie.
    pub open spec fn winner_stone(self) -> Option<Stone> {
        if self.score2(0) > self.score2(1) {
            Some(self.players.0)
        } else if self.score2(1) > self.score2(0) {
            Some(self.players.1)
        } else {
            None
        }
    }
}

/// The model of a freshly constructed game: an empty board of the coerced
/// side length, no history, player 0 to move, not over.
pub open spec fn fresh_game(
    board_size: int,
    super_ko: bool,
    players: (Stone, Stone),
    passed: bool,
    komi2: int,
) -> GameView {
    let side: int = if valid_side(board_size) {
        board_size
    } else {
        19
    };
    GameView {
        size: side,
        board: Seq::new(side as nat, |i: int| Seq::new(side as nat, |j: int| Stone::Empty)),
        super_ko,
        history: Seq::empty(),
        movers: Seq::empty(),
        players,
        current: 0,
        passed,
        komi2,
        over: false,
    }
}

/// The rules engine. Holds the board, the position history used for ko and
/// superko detection, the two players' colours in fixed assignment, whose
/// turn it is, the pass flag, the komi and the terminal flag.
pub struct Game {
    board_size: BoardSideLength,
    board: Board,
    super_ko: bool,
    last_boards: Vec<Board>,
    last_movers: Vec<usize>,
    players: (Stone, Stone),
    current_player: usize,
    last_turned_passed: bool,
    komi2: u32,
    is_over: bool,
}

impl View for Game {
    type V = GameView;

    closed spec fn view(&self) -> GameView {
        GameView {
            size: self.board_size as int,
            board: self.board@,
            super_ko: self.super_ko,
            history: self.last_boards@.map_values(|b: Board| b@),
            movers: self.last_movers@.map_values(|m: usize| m as int),
            players: self.players,
            current: self.current_player as int,
            passed: self.last_turned_passed,
            komi2: self.komi2 as int,
            over: self.is_over,
        }
    }
}

impl Game {
    /// Representation invariant: the stored boards are well-formed and the
    /// stored side length agrees with the board.
    pub closed spec fn inv(self) -> bool {
        &&& self.board.wf()
        &&& self.board_size == self.board@.len()
        &&& forall|i: int|
            0 <= i < self.last_boards@.len() ==> (#[trigger] self.last_boards@[i]).wf()
    }

    /// A well-formed game.
    pub open spec fn wf(self) -> bool {
        self.inv() && self@.wf()
    }

    /// Builds a fresh game on an empty board. A side length other than 9,
    /// 13 or 19 coerces to 19. `komi2` is the komi in half-points, credited
    /// to player 1.
    pub fn new(
        board_size: BoardSideLength,
        super_ko: bool,
        players: (Stone, Stone),
        last_turned_passed: bool,
        komi2: u32,
    ) -> (g: Game)
        requires
            players.0.is_color(),
            players.1.is_color(),
            players.0 != players.1,
        ensures
            g.wf(),
            g@ == fresh_game(board_size as int, super_ko, players, last_turned_passed, komi2 as int),
            valid_side(board_size as int) ==> g@.size == board_size,
            g@.super_ko == super_ko,
            g@.players == players,
            g@.current == 0,
            g@.passed == last_turned_passed,
            g@.komi2 == komi2,
            !g@.over,
            g@.history.len() == 0,
            forall|c: Coordinates| in_bounds(g@.size, c) ==> cell(g@.board, c) == Stone::Empty,
    {
        let board = Board::new(board_size);
        let side = board.side();
        let g = Game {
            board_size: side,
            board,
            super_ko,
            last_boards: Vec::new(),
            last_movers: Vec::new(),
            players,
            current_player: 0,
            last_turned_passed,
            komi2,
            is_over: false,
        };
        proof {
            let f = fresh_game(
                board_size as int,
                super_ko,
                players,
                last_turned_passed,
                komi2 as int,
            );
            assert forall|i: int, j: int|
                0 <= i < g@.board.len() && 0 <= j < g@.board.len() implies g@.board[i][j]
                == Stone::Empty by {
                let c = (i as usize, j as usize);
                assert(in_bounds(g@.size, c));
                assert(cell(g@.board, c) == Stone::Empty);
            }
            assert(g@.board =~~= f.board);
            assert(g@.history =~~= f.history);
            assert(g@.movers =~~= f.movers);
            assert(g@ =~~= f);
        }
        g
    }

    /// Assembles a game from explicit parts.
    pub fn from(
        board_size: BoardSideLength,
        board: Board,
        super_ko: bool,
        last_boards: Vec<Board>,
        last_movers: Vec<usize>,
        players: (Stone, Stone),
        current_player: usize,
        last_turned_passed: bool,
        komi2: u32,
        is_over: bool,
    ) -> (g: Game)
        requires
            board.wf(),
            board_size == board@.len(),
            players.0.is_color(),
            players.1.is_color(),
            players.0 != players.1,
            current_player < 2,
            last_boards@.len() == last_movers@.len(),
            forall|i: int|
                0 <= i < last_boards@.len() ==> (#[trigger] last_boards@[i]).wf()
                    && last_boards@[i]@.len() == board@.len(),
            forall|i: int| 0 <= i < last_movers@.len() ==> #[trigger] last_movers@[i] < 2,
        ensures
            g.wf(),
            g@.size == board_size,
            g@.board == board@,
            g@.super_ko == super_ko,
            g@.history == last_boards@.map_values(|b: Board| b@),
            g@.movers == last_movers@.map_values(|m: usize| m as int),
            g@.players == players,
            g@.current == current_player,
            g@.passed == last_turned_passed,
            g@.komi2 == komi2,
            g@.over == is_over,
    {
        Game {
            board_size,
            board,
            super_ko,
            last_boards,
            last_movers,
            players,
            current_player,
            last_turned_passed,
            komi2,
            is_over,
        }
    }

    /// The occupant of the cell at (x, y).
    pub fn get(&self, x: usize, y: usize) -> (r: Stone)
        requires
            self.wf(),
            in_bounds(self@.size, (x, y)),
        ensures
            r == cell(self@.board, (x, y)),
    {
        self.board.get((x, y))
    }

    /// The board's width.
    pub fn width(&self) -> (r: usize)
        requires
            self.wf(),
        ensures
            r == self@.size,
    {
        self.board.side()
    }

    /// The board's height (the board is square).
    pub fn height(&self) -> (r: usize)
        requires
            self.wf(),
        ensures
            r == self@.size,
    {
        self.board.side()
    }

    /// The current board.
    pub fn get_board(&self) -> (r: &Board)
        requires
            self.wf(),
        ensures
            r@ == self@.board,
            r.wf(),
    {
        &self.board
    }

    /// Whether the game has ended.
    pub fn is_over(&self) -> (r: bool)
        ensures
            r == self@.over,
    {
        self.is_over
    }

    /// The stone colour of the player whose turn it is.
    pub fn get_current_player(&self) -> (r: Stone)
        requires
            self.wf(),
        ensures
            r == self@.mover_stone(),
            r.is_color(),
    {
        if self.current_player == 0 {
            self.players.0
        } else {
            self.players.1
        }
    }

    /// The stone colours of player 0 and player 1.
    pub fn get_players(&self) -> (r: (Stone, Stone))
        ensures
            r == self@.players,
    {
        self.players
    }

    /// The komi in half-points.
    pub fn get_komi2(&self) -> (r: u32)
        ensures
            r == self@.komi2,
    {
        self.komi2
    }

    /// A full deep copy of the game.
    pub fn duplicate(&self) -> (r: Game)
        requires
            self.wf(),
        ensures
            r.wf(),
            r@ == self@,
    {
        let board = self.board.duplicate();
        let mut last_boards: Vec<Board> = Vec::new();
        let mut i: usize = 0;
        while i < self.last_boards.len()
            invariant
                self.wf(),
                i <= self.last_boards@.len(),
                last_boards@.len() == i,
                forall|k: int|
                    0 <= k < i ==> (#[trigger] last_boards@[k]).wf() && last_boards@[k]@
                        == self.last_boards@[k]@,
            decreases self.last_boards@.len() - i,
        {
            last_boards.push(self.last_boards[i].duplicate());
            i = i + 1;
        }
        let mut last_movers: Vec<usize> = Vec::new();
        let mut j: usize = 0;
        while j < self.last_movers.len()
            invariant
                j <= self.last_movers@.len(),
                last_movers@ =~= self.last_movers@.subrange(0, j as int),
            decreases self.last_movers@.len() - j,
        {
            last_movers.push(self.last_movers[j]);
            j = j + 1;
        }
        let r = Game {
            board_size: self.board_size,
            board,
            super_ko: self.super_ko,
            last_boards,
            last_movers,
            players: self.players,
            current_player: self.current_player,
            last_turned_passed: self.last_turned_passed,
            komi2: self.komi2,
            is_over: self.is_over,
        };
        proof {
            assert(last_movers@ =~= self.last_movers@);
            assert(r@.history =~~= self@.history);
            assert(r@.movers =~~= self@.movers);
            assert(r@.board =~~= self@.board);
            assert(r@ =~~= self@);
        }
        r
    }

    /// Whether the two games hold exactly the same state: board, history,
    /// rule options, players, turn and flags.
    pub fn equals(&self, other: &Game) -> (r: bool)
        requires
            self.wf(),
            other.wf(),
        ensures
            r <==> self@ == other@,
    {
        if self.board_size != other.board_size
            || self.super_ko != other.super_ko
            || self.players.0 != other.players.0
            || self.players.1 != other.players.1
            || self.current_player != other.current_player
            || self.last_turned_passed != other.last_turned_passed
            || self.komi2 != other.komi2
            || self.is_over != other.is_over
        {
            return false;
        }
        if !self.board.equals(&other.board) {
            return false;
        }
        if self.last_boards.len() != other.last_boards.len() {
            return false;
        }
        if self.last_movers.len() != other.last_movers.len() {
            return false;
        }
        let mut i: usize = 0;
        while i < self.last_boards.len()
            invariant
                self.wf(),
                other.wf(),
                i <= self.last_boards@.len(),
                self.last_boards@.len() == other.last_boards@.len(),
                forall|k: int| 0 <= k < i ==> self@.history[k] == other@.history[k],
            decreases self.last_boards@.len() - i,
        {
            if !self.last_boards[i].equals(&other.last_boards[i]) {
                proof {
                    assert(self@.history[i as int] == self.last_boards@[i as int]@);
                    assert(other@.history[i as int] == other.last_boards@[i as int]@);
                }
                return false;
            }
            i = i + 1;
        }
        let mut j: usize = 0;
        while j < self.last_movers.len()
            invariant
                self.wf(),
                other.wf(),
                j <= self.last_movers@.len(),
                self.last_movers@.len() == other.last_movers@.len(),
                forall|k: int| 0 <= k < j ==> self@.movers[k] == other@.movers[k],
            decreases self.last_movers@.len() - j,
        {
            if self.last_movers[j] != other.last_movers[j] {
                proof {
                    assert(self@.movers[j as int] == self.last_movers@[j as int] as int);
                    assert(other@.movers[j as int] == other.last_movers@[j as int] as int);
                }
                return false;
            }
            j = j + 1;
        }
        proof {
            assert(self@.history =~~= other@.history);
            assert(self@.movers =~~= other@.movers);
            assert(self@ =~~= other@);
        }
        true
    }

    /// Whether the cell at `c` holds a stone.
    fn is_case_occupied(&self, c: Coordinates) -> (r: bool)
        requires
            self.wf(),
            in_bounds(self@.size, c),
        ensures
            r <==> cell(self@.board, c) != Stone::Empty,
    {
        self.board.get(c) != Stone::Empty
    }

    /// Whether placing the mover's stone at `player_choice` would leave the
    /// mover's own group with zero liberties.
    fn induces_suicide(&self, player_choice: Coordinates) -> (r: bool)
        requires
            self.wf(),
            in_bounds(self@.size, player_choice),
        ensures
            r == is_suicide(self@.board, self@.size, player_choice, self@.mover_stone()),
    {
        placement_is_suicide(&self.board, player_choice, self.get_current_player())
    }

    /// Whether the given board already occurs in the position history.
    fn check_ko(&self, b: &Board) -> (r: bool)
        requires
            self.wf(),
            b.wf(),
        ensures
            r <==> history_repeats(self@.history, b@),
    {
        let mut i: usize = 0;
        while i < self.last_boards.len()
            invariant
                self.wf(),
                b.wf(),
                i <= self.last_boards@.len(),
                forall|k: int| 0 <= k < i ==> self@.history[k] != b@,
            decreases self.last_boards@.len() - i,
        {
            proof {
                assert(self@.history[i as int] == self.last_boards@[i as int]@);
            }
            if self.last_boards[i].equals(b) {
                return true;
            }
            i = i + 1;
        }
        false
    }

    /// Whether the given board equals the most recent board recorded for the
    /// current player's turn slot.
    fn last_slot_matches(&self, b: &Board) -> (r: bool)
        requires
            self.wf(),
            b.wf(),
        ensures
            r <==> last_slot_board(self@.history, self@.movers, self@.current) == Some(b@),
    {
        let ghost hist = self@.history;
        let ghost movs = self@.movers;
        let ghost cur = self@.current;
        let mut j: usize = self.last_boards.len();
        proof {
            assert(hist.subrange(0, j as int) =~= hist);
            assert(movs.subrange(0, j as int) =~= movs);
        }
        while j > 0
            invariant
                self.wf(),
                b.wf(),
                hist == self@.history,
                movs == self@.movers,
                cur == self@.current,
                j <= self.last_boards@.len(),
                last_slot_board(hist.subrange(0, j as int), movs.subrange(0, j as int), cur)
                    == last_slot_board(hist, movs, cur),
            decreases j,
        {
            let jj = j - 1;
            proof {
                let h = hist.subrange(0, j as int);
                let ms = movs.subrange(0, j as int);
                assert(h.len() == j && ms.len() == j);
                assert(h.last() == hist[jj as int]);
                assert(ms.last() == movs[jj as int]);
                assert(hist[jj as int] == self.last_boards@[jj as int]@);
                assert(movs[jj as int] == self.last_movers@[jj as int] as int);
                assert(h.drop_last() =~= hist.subrange(0, jj as int));
                assert(ms.drop_last() =~= movs.subrange(0, jj as int));
            }
            if self.last_movers[jj] == self.current_player {
                let r = self.last_boards[jj].equals(b);
                proof {
                    assert(last_slot_board(hist, movs, cur) == Some(hist[jj as int]));
                }
                return r;
            }
            j = jj;
        }
        proof {
            assert(hist.subrange(0, 0) =~= Seq::<Seq<Seq<Stone>>>::empty());
            assert(movs.subrange(0, 0) =~= Seq::<int>::empty());
        }
        false
    }

    /// Checks a stone placement in the strict rule order (bounds, occupancy,
    /// suicide, capture, ko) and, when legal, builds the board that the move
    /// commits: the stone placed and every captured opposing group removed.
    #[verifier::loop_isolation(false)]
    fn verify_player_choice(&self, player_choice: Coordinates) -> (r: Result<Board, Signals>)
        requires
            self.wf(),
            !self@.over,
        ensures
            match r {
                Ok(b) => {
                    &&& step_verdict(self@, Some(player_choice)) == Ok::<(), Signals>(())
                    &&& b.wf()
                    &&& b@ == board_after_move(
                        self@.board,
                        self@.size,
                        player_choice,
                        self@.mover_stone(),
                    )
                },
                Err(s) => step_verdict(self@, Some(player_choice)) == Err::<(), Signals>(s),
            },
    {
        broadcast use vstd::seq_lib::lemma_seq_contains_after_push;

        let n = self.board.side();
        let ghost v = self@.board;
        let ghost ni = self@.size;
        if player_choice.0 >= n || player_choice.1 >= n {
            return Err(Signals::OutsideBounds);
        }
        if self.is_case_occupied(player_choice) {
            return Err(Signals::OccupiedCase);
        }
        let mover = self.get_current_player();
        let suicide = self.induces_suicide(player_choice);
        let mut new_board = self.board.duplicate();
        new_board.set(player_choice, mover);
        let ghost w = grid_update(v, player_choice, mover);
        proof {
            assert(new_board@ =~~= w);
        }
        let captured = find_captured(&new_board, player_choice, mover);
        let induces_capture = captured.len() > 0;
        proof {
            if captured@.len() > 0 {
                assert(captured@.contains(captured@[0]));
                assert(is_captured(v, ni, player_choice, mover, captured@[0]));
                assert(any_capture(v, ni, player_choice, mover));
            }
            if any_capture(v, ni, player_choice, mover) {
                let d = choose|d: Coordinates| is_captured(v, ni, player_choice, mover, d);
                assert(captured@.contains(d));
                assert(captured@.len() > 0);
            }
        }
        if suicide && !induces_capture {
            return Err(Signals::InducesSuicide);
        }
        let mut k: usize = 0;
        while k < captured.len()
            invariant
                new_board.wf(),
                new_board@.len() == ni,
                k <= captured@.len(),
                forall|c: Coordinates|
                    in_bounds(ni, c) ==> cell(new_board@, c) == (if captured@.subrange(
                        0,
                        k as int,
                    ).contains(c) {
                        Stone::Empty
                    } else {
                        cell(w, c)
                    }),
            decreases captured@.len() - k,
        {
            let c = captured[k];
            proof {
                assert(captured@.contains(c));
                assert(is_captured_on(w, ni, player_choice, mover, c));
            }
            let ghost before = new_board@;
            new_board.set(c, Stone::Empty);
            proof {
                assert(captured@.subrange(0, k as int + 1) =~= captured@.subrange(
                    0,
                    k as int,
                ).push(captured@[k as int]));
                assert forall|d: Coordinates| in_bounds(ni, d) implies cell(new_board@, d) == (
                if captured@.subrange(0, k as int + 1).contains(d) {
                    Stone::Empty
                } else {
                    cell(w, d)
                }) by {
                    if d == c {
                        assert(cell(new_board@, d) == Stone::Empty);
                    } else {
                        assert(cell(new_board@, d) == cell(before, d));
                    }
                }
            }
            k = k + 1;
        }
        proof {
            assert(captured@.subrange(0, captured@.len() as int) =~= captured@);
            let bam = board_after_move(v, ni, player_choice, mover);
            assert forall|i: int, j: int| 0 <= i < ni && 0 <= j < ni implies new_board@[i][j]
                == bam[i][j] by {
                let c = (i as usize, j as usize);
                assert(in_bounds(ni, c));
                assert(cell(new_board@, c) == (if captured@.contains(c) {
                    Stone::Empty
                } else {
                    cell(w, c)
                }));
                assert(captured@.contains(c) <==> is_captured(v, ni, player_choice, mover, c));
            }
            assert(new_board@ =~~= board_after_move(v, ni, player_choice, mover));
        }
        if induces_capture {
            let violation = if self.super_ko {
                self.check_ko(&new_board)
            } else {
                self.last_slot_matches(&new_board)
            };
            proof {
                assert(violation == ko_violation(self@, player_choice));
            }
            if violation {
                if self.super_ko {
                    Err(Signals::BreakingSuperKo)
                } else {
                    Err(Signals::BreakingKo)
                }
            } else {
                Ok(new_board)
            }
        } else {
            Ok(new_board)
        }
    }

    /// Applies one move of the player to move. Checked strictly in order:
    /// a terminal game rejects with `GameOver`; a pass after a pass ends the
    /// game with `DoublePass`; a first pass sets the pass flag and swaps the
    /// turn; a placement is rejected with `OutsideBounds`, `OccupiedCase`,
    /// `InducesSuicide`, `BreakingKo` or `BreakingSuperKo` exactly as
    /// `step_verdict` says, and otherwise commits: the new board becomes
    /// current and is appended to the history, the pass flag clears and the
    /// turn swaps.
    pub fn step(&mut self, player_choice: Move) -> (r: Result<(), Signals>)
        requires
            old(self).wf(),
        ensures
            final(self).wf(),
            r == step_verdict(old(self)@, player_choice),
            final(self)@ == step_next(old(self)@, player_choice),
    {
        if self.is_over {
            proof {
                assert(self@ =~~= step_next(old(self)@, player_choice));
            }
            return Err(Signals::GameOver);
        }
        match player_choice {
            None => {
                if self.last_turned_passed {
                    self.is_over = true;
                    proof {
                        assert(self@ =~~= step_next(old(self)@, player_choice));
                    }
                    Err(Signals::DoublePass)
                } else {
                    self.last_turned_passed = true;
                    self.current_player = 1 - self.current_player;
                    proof {
                        assert(self@ =~~= step_next(old(self)@, player_choice));
                    }
                    Ok(())
                }
            },
            Some(chosen_coords) => {
                let board_result = self.verify_player_choice(chosen_coords);
                match board_result {
                    Ok(new_board) => {
                        self.last_boards.push(new_board.duplicate());
                        self.last_movers.push(self.current_player);
                        self.board = new_board;
                        self.current_player = 1 - self.current_player;
                        self.last_turned_passed = false;
                        proof {
                            assert(self@.history =~~= old(self)@.history.push(
                                board_after_move(
                                    old(self)@.board,
                                    old(self)@.size,
                                    chosen_coords,
                                    old(self)@.mover_stone(),
                                ),
                            ));
                            assert(self@.movers =~~= old(self)@.movers.push(old(self)@.current));
                            assert(self@ =~~= step_next(old(self)@, player_choice));
                        }
                        Ok(())
                    },
                    Err(s) => {
                        proof {
                            assert(self@ =~~= step_next(old(self)@, player_choice));
                        }
                        Err(s)
                    },
                }
            },
        }
    }

    /// Number of stones of colour `s` on the board.
    pub fn number_stones(&self, s: Stone) -> (r: u32)
        requires
            self.wf(),
        ensures
            r == stones_on_board(self@.board, s),
    {
        let ghost v = self@.board;
        let n = self.board.side();
        let mut r: u32 = 0;
        let mut i: usize = 0;
        while i < n
            invariant
                self.wf(),
                v == self@.board,
                n == v.len(),
                i <= n,
                r == grid_count(v, s, i as int),
                r <= i * n,
            decreases n - i,
        {
            let mut j: usize = 0;
            while j < n
                invariant
                    self.wf(),
                    v == self@.board,
                    n == v.len(),
                    i < n,
                    j <= n,
                    r == grid_count(v, s, i as int) + row_count(v[i as int], s, j as int),
                    r <= i * n + j,
                decreases n - j,
            {
                proof {
                    assert(i * n + j + 1 <= n * n) by (nonlinear_arith)
                        requires
                            i < n,
                            j < n,
                    {}
                    assert(n * n <= 361) by (nonlinear_arith)
                        requires
                            n <= 19,
                    {}
                }
                if self.board.get((i, j)) == s {
                    r = r + 1;
                }
                j = j + 1;
            }
            i = i + 1;
            proof {
                assert(r <= (i - 1) * n + n);
                assert((i - 1) * n + n == i * n) by (nonlinear_arith);
            }
        }
        r
    }

    /// The owner, if any, of the empty region containing `coords`: the
    /// single colour that makes up the region's whole border. Must only be
    /// asked of an empty cell.
    pub fn territory_owner(&self, coords: Coordinates) -> (r: Option<Stone>)
        requires
            self.wf(),
            in_bounds(self@.size, coords),
            cell(self@.board, coords) == Stone::Empty,
        ensures
            r == spec_territory_owner(self@.board, self@.size, coords),
    {
        let ghost v = self@.board;
        let ghost ni = self@.size;
        let region = flood_fill(&self.board, coords, true, false);
        proof {
            assert forall|i: int| 0 <= i < region.border@.len() implies in_bounds(
                ni,
                #[trigger] region.border@[i],
            ) by {
                assert(region.border@.contains(region.border@[i]));
            }
        }
        if region.border.len() == 0 {
            proof {
                assert forall|m: Coordinates| !in_border(v, ni, coords, false, m) by {
                    if in_border(v, ni, coords, false, m) {
                        assert(region.border@.contains(m));
                    }
                }
            }
            return None;
        }
        proof {
            assert(region.border@.contains(region.border@[0]));
            assert(in_border(v, ni, coords, false, region.border@[0]));
        }
        let all_black = all_cells_are(&self.board, &region.border, Stone::Black);
        let all_white = all_cells_are(&self.board, &region.border, Stone::White);
        proof {
            lemma_all_cells_iff(v, ni, coords, region.border@, Stone::Black);
            lemma_all_cells_iff(v, ni, coords, region.border@, Stone::White);
        }
        if all_black {
            Some(Stone::Black)
        } else if all_white {
            Some(Stone::White)
        } else {
            None
        }
    }

    /// The colour for which the cell at `coords` is an eye, if any: the
    /// single colour held by every in-bounds orthogonal neighbour.
    pub fn eye_owner(&self, coords: Coordinates) -> (r: Option<Stone>)
        requires
            self.wf(),
            in_bounds(self@.size, coords),
        ensures
            r == spec_eye_owner(self@.board, self@.size, coords),
    {
        let ghost v = self@.board;
        let ghost ni = self@.size;
        let n = self.board.side();
        let neighbors = neighbors_indices(coords, n);
        let all_black = all_cells_are(&self.board, &neighbors, Stone::Black);
        let all_white = all_cells_are(&self.board, &neighbors, Stone::White);
        proof {
            lemma_all_neighbors_iff(v, ni, coords, neighbors@, Stone::Black);
            lemma_all_neighbors_iff(v, ni, coords, neighbors@, Stone::White);
        }
        if all_black {
            Some(Stone::Black)
        } else if all_white {
            Some(Stone::White)
        } else {
            None
        }
    }

    /// Total area of the empty regions owned by `col`, counted cell by
    /// cell.
    fn territory_count(&self, col: Stone) -> (r: u32)
        requires
            self.wf(),
        ensures
            r == territory_of(self@.board, self@.size, col),
    {
        let ghost v = self@.board;
        let ghost ni = self@.size;
        let n = self.board.side();
        let mut r: u32 = 0;
        let mut i: usize = 0;
        while i < n
            invariant
                self.wf(),
                v == self@.board,
                ni == self@.size,
                n == v.len(),
                i <= n,
                r == terr_grid_count(v, ni, col, i as int),
                r <= i * n,
            decreases n - i,
        {
            let mut j: usize = 0;
            while j < n
                invariant
                    self.wf(),
                    v == self@.board,
                    ni == self@.size,
                    n == v.len(),
                    i < n,
                    j <= n,
                    r == terr_grid_count(v, ni, col, i as int) + terr_row_count(
                        v,
                        ni,
                        col,
                        i as int,
                        j as int,
                    ),
                    r <= i * n + j,
                decreases n - j,
            {
                proof {
                    assert(i * n + j + 1 <= n * n) by (nonlinear_arith)
                        requires
                            i < n,
                            j < n,
                    {}
                    assert(n * n <= 361) by (nonlinear_arith)
                        requires
                            n <= 19,
                    {}
                }
                if self.board.get((i, j)) == Stone::Empty {
                    let owner = self.territory_owner((i, j));
                    let owned = match owner {
                        Some(c) => c == col,
                        None => false,
                    };
                    if owned {
                        r = r + 1;
                    }
                } else {
                    proof {
                        assert(spec_territory_owner(v, ni, (i, j)) == None::<Stone>);
                    }
                }
                j = j + 1;
            }
            i = i + 1;
            proof {
                assert(r <= (i - 1) * n + n);
                assert((i - 1) * n + n == i * n) by (nonlinear_arith);
            }
        }
        r
    }

    /// Area scores of player 0 and player 1, in half-points: twice the
    /// stones on the board plus twice the owned empty area, plus the komi
    /// for player 1.
    pub fn calculate_scores(&self) -> (r: (u64, u64))
        requires
            self.wf(),
        ensures
            r.0 == self@.score2(0),
            r.1 == self@.score2(1),
    {
        let s0 = self.number_stones(self.players.0);
        let s1 = self.number_stones(self.players.1);
        let t0 = self.territory_count(self.players.0);
        let t1 = self.territory_count(self.players.1);
        let r0: u64 = 2 * (s0 as u64) + 2 * (t0 as u64);
        let r1: u64 = 2 * (s1 as u64) + 2 * (t1 as u64) + (self.komi2 as u64);
        (r0, r1)
    }

    /// The difference of the two players' area scores, in half-points:
    /// player 0's score minus player 1's score.
    pub fn calculate_scores_difference(&self) -> (r: i64)
        requires
            self.wf(),
        ensures
            r == self@.score2(0) - self@.score2(1),
    {
        let (a, b) = self.calculate_scores();
        proof {
            lemma_grid_count_le(self@.board, self@.players.0, self@.size, self@.size);
            lemma_grid_count_le(self@.board, self@.players.1, self@.size, self@.size);
            lemma_terr_grid_count_le(self@.board, self@.size, self@.players.0, self@.size);
            lemma_terr_grid_count_le(self@.board, self@.size, self@.players.1, self@.size);
            assert(self@.size * self@.size <= 361) by (nonlinear_arith)
                requires
                    0 <= self@.size <= 19,
            {}
        }
        (a as i64) - (b as i64)
    }

    /// The colour of the winner by area scoring, or nothing on a draw.
    pub fn winner(&self) -> (r: Option<Stone>)
        requires
            self.wf(),
        ensures
            r == self@.winner_stone(),
    {
        let (a, b) = self.calculate_scores();
        if a > b {
            Some(self.players.0)
        } else if b > a {
            Some(self.players.1)
        } else {
            None
        }
    }

    /// The heuristic owner of the group containing `coords`, traversed in
    /// territory mode: a colour for which the group holds at least two
    /// distinct eyes, if one exists.
    pub fn group_owner(&self, coords: Coordinates) -> (r: Option<Stone>)
        requires
            self.wf(),
            in_bounds(self@.size, coords),
        ensures
            match r {
                Some(col) => exists|d1: Coordinates, d2: Coordinates|
                    #![auto]
                    d1 != d2 && in_group(self@.board, self@.size, coords, true, d1) && in_group(
                        self@.board,
                        self@.size,
                        coords,
                        true,
                        d2,
                    ) && is_eye_for(self@.board, self@.size, d1, col) && is_eye_for(
                        self@.board,
                        self@.size,
                        d2,
                        col,
                    ),
                None => forall|col: Stone, d1: Coordinates, d2: Coordinates|
                    #![auto]
                    !(d1 != d2 && in_group(self@.board, self@.size, coords, true, d1) && in_group(
                        self@.board,
                        self@.size,
                        coords,
                        true,
                        d2,
                    ) && is_eye_for(self@.board, self@.size, d1, col) && is_eye_for(
                        self@.board,
                        self@.size,
                        d2,
                        col,
                    )),
            },
    {
        let ghost v = self@.board;
        let ghost ni = self@.size;
        let region = flood_fill(&self.board, coords, false, true);
        let ghost cells = region.group@;
        proof {
            assert forall|i: int| 0 <= i < cells.len() implies in_bounds(
                ni,
                #[trigger] cells[i],
            ) by {
                assert(cells.contains(cells[i]));
                lemma_in_group_matches(v, ni, coords, true, cells[i]);
            }
            lemma_distinct_coords_bounded(cells, ni);
            assert(ni * ni <= 361) by (nonlinear_arith)
                requires
                    0 <= ni <= 19,
            {}
        }
        let mut black: u32 = 0;
        let mut white: u32 = 0;
        let mut t: usize = 0;
        while t < region.group.len()
            invariant
                self.wf(),
                v == self@.board,
                ni == self@.size,
                cells == region.group@,
                cells.len() <= 361,
                t <= cells.len(),
                forall|i: int| 0 <= i < cells.len() ==> in_bounds(ni, #[trigger] cells[i]),
                black == eye_count(v, ni, cells, Stone::Black, t as int),
                white == eye_count(v, ni, cells, Stone::White, t as int),
                black <= t,
                white <= t,
            decreases cells.len() - t,
        {
            let d = region.group[t];
            if self.board.get(d) == Stone::Empty {
                let owner = self.eye_owner(d);
                match owner {
                    Some(col) => {
                        if col == Stone::Black {
                            black = black + 1;
                        } else {
                            white = white + 1;
                        }
                    },
                    None => {},
                }
            }
            t = t + 1;
        }
        if black >= 2 {
            proof {
                lemma_eye_count_two_witnesses(v, ni, cells, Stone::Black, cells.len() as int);
                let (i1, i2) = choose|i1: int, i2: int|
                    0 <= i1 < i2 < cells.len() && is_eye_for(v, ni, #[trigger] cells[i1], Stone::Black)
                        && is_eye_for(v, ni, #[trigger] cells[i2], Stone::Black);
                assert(cells.contains(cells[i1]) && cells.contains(cells[i2]));
                assert(cells[i1] != cells[i2]) by {
                    assert(region.group@.no_duplicates());
                }
            }
            Some(Stone::Black)
        } else if white >= 2 {
            proof {
                lemma_eye_count_two_witnesses(v, ni, cells, Stone::White, cells.len() as int);
                let (i1, i2) = choose|i1: int, i2: int|
                    0 <= i1 < i2 < cells.len() && is_eye_for(v, ni, #[trigger] cells[i1], Stone::White)
                        && is_eye_for(v, ni, #[trigger] cells[i2], Stone::White);
                assert(cells.contains(cells[i1]) && cells.contains(cells[i2]));
                assert(cells[i1] != cells[i2]) by {
                    assert(region.group@.no_duplicates());
                }
            }
            Some(Stone::White)
        } else {
            proof {
                assert forall|col: Stone, d1: Coordinates, d2: Coordinates|
                    #![auto]
                    !(d1 != d2 && in_group(v, ni, coords, true, d1) && in_group(
                        v,
                        ni,
                        coords,
                        true,
                        d2,
                    ) && is_eye_for(v, ni, d1, col) && is_eye_for(v, ni, d2, col)) by {
                    if d1 != d2 && in_group(v, ni, coords, true, d1) && in_group(
                        v,
                        ni,
                        coords,
                        true,
                        d2,
                    ) && is_eye_for(v, ni, d1, col) && is_eye_for(v, ni, d2, col) {
                        assert(cells.contains(d1) && cells.contains(d2));
                        let i1 = choose|i: int| 0 <= i < cells.len() && cells[i] == d1;
                        let i2 = choose|i: int| 0 <= i < cells.len() && cells[i] == d2;
                        assert(i1 != i2);
                        if i1 < i2 {
                            lemma_eye_count_two(v, ni, cells, col, i1, i2);
                        } else {
                            lemma_eye_count_two(v, ni, cells, col, i2, i1);
                        }
                        assert(eye_count(v, ni, cells, col, cells.len() as int) >= 2);
                        match col {
                            Stone::Black => {
                                assert(black >= 2);
                            },
                            Stone::White => {
                                assert(white >= 2);
                            },
                            Stone::Empty => {
                                assert(spec_eye_owner(v, ni, d1) != Some(Stone::Empty));
                            },
                        }
                    }
                }
            }
            None
        }
    }

    /// Every empty coordinate that is not an immediate suicide for the given
    /// player (ko not considered), plus the pass move, which always comes
    /// last.
    pub fn available_cases(&self, player: Stone) -> (r: Vec<Move>)
        requires
            self.wf(),
            player.is_color(),
        ensures
            r@.len() >= 1,
            r@[r@.len() - 1] == None::<Coordinates>,
            r@.no_duplicates(),
            forall|c: Coordinates|
                #[trigger] r@.contains(Some(c)) <==> (in_bounds(self@.size, c) && cell(
                    self@.board,
                    c,
                ) == Stone::Empty && !is_suicide(self@.board, self@.size, c, player)),
    {
        broadcast use vstd::seq_lib::lemma_seq_contains_after_push;

        let ghost v = self@.board;
        let ghost ni = self@.size;
        let n = self.board.side();
        let mut r: Vec<Move> = Vec::new();
        let mut i: usize = 0;
        while i < n
            invariant
                self.wf(),
                v == self@.board,
                ni == self@.size,
                n == v.len(),
                i <= n,
                r@.no_duplicates(),
                forall|k: int|
                    0 <= k < r@.len() ==> ((#[trigger] r@[k]) matches Some(d) && in_bounds(ni, d)
                        && d.0 < i),
                forall|c: Coordinates|
                    #[trigger] r@.contains(Some(c)) <==> (c.0 < i && in_bounds(ni, c) && cell(
                        v,
                        c,
                    ) == Stone::Empty && !is_suicide(v, ni, c, player)),
            decreases n - i,
        {
            let mut j: usize = 0;
            while j < n
                invariant
                    self.wf(),
                    v == self@.board,
                    ni == self@.size,
                    n == v.len(),
                    i < n,
                    j <= n,
                    r@.no_duplicates(),
                    forall|k: int|
                        0 <= k < r@.len() ==> ((#[trigger] r@[k]) matches Some(d) && in_bounds(
                            ni,
                            d,
                        ) && (d.0 < i || (d.0 == i && d.1 < j))),
                    forall|c: Coordinates|
                        #[trigger] r@.contains(Some(c)) <==> ((c.0 < i || (c.0 == i && c.1 < j))
                            && in_bounds(ni, c) && cell(v, c) == Stone::Empty && !is_suicide(
                            v,
                            ni,
                            c,
                            player,
                        )),
                decreases n - j,
            {
                if self.board.get((i, j)) == Stone::Empty {
                    if !placement_is_suicide(&self.board, (i, j), player) {
                        proof {
                            if r@.contains(Some((i, j))) {
                                let k = choose|k: int| 0 <= k < r@.len() && r@[k] == Some((i, j));
                                assert(false);
                            }
                            lemma_push_no_dup(r@, Some((i, j)));
                        }
                        let ghost r_before = r@;
                        r.push(Some((i, j)));
                        proof {
                        broadcast use vstd::seq_lib::lemma_seq_contains_after_push;

                        assert(r@ =~= r_before.push(Some((i, j))));
                        assert(r@.last() == Some((i, j)));
                        assert(r@.contains(Some((i, j))));
                        assert forall|c: Coordinates|
                            #[trigger] r@.contains(Some(c)) <==> ((c.0 < i || (c.0 == i && c.1 < j
                                + 1)) && in_bounds(ni, c) && cell(v, c) == Stone::Empty
                                && !is_suicide(v, ni, c, player)) by {
                            if c == (i, j) {
                                assert(c.0 == i && c.1 == j);
                            } else {
                                assert(Some(c) != Some((i, j)));
                                assert((c.0 < i || (c.0 == i && c.1 < j + 1)) <==> (c.0 < i || (
                                c.0 == i && c.1 < j)));
                            }
                        }
                    }
                    } else {
                        proof {
                        
                        assert forall|c: Coordinates|
                            #[trigger] r@.contains(Some(c)) <==> ((c.0 < i || (c.0 == i && c.1 < j
                                + 1)) && in_bounds(ni, c) && cell(v, c) == Stone::Empty
                                && !is_suicide(v, ni, c, player)) by {
                            if c == (i, j) {
                                assert(c.0 == i && c.1 == j);
                            } else {
                                assert(Some(c) != Some((i, j)));
                                assert((c.0 < i || (c.0 == i && c.1 < j + 1)) <==> (c.0 < i || (
                                c.0 == i && c.1 < j)));
                            }
                        }
                    }
                    }
                } else {
                    proof {
                        
                        assert forall|c: Coordinates|
                            #[trigger] r@.contains(Some(c)) <==> ((c.0 < i || (c.0 == i && c.1 < j
                                + 1)) && in_bounds(ni, c) && cell(v, c) == Stone::Empty
                                && !is_suicide(v, ni, c, player)) by {
                            if c == (i, j) {
                                assert(c.0 == i && c.1 == j);
                            } else {
                                assert(Some(c) != Some((i, j)));
                                assert((c.0 < i || (c.0 == i && c.1 < j + 1)) <==> (c.0 < i || (
                                c.0 == i && c.1 < j)));
                            }
                        }
                    }
                }
                j = j + 1;
            }
            i = i + 1;
        }
        proof {
            if r@.contains(None::<Coordinates>) {
                let k = choose|k: int| 0 <= k < r@.len() && r@[k] == None::<Coordinates>;
                assert(false);
            }
            lemma_push_no_dup(r@, None);
        }
        r.push(None);
        r
    }
}

/// Every listed border cell holding `col` is the same as every border cell
/// of the region of `start` holding `col`, when the list is exactly the
/// border.
proof fn lemma_all_cells_iff(
    v: Seq<Seq<Stone>>,
    n: int,
    start: Coordinates,
    cells: Seq<Coordinates>,
    col: Stone,
)
    requires
        forall|c: Coordinates| cells.contains(c) <==> in_border(v, n, start, false, c),
    ensures
        (forall|i: int| 0 <= i < cells.len() ==> cell(v, #[trigger] cells[i]) == col) <==> (
        forall|m: Coordinates| in_border(v, n, start, false, m) ==> cell(v, m) == col),
{
    if forall|i: int| 0 <= i < cells.len() ==> cell(v, #[trigger] cells[i]) == col {
        assert forall|m: Coordinates| in_border(v, n, start, false, m) implies cell(v, m)
            == col by {
            assert(cells.contains(m));
        }
    }
    if forall|m: Coordinates| in_border(v, n, start, false, m) ==> cell(v, m) == col {
        assert forall|i: int| 0 <= i < cells.len() implies cell(v, #[trigger] cells[i])
            == col by {
            assert(cells.contains(cells[i]));
            assert(in_border(v, n, start, false, cells[i]));
        }
    }
}

/// Checking a complete neighbour list cell by cell is the same as checking
/// all in-bounds neighbours.
proof fn lemma_all_neighbors_iff(
    v: Seq<Seq<Stone>>,
    n: int,
    c: Coordinates,
    cells: Seq<Coordinates>,
    col: Stone,
)
    requires
        forall|i: int|
            0 <= i < cells.len() ==> in_bounds(n, #[trigger] cells[i]) && adjacent(c, cells[i]),
        forall|m: Coordinates| in_bounds(n, m) && adjacent(c, m) ==> cells.contains(m),
    ensures
        (forall|i: int| 0 <= i < cells.len() ==> cell(v, #[trigger] cells[i]) == col)
            <==> all_neighbors_are(v, n, c, col),
{
    if forall|i: int| 0 <= i < cells.len() ==> cell(v, #[trigger] cells[i]) == col {
        assert forall|m: Coordinates| adjacent(c, m) && in_bounds(n, m) implies cell(v, m)
            == col by {
            assert(cells.contains(m));
            let i = choose|i: int| 0 <= i < cells.len() && cells[i] == m;
            assert(cell(v, cells[i]) == col);
        }
    }
    if all_neighbors_are(v, n, c, col) {
        assert forall|i: int| 0 <= i < cells.len() implies cell(v, #[trigger] cells[i])
            == col by {
            assert(adjacent(c, cells[i]) && in_bounds(n, cells[i]));
        }
    }
}

/// Whether the cell `c` is an eye for `col`: an empty cell all of whose
/// in-bounds orthogonal neighbours hold `col`.
pub open spec fn is_eye_for(v: Seq<Seq<Stone>>, n: int, c: Coordinates, col: Stone) -> bool {
    cell(v, c) == Stone::Empty && spec_eye_owner(v, n, c) == Some(col)
}

/// Number of eyes for `col` among the first `k` listed cells.
pub open spec fn eye_count(
    v: Seq<Seq<Stone>>,
    n: int,
    cells: Seq<Coordinates>,
    col: Stone,
    k: int,
) -> nat
    decreases k,
{
    if k <= 0 {
        0
    } else {
        eye_count(v, n, cells, col, k - 1) + (if is_eye_for(v, n, cells[k - 1], col) {
            1nat
        } else {
            0nat
        })
    }
}

proof fn lemma_eye_count_mono(
    v: Seq<Seq<Stone>>,
    n: int,
    cells: Seq<Coordinates>,
    col: Stone,
    k1: int,
    k2: int,
)
    requires
        k1 <= k2,
    ensures
        eye_count(v, n, cells, col, k1) <= eye_count(v, n, cells, col, k2),
    decreases k2 - k1,
{
    if k1 < k2 {
        lemma_eye_count_mono(v, n, cells, col, k1, k2 - 1);
    }
}

/// Two distinct listed eyes push the count to at least two.
proof fn lemma_eye_count_two(
    v: Seq<Seq<Stone>>,
    n: int,
    cells: Seq<Coordinates>,
    col: Stone,
    i1: int,
    i2: int,
)
    requires
        0 <= i1 < i2 < cells.len(),
        is_eye_for(v, n, cells[i1], col),
        is_eye_for(v, n, cells[i2], col),
    ensures
        eye_count(v, n, cells, col, cells.len() as int) >= 2,
{
    assert(eye_count(v, n, cells, col, i1 + 1) >= 1);
    lemma_eye_count_mono(v, n, cells, col, i1 + 1, i2);
    assert(eye_count(v, n, cells, col, i2 + 1) >= 2);
    lemma_eye_count_mono(v, n, cells, col, i2 + 1, cells.len() as int);
}

proof fn lemma_eye_count_one_witness(
    v: Seq<Seq<Stone>>,
    n: int,
    cells: Seq<Coordinates>,
    col: Stone,
    k: int,
)
    requires
        0 <= k <= cells.len(),
        eye_count(v, n, cells, col, k) >= 1,
    ensures
        exists|i: int| 0 <= i < k && is_eye_for(v, n, #[trigger] cells[i], col),
    decreases k,
{
    if is_eye_for(v, n, cells[k - 1], col) {
        assert(0 <= k - 1 < k && is_eye_for(v, n, cells[k - 1], col));
    } else {
        lemma_eye_count_one_witness(v, n, cells, col, k - 1);
    }
}

/// A count of at least two yields two distinct listed eyes.
proof fn lemma_eye_count_two_witnesses(
    v: Seq<Seq<Stone>>,
    n: int,
    cells: Seq<Coordinates>,
    col: Stone,
    k: int,
)
    requires
        0 <= k <= cells.len(),
        eye_count(v, n, cells, col, k) >= 2,
    ensures
        exists|i1: int, i2: int|
            0 <= i1 < i2 < k && is_eye_for(v, n, #[trigger] cells[i1], col) && is_eye_for(
                v,
                n,
                #[trigger] cells[i2],
                col,
            ),
    decreases k,
{
    if is_eye_for(v, n, cells[k - 1], col) {
        lemma_eye_count_one_witness(v, n, cells, col, k - 1);
        let i = choose|i: int| 0 <= i < k - 1 && is_eye_for(v, n, #[trigger] cells[i], col);
        assert(0 <= i < k - 1 < k && is_eye_for(v, n, cells[i], col) && is_eye_for(
            v,
            n,
            cells[k - 1],
            col,
        ));
    } else {
        lemma_eye_count_two_witnesses(v, n, cells, col, k - 1);
    }
}

/// Whether placing `mover`'s stone at `player_choice` would leave the
/// resulting group of the new stone with zero liberties.
fn placement_is_suicide(board: &Board, player_choice: Coordinates, mover: Stone) -> (r: bool)
    requires
        board.wf(),
        in_bounds(board@.len() as int, player_choice),
    ensures
        r == is_suicide(board@, board@.len() as int, player_choice, mover),
{
    let ghost n = board@.len() as int;
    let mut test_board = board.duplicate();
    test_board.set(player_choice, mover);
    let ghost w = grid_update(board@, player_choice, mover);
    proof {
        assert(test_board@ =~~= w);
    }
    let region = flood_fill(&test_board, player_choice, true, false);
    let opp = mover.opposite();
    proof {
        assert forall|i: int| 0 <= i < region.border@.len() implies in_bounds(
            n,
            #[trigger] region.border@[i],
        ) by {
            assert(region.border@.contains(region.border@[i]));
        }
    }
    let r = all_cells_are(&test_board, &region.border, opp);
    proof {
        if r {
            assert forall|m: Coordinates| in_border(w, n, player_choice, false, m) implies cell(
                w,
                m,
            ) == opp by {
                assert(region.border@.contains(m));
            }
        } else {
            let i = choose|i: int|
                0 <= i < region.border@.len() && cell(w, region.border@[i]) != opp;
            assert(region.border@.contains(region.border@[i]));
            assert(in_border(w, n, player_choice, false, region.border@[i]));
        }
    }
    r
}

/// A duplicate-free sequence stays duplicate-free when a fresh element is
/// pushed.
proof fn lemma_push_no_dup<A>(s: Seq<A>, x: A)
    requires
        s.no_duplicates(),
        !s.contains(x),
    ensures
        s.push(x).no_duplicates(),
{
    let t = s.push(x);
    assert forall|i: int, j: int| 0 <= i < t.len() && 0 <= j < t.len() && i != j implies t[i]
        != t[j] by {
        if i < s.len() && j < s.len() {
            assert(t[i] == s[i] && t[j] == s[j]);
        } else if i < s.len() {
            assert(t[j] == x && t[i] == s[i]);
        } else {
            assert(t[i] == x && t[j] == s[j]);
        }
    }
}

/// Whether every listed cell holds exactly the colour `col`.
fn all_cells_are(board: &Board, cells: &Vec<Coordinates>, col: Stone) -> (r: bool)
    requires
        board.wf(),
        forall|i: int|
            0 <= i < cells@.len() ==> in_bounds(board@.len() as int, #[trigger] cells@[i]),
    ensures
        r <==> forall|i: int| 0 <= i < cells@.len() ==> cell(board@, #[trigger] cells@[i]) == col,
{
    let mut k: usize = 0;
    while k < cells.len()
        invariant
            k <= cells@.len(),
            board.wf(),
            forall|i: int|
                0 <= i < cells@.len() ==> in_bounds(board@.len() as int, #[trigger] cells@[i]),
            forall|i: int| 0 <= i < k ==> cell(board@, #[trigger] cells@[i]) == col,
        decreases cells@.len() - k,
    {
        if board.get(cells[k]) != col {
            return false;
        }
        k = k + 1;
    }
    true
}

/// On a board already holding the new stone at `mv`, collects every cell of
/// every opposing group that is adjacent to the new stone and fully
/// surrounded by the mover's colour.
fn find_captured(test_board: &Board, mv: Coordinates, mover: Stone) -> (r: Vec<Coordinates>)
    requires
        test_board.wf(),
        in_bounds(test_board@.len() as int, mv),
        cell(test_board@, mv) == mover,
        mover.is_color(),
    ensures
        forall|d: Coordinates|
            r@.contains(d) <==> is_captured_on(
                test_board@,
                test_board@.len() as int,
                mv,
                mover,
                d,
            ),
{
    let ghost w = test_board@;
    let n = test_board.side();
    let ghost ni = n as int;
    let opp = mover.opposite();
    let neighbors = neighbors_indices(mv, n);
    let mut r: Vec<Coordinates> = Vec::new();
    let mut k: usize = 0;
    while k < neighbors.len()
        invariant
            k <= neighbors@.len(),
            test_board.wf(),
            w == test_board@,
            ni == w.len(),
            in_bounds(ni, mv),
            cell(w, mv) == mover,
            mover.is_color(),
            opp == mover.spec_opposite(),
            neighbors@.no_duplicates(),
            forall|i: int|
                0 <= i < neighbors@.len() ==> in_bounds(ni, #[trigger] neighbors@[i]) && adjacent(
                    mv,
                    neighbors@[i],
                ),
            forall|m: Coordinates| in_bounds(ni, m) && adjacent(mv, m) ==> neighbors@.contains(m),
            forall|d: Coordinates|
                r@.contains(d) <==> exists|j: int|
                    0 <= j < k && #[trigger] captured_via(w, ni, mv, mover, d, neighbors@[j]),
        decreases neighbors@.len() - k,
    {
        let a = neighbors[k];
        let ghost entry_r = r@;
        if test_board.get(a) == opp {
            let region = flood_fill(test_board, a, true, false);
            proof {
                assert forall|i: int| 0 <= i < region.border@.len() implies in_bounds(
                    ni,
                    #[trigger] region.border@[i],
                ) by {
                    assert(region.border@.contains(region.border@[i]));
                }
            }
            let surrounded = all_cells_are(test_board, &region.border, mover);
            proof {
                if surrounded {
                    assert forall|m: Coordinates| in_border(w, ni, a, false, m) implies cell(w, m)
                        == mover by {
                        assert(region.border@.contains(m));
                    }
                    assert(group_surrounded_by(w, ni, a, mover));
                } else {
                    let i = choose|i: int|
                        0 <= i < region.border@.len() && cell(w, region.border@[i]) != mover;
                    assert(region.border@.contains(region.border@[i]));
                    assert(!group_surrounded_by(w, ni, a, mover));
                }
            }
            if surrounded {
                let mut t: usize = 0;
                while t < region.group.len()
                    invariant
                        t <= region.group@.len(),
                        test_board.wf(),
                        w == test_board@,
                        ni == w.len(),
                        in_bounds(ni, mv),
                        cell(w, mv) == mover,
                        mover.is_color(),
                        opp == mover.spec_opposite(),
                        k < neighbors@.len(),
                        a == neighbors@[k as int],
                        in_bounds(ni, a),
                        adjacent(mv, a),
                        cell(w, a) == opp,
                        group_surrounded_by(w, ni, a, mover),
                        region_exact(w, a, true, false, region),
                        forall|d: Coordinates|
                            #![trigger r@.contains(d)]
                            r@.contains(d) <==> (entry_r.contains(d) || exists|s: int|
                                0 <= s < t && region.group@[s] == d),
                    decreases region.group@.len() - t,
                {
                    let d = region.group[t];
                    let ghost prev = r@;
                    r.push(d);
                    proof {
                        assert(r@ =~= prev.push(d));
                        assert(r@.last() == d);
                        assert(r@.contains(d));
                        assert forall|e: Coordinates| #[trigger] r@.contains(e) implies (
                        prev.contains(e) || e == d) by {
                            let i = choose|i: int| 0 <= i < r@.len() && r@[i] == e;
                            if i < prev.len() {
                                assert(prev[i] == e);
                            }
                        }
                        assert forall|e: Coordinates| #[trigger] prev.contains(e) implies
                            r@.contains(e) by {
                            let i = choose|i: int| 0 <= i < prev.len() && prev[i] == e;
                            assert(r@[i] == e);
                        }
                        assert forall|e: Coordinates| #[trigger] r@.contains(e) implies (
                        entry_r.contains(e) || exists|s: int|
                            0 <= s < t + 1 && region.group@[s] == e) by {
                            if e == d {
                                assert(region.group@[t as int] == e);
                            }
                        }
                        assert forall|e: Coordinates|
                            (entry_r.contains(e) || exists|s: int|
                                0 <= s < t + 1 && region.group@[s] == e) implies #[trigger] r@.contains(e) by {
                            if entry_r.contains(e) {
                                assert(prev.contains(e));
                            } else {
                                let s = choose|s: int| 0 <= s < t + 1 && region.group@[s] == e;
                                if s < t {
                                    assert(prev.contains(e));
                                } else {
                                    assert(e == d);
                                }
                            }
                        }
                    }
                    t = t + 1;
                }
                proof {
                    assert forall|d: Coordinates| #[trigger] r@.contains(d) implies (
                    entry_r.contains(d) || captured_via(w, ni, mv, mover, d, a)) by {
                        if !entry_r.contains(d) {
                            let s = choose|s: int|
                                0 <= s < region.group@.len() && region.group@[s] == d;
                            assert(region.group@.contains(d));
                            assert(in_group(w, ni, a, false, d));
                            lemma_in_group_matches(w, ni, a, false, d);
                            lemma_same_group_same_border(w, ni, false, a, d);
                        }
                    }
                    assert forall|d: Coordinates| captured_via(w, ni, mv, mover, d, a)
                        implies #[trigger] r@.contains(d) by {
                        assert(in_group(w, ni, a, false, d));
                        assert(region.group@.contains(d));
                        let s = choose|s: int|
                            0 <= s < region.group@.len() && region.group@[s] == d;
                        assert(0 <= s < t && region.group@[s] == d);
                        assert(exists|s2: int| 0 <= s2 < t && region.group@[s2] == d);
                        assert(r@.contains(d));
                    }
                }
            } else {
                proof {
                    assert forall|d: Coordinates| !(#[trigger] captured_via(
                        w,
                        ni,
                        mv,
                        mover,
                        d,
                        a,
                    )) by {
                        if captured_via(w, ni, mv, mover, d, a) {
                            lemma_in_group_matches(w, ni, a, false, d);
                            lemma_same_group_same_border(w, ni, false, a, d);
                            assert(group_surrounded_by(w, ni, a, mover));
                        }
                    }
                }
            }
        } else {
            proof {
                assert(forall|d: Coordinates|
                    !(#[trigger] captured_via(w, ni, mv, mover, d, a)));
            }
        }
        proof {
            assert forall|d: Coordinates| #[trigger] r@.contains(d) implies (exists|j: int|
                0 <= j < k + 1 && #[trigger] captured_via(w, ni, mv, mover, d, neighbors@[j]))
                by {
                if entry_r.contains(d) {
                    let j = choose|j: int|
                        0 <= j < k && #[trigger] captured_via(w, ni, mv, mover, d, neighbors@[j]);
                    assert(captured_via(w, ni, mv, mover, d, neighbors@[j]));
                } else {
                    assert(captured_via(w, ni, mv, mover, d, neighbors@[k as int]));
                }
            }
            assert forall|d: Coordinates|
                (exists|j: int|
                    0 <= j < k + 1 && #[trigger] captured_via(
                        w,
                        ni,
                        mv,
                        mover,
                        d,
                        neighbors@[j],
                    )) implies #[trigger] r@.contains(d) by {
                let j = choose|j: int|
                    0 <= j < k + 1 && captured_via(w, ni, mv, mover, d, neighbors@[j]);
                if j < k {
                    assert(entry_r.contains(d));
                }
            }
        }
        k = k + 1;
    }
    proof {
        assert forall|d: Coordinates| r@.contains(d) implies is_captured_on(
            w,
            ni,
            mv,
            mover,
            d,
        ) by {
            let j = choose|j: int|
                0 <= j < neighbors@.len() && captured_via(w, ni, mv, mover, d, neighbors@[j]);
            let a = neighbors@[j];
            lemma_in_group_matches(w, ni, a, false, d);
        }
        assert forall|d: Coordinates| is_captured_on(w, ni, mv, mover, d) implies r@.contains(
            d,
        ) by {
            let a = choose|a: Coordinates|
                #![auto]
                adjacent(mv, a) && in_bounds(ni, a) && cell(w, a) == mover.spec_opposite()
                    && in_group(w, ni, a, false, d);
            assert(neighbors@.contains(a));
            let j = choose|j: int| 0 <= j < neighbors@.len() && neighbors@[j] == a;
            assert(captured_via(w, ni, mv, mover, d, neighbors@[j]));
        }
    }
    r
}

/// Whether `d` is captured through the particular adjacent cell `a` of the
/// new stone: `a` holds the opposing colour, `d` lies in `a`'s group, and
/// that group is fully surrounded by the mover's colour.
pub open spec fn captured_via(
    w: Seq<Seq<Stone>>,
    n: int,
    mv: Coordinates,
    mover: Stone,
    d: Coordinates,
    a: Coordinates,
) -> bool {
    &&& adjacent(mv, a)
    &&& in_bounds(n, a)
    &&& cell(w, a) == mover.spec_opposite()
    &&& in_group(w, n, a, false, d)
    &&& group_surrounded_by(w, n, d, mover)
}

/// A move that leaves the mover's own group with zero liberties and
/// captures nothing is always rejected as suicide.
pub proof fn lemma_suicide_rejected(g: GameView, c: Coordinates)
    requires
        !g.over,
        in_bounds(g.size, c),
        cell(g.board, c) == Stone::Empty,
        is_suicide(g.board, g.size, c, g.mover_stone()),
        !any_capture(g.board, g.size, c, g.mover_stone()),
    ensures
        step_verdict(g, Some(c)) == Err::<(), Signals>(Signals::InducesSuicide),
        step_next(g, Some(c)) == g,
{
}

/// Two consecutive passes from any non-terminal state end the game: the
/// second pass is reported as a double pass and the terminal flag is set,
/// never to clear.
pub proof fn lemma_double_pass_terminates(g: GameView)
    requires
        !g.over,
    ensures
        step_next(step_next(g, None), None).over,
        !g.passed ==> step_verdict(step_next(g, None), None) == Err::<(), Signals>(
            Signals::DoublePass,
        ),
        g.passed ==> step_verdict(g, None) == Err::<(), Signals>(Signals::DoublePass),
{
}

/// A single move captures every opposing group that independently becomes
/// fully surrounded: each captured cell is cleared on the committed board,
/// however many distinct groups they belong to.
pub proof fn lemma_multiple_groups_captured(
    g: GameView,
    c: Coordinates,
    d1: Coordinates,
    d2: Coordinates,
)
    requires
        g.wf(),
        step_verdict(g, Some(c)) == Ok::<(), Signals>(()),
        is_captured(g.board, g.size, c, g.mover_stone(), d1),
        is_captured(g.board, g.size, c, g.mover_stone(), d2),
    ensures
        cell(step_next(g, Some(c)).board, d1) == Stone::Empty,
        cell(step_next(g, Some(c)).board, d2) == Stone::Empty,
{
    let w = board_after_move(g.board, g.size, c, g.mover_stone());
    assert(in_bounds(g.size, d1) && in_bounds(g.size, d2));
    assert((d1.0 as int as usize, d1.1 as int as usize) == d1);
    assert((d2.0 as int as usize, d2.1 as int as usize) == d2);
    assert(cell(w, d1) == Stone::Empty);
    assert(cell(w, d2) == Stone::Empty);
}

/// On a board without stones, no empty region has an owner: no
/// single-colour border exists.
pub proof fn lemma_empty_board_unowned(v: Seq<Seq<Stone>>, n: int, c: Coordinates)
    requires
        n == v.len(),
        in_bounds(n, c),
        forall|d: Coordinates| in_bounds(n, d) ==> #[trigger] cell(v, d) == Stone::Empty,
    ensures
        spec_territory_owner(v, n, c) == None::<Stone>,
{
    assert forall|m: Coordinates| !in_border(v, n, c, false, m) by {
        if in_border(v, n, c, false, m) {
            assert(cell(v, m) == Stone::Empty);
        }
    }
    assert(!territory_owner_is(v, n, c, Stone::Black));
    assert(!territory_owner_is(v, n, c, Stone::White));
}

} // verus!
