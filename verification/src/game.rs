//! The turn engine: the board, the turn counter, the cached outcome, and
//! the one externally meaningful operation, taking a turn.
//!
//! A turn is an atomic transaction: validate, place the stone, extract the
//! chosen sub-square into a scratch copy, rotate the copy, write it back,
//! scan for an outcome, and advance the turn counter.  Any failed check
//! returns an error before the first mutation, so a rejected turn leaves
//! the game untouched.

use vstd::prelude::*;

use crate::cell::Cell;
use crate::cell::grid_view;
use crate::cell::has_stone_id;
use crate::cell::is_square;
use crate::cell::stone_id_present;
use crate::cell::stone_ids_below;
use crate::cell::stone_ids_present;
use crate::cell::stone_ids_unique;
use crate::cell::subgrid;
use crate::cell::patched;
use crate::cell::spin_cell_grid;
use crate::cell::lemma_grid_spun_square;
use crate::cell::lemma_patched_ids;
use crate::cell::lemma_spun_ids;
use crate::cell::lemma_subgrid_ids;
use crate::cell::grid_spun;
use crate::cell::grid_spun_ccw;
use crate::scan::any_winner;
use crate::scan::board_full;
use crate::scan::collect_winners;
use crate::scan::lemma_mark_ids;
use crate::scan::lemma_winning_pos_bounds;
use crate::scan::mark_winners;
use crate::scan::scan_outcome;
use crate::scan::tile_listed;
use crate::scan::winners_all;
use crate::scan::winning_pos;
use crate::scan::with_won;
use crate::types::GameOutcome;
use crate::types::Orientation;
use crate::types::Player;
use crate::types::SpinDirection;
use crate::types::Turn;
use crate::types::TurnDetails;
use crate::types::TurnError;
use crate::types::TurnResult;
use crate::types::player_of_id;

verus! {

/// The cell at `(r, c)` of a freshly built board of side `n`: empty, with
/// a line flag towards every neighbouring cell and none pointing off the
/// board edge.
pub open spec fn initial_cell(n: int, r: int, c: int) -> Cell {
    Cell {
        stone: None,
        line_up: r > 0,
        line_right: c + 1 < n,
        line_down: r + 1 < n,
        line_left: c > 0,
    }
}

/// The board `g` with a fresh stone `(id, Up, not-won)` placed at `(r, c)`;
/// the cell's line flags are untouched.
pub open spec fn placed(g: Seq<Seq<Cell>>, r: int, c: int, id: usize) -> Seq<Seq<Cell>> {
    g.update(
        r,
        g[r].update(c, Cell { stone: Some((id, Orientation::Up, false)), ..g[r][c] }),
    )
}

/// The board `g` after the spin half of a turn: the square sub-region with
/// top-left corner `(u, l)` and side `sz` is extracted, rotated one
/// quarter-turn clockwise (or three, for a counter-clockwise spin), and
/// written back in place.
pub open spec fn spun_region(
    g: Seq<Seq<Cell>>,
    u: int,
    l: int,
    sz: int,
    dir: SpinDirection,
) -> Seq<Seq<Cell>> {
    let s = subgrid(g, u, l, sz);
    let rotated = match dir {
        SpinDirection::CW => grid_spun(s),
        SpinDirection::CCW => grid_spun_ccw(s),
    };
    patched(g, u, l, rotated)
}

/// The play and spin coordinates of `t` all lie on a board of side `n`:
/// the play cell is on the board and the spin sub-square, whose side may be
/// as small as 1 and as large as the full board, does not extend past the
/// edge in either axis.
pub open spec fn valid_location(n: int, t: TurnDetails) -> bool {
    &&& t.play_row < n
    &&& t.play_col < n
    &&& 1 <= t.spin_size
    &&& t.spin_ul_row + t.spin_size <= n
    &&& t.spin_ul_col + t.spin_size <= n
}

/// A match of Kura Kura: the board, the required line length, the id of the
/// stone about to be placed, and the cached outcome.  Once `outcome` is set
/// it never changes and no further turns are accepted.
pub struct Game {
    win_len: usize,
    board: Vec<Vec<Cell>>,
    turn: usize,
    outcome: Option<GameOutcome>,
}

impl Game {
    /// The board as a mathematical grid.
    pub closed spec fn grid(self) -> Seq<Seq<Cell>> {
        grid_view(self.board@)
    }

    /// The board's side length.
    pub closed spec fn spec_size(self) -> int {
        self.board@.len() as int
    }

    /// The line length required to win.
    pub closed spec fn spec_win_len(self) -> int {
        self.win_len as int
    }

    /// The id of the stone the active turn will place.
    pub closed spec fn spec_turn(self) -> int {
        self.turn as int
    }

    /// The cached outcome: `None` until the game is over.
    pub closed spec fn spec_outcome(self) -> Option<GameOutcome> {
        self.outcome
    }

    /// Well-formedness, maintained by the constructor and every turn: the
    /// board is square and large enough for the win length, the turn
    /// counter starts at 1, and the stones on the board carry exactly the
    /// ids `1 .. turn`, each exactly once.
    pub closed spec fn wf(self) -> bool {
        let n = self.spec_size();
        &&& is_square(self.grid())
        &&& 1 <= self.spec_win_len() <= n
        &&& n * n < usize::MAX
        &&& n + n <= usize::MAX
        &&& 1 <= self.spec_turn()
        &&& stone_ids_below(self.grid(), self.spec_turn())
        &&& stone_ids_unique(self.grid())
        &&& stone_ids_present(self.grid(), self.spec_turn())
    }

    /// Build an empty board of side `size` with pre-wired background
    /// connectivity: every interior edge between two adjacent cells is
    /// marked from both sides, and no line flag points off the board edge.
    /// The win length is a caller responsibility: it must be at least 1 and
    /// at most `size`.
    pub fn new(size: usize, win_len: usize) -> (game: Game)
        requires
            1 <= win_len <= size,
            size * size < usize::MAX,
        ensures
            game.wf(),
            game.spec_size() == size,
            game.spec_win_len() == win_len,
            game.spec_turn() == 1,
            game.spec_outcome() is None,
            forall|r: int, c: int|
                0 <= r < size && 0 <= c < size ==> game.grid()[r][c] == initial_cell(
                    size as int,
                    r,
                    c,
                ),
    {
        let mut board: Vec<Vec<Cell>> = Vec::new();
        for r in 0..size
            invariant
                board@.len() == r,
                forall|i: int| 0 <= i < r ==> (#[trigger] board@[i])@.len() == size,
                forall|i: int, j: int|
                    0 <= i < r && 0 <= j < size ==> board@[i]@[j] == initial_cell(size as int, i, j),
        {
            let mut row: Vec<Cell> = Vec::new();
            for c in 0..size
                invariant
                    r < size,
                    row@.len() == c,
                    forall|j: int|
                        0 <= j < c ==> row@[j] == initial_cell(size as int, r as int, j),
            {
                row.push(
                    Cell {
                        stone: None,
                        line_up: r > 0,
                        line_right: c + 1 < size,
                        line_down: r + 1 < size,
                        line_left: c > 0,
                    },
                );
            }
            board.push(row);
        }
        let game = Game { win_len, board, turn: 1, outcome: None };
        proof {
            assert(size + size <= size * size || size < 2) by (nonlinear_arith);
            assert forall|r: int, c: int, id: int|
                !#[trigger] has_stone_id(game.grid(), r, c, id) by {
                if 0 <= r < size && 0 <= c < size {
                    assert(game.grid()[r][c] == initial_cell(size as int, r, c));
                }
            }
        }
        game
    }

    /// The board's side length.
    pub fn size(&self) -> (n: usize)
        ensures
            n == self.spec_size(),
    {
        self.board.len()
    }

    /// The line length required to win.
    pub fn win_len(&self) -> (w: usize)
        ensures
            w == self.spec_win_len(),
    {
        self.win_len
    }

    /// The number of the active turn, which is also the id of the stone it
    /// will place.
    pub fn turn_count(&self) -> (t: usize)
        ensures
            t == self.spec_turn(),
    {
        self.turn
    }

    /// The cached outcome: `None` while the game continues.
    pub fn outcome(&self) -> (o: Option<GameOutcome>)
        ensures
            o == self.spec_outcome(),
    {
        self.outcome
    }

    /// The cell at `(r, c)`, for rendering and inspection.
    pub fn cell(&self, r: usize, c: usize) -> (cell: Cell)
        requires
            self.wf(),
            r < self.spec_size(),
            c < self.spec_size(),
        ensures
            cell == self.grid()[r as int][c as int],
    {
        self.board[r][c]
    }

    /// The player whose turn it is, derived from the turn counter's parity:
    /// odd turns belong to Black.
    pub fn whose_turn(&self) -> (p: Player)
        ensures
            p == player_of_id(self.spec_turn()),
    {
        if self.turn % 2 == 1 {
            Player::Black
        } else {
            Player::White
        }
    }

    /// Copy the square sub-region with top-left corner `(u, l)` and side
    /// `size` out of the board into a scratch grid.  The copy never aliases
    /// the board, so rotating it cannot disturb the original.
    fn copy_slice_out(&self, u: usize, l: usize, size: usize) -> (ret: Vec<Vec<Cell>>)
        requires
            is_square(self.grid()),
            u + size <= self.spec_size(),
            l + size <= self.spec_size(),
        ensures
            grid_view(ret@) == subgrid(self.grid(), u as int, l as int, size as int),
    {
        let ghost g = self.grid();
        let n = self.board.len();
        let mut ret: Vec<Vec<Cell>> = Vec::new();
        for ro in 0..size
            invariant
                g == self.grid(),
                is_square(g),
                n == g.len(),
                u + size <= n,
                l + size <= n,
                ret@.len() == ro,
                forall|i: int| 0 <= i < ro ==> (#[trigger] ret@[i])@.len() == size,
                forall|i: int, j: int|
                    0 <= i < ro && 0 <= j < size ==> ret@[i]@[j] == g[u + i][l + j],
        {
            let mut row: Vec<Cell> = Vec::new();
            for co in 0..size
                invariant
                    g == self.grid(),
                    is_square(g),
                    n == g.len(),
                    u + size <= n,
                    l + size <= n,
                    ro < size,
                    row@.len() == co,
                    forall|j: int| 0 <= j < co ==> row@[j] == g[u + ro][l + j],
            {
                assert(g[u + ro].len() == g.len());
                row.push(self.board[u + ro][l + co]);
            }
            ret.push(row);
        }
        proof {
            assert(grid_view(ret@) =~~= subgrid(g, u as int, l as int, size as int));
        }
        ret
    }

    /// Write a scratch grid back over the square region it was copied from.
    /// Only the board changes; the turn counter, win length, and outcome
    /// stay as they were.
    fn copy_slice_in(&mut self, u: usize, l: usize, slice: Vec<Vec<Cell>>)
        requires
            is_square(old(self).grid()),
            is_square(grid_view(slice@)),
            u + slice@.len() <= old(self).spec_size(),
            l + slice@.len() <= old(self).spec_size(),
        ensures
            final(self).grid() == patched(old(self).grid(), u as int, l as int, grid_view(slice@)),
            final(self).spec_win_len() == old(self).spec_win_len(),
            final(self).spec_turn() == old(self).spec_turn(),
            final(self).spec_outcome() == old(self).spec_outcome(),
            final(self).spec_size() == old(self).spec_size(),
    {
        let ghost g0 = old(self).grid();
        let ghost s = grid_view(slice@);
        let size = slice.len();
        let n = self.board.len();
        for ro in 0..size
            invariant
                is_square(g0),
                is_square(s),
                size == s.len(),
                n == g0.len(),
                u + size <= n,
                l + size <= n,
                self.board@.len() == g0.len(),
                self.win_len == old(self).win_len,
                self.turn == old(self).turn,
                self.outcome == old(self).outcome,
                s == grid_view(slice@),
                forall|i: int| 0 <= i < g0.len() ==> (#[trigger] self.grid()[i]).len()
                    == g0[i].len(),
                forall|i: int, j: int|
                    0 <= i < g0.len() && 0 <= j < g0[i].len() ==> #[trigger] self.grid()[i][j]
                        == (if u <= i < u + ro && l <= j < l + size {
                        s[i - u][j - l]
                    } else {
                        g0[i][j]
                    }),
        {
            for co in 0..size
                invariant
                    is_square(g0),
                    is_square(s),
                    size == s.len(),
                    n == g0.len(),
                    u + size <= n,
                    l + size <= n,
                    ro < size,
                    self.board@.len() == g0.len(),
                    self.win_len == old(self).win_len,
                    self.turn == old(self).turn,
                    self.outcome == old(self).outcome,
                    s == grid_view(slice@),
                    forall|i: int| 0 <= i < g0.len() ==> (#[trigger] self.grid()[i]).len()
                        == g0[i].len(),
                    forall|i: int, j: int|
                        0 <= i < g0.len() && 0 <= j < g0[i].len() ==> #[trigger] self.grid()[i][j]
                            == (if (u <= i < u + ro && l <= j < l + size) || (i == u + ro && l <= j
                            < l + co) {
                            s[i - u][j - l]
                        } else {
                            g0[i][j]
                        }),
            {
                assert(s[ro as int].len() == size);
                assert(self.grid()[(u + ro) as int].len() == g0.len());
                let cell = slice[ro][co];
                let ghost gprev = self.grid();
                self.board[u + ro][l + co] = cell;
                proof {
                    assert(cell == s[ro as int][co as int]);
                    assert(self.board@[(u + ro) as int]@ =~= gprev[(u + ro) as int].update(
                        (l + co) as int,
                        cell,
                    ));
                    assert forall|i: int|
                        0 <= i < g0.len() implies (#[trigger] self.grid()[i]).len()
                        == g0[i].len() by {
                        if i != u + ro {
                            assert(self.grid()[i] == gprev[i]);
                        }
                    }
                    assert forall|i: int, j: int|
                        0 <= i < g0.len() && 0 <= j < g0[i].len() implies #[trigger] self.grid(
                    )[i][j] == (if (u <= i < u + ro && l <= j < l + size) || (i == u + ro && l <= j
                        < l + co + 1) {
                        s[i - u][j - l]
                    } else {
                        g0[i][j]
                    }) by {
                        if i != u + ro {
                            assert(self.grid()[i] == gprev[i]);
                        } else if j != l + co {
                            assert(self.grid()[i][j] == gprev[i][j]);
                        }
                    }
                }
            }
        }
        proof {
            assert(final(self).grid() =~~= patched(g0, u as int, l as int, s));
        }
    }

    /// Scan the board, permanently flag the stone of every winning tile,
    /// and cache the outcome the scan yields.  Pure apart from the `won`
    /// flags and the cached outcome: stones, ids, and orientations are
    /// untouched.
    fn update_outcome(&mut self)
        requires
            is_square(old(self).grid()),
            1 <= old(self).spec_win_len() <= old(self).spec_size(),
            old(self).spec_size() + old(self).spec_size() <= usize::MAX,
            old(self).spec_outcome() is None,
        ensures
            final(self).grid() == mark_winners(old(self).grid(), old(self).spec_win_len()),
            final(self).spec_outcome() == scan_outcome(
                old(self).grid(),
                old(self).spec_win_len(),
            ),
            final(self).spec_turn() == old(self).spec_turn(),
            final(self).spec_win_len() == old(self).spec_win_len(),
            final(self).spec_size() == old(self).spec_size(),
    {
        let ghost g = old(self).grid();
        let w = self.win_len;
        let ghost wi = w as int;
        let tiles = collect_winners(&self.board, w);

        if tiles.len() > 0 {
            // Flag every collected tile's stone as part of a win.  Tiles on
            // several lines occur more than once; re-flagging is harmless.
            let mut k: usize = 0;
            while k < tiles.len()
                invariant
                    is_square(g),
                    1 <= wi <= g.len(),
                    g.len() + g.len() <= usize::MAX,
                    k <= tiles@.len(),
                    self.board@.len() == g.len(),
                    self.win_len == old(self).win_len,
                    self.turn == old(self).turn,
                    self.outcome == old(self).outcome,
                    forall|r: int, c: int| #[trigger]
                        tile_listed(tiles@, r, c) <==> winning_pos(g, wi, r, c),
                    forall|i: int| 0 <= i < g.len() ==> (#[trigger] self.grid()[i]).len()
                        == g[i].len(),
                    forall|r: int, c: int|
                        0 <= r < g.len() && 0 <= c < g[r].len() ==> #[trigger] self.grid()[r][c]
                            == (if tile_listed(tiles@.take(k as int), r, c) {
                            with_won(g[r][c])
                        } else {
                            g[r][c]
                        }),
                decreases tiles@.len() - k,
            {
                let rc = tiles[k];
                let r = rc.0;
                let c = rc.1;
                proof {
                    assert(tiles@[k as int].0 == r as int && tiles@[k as int].1 == c as int);
                    assert(tile_listed(tiles@, r as int, c as int));
                    lemma_winning_pos_bounds(g, wi, r as int, c as int);
                    assert(self.grid()[r as int].len() == g[r as int].len());
                }
                let cur = self.board[r][c];
                let ghost gprev = self.grid();
                match cur.stone {
                    Some((idn, orn, _)) => {
                        self.board[r][c].stone = Some((idn, orn, true));
                    },
                    None => {
                        proof {
                            assert(false);
                        }
                    },
                }
                proof {
                    assert(self.board@[r as int]@ =~= gprev[r as int].update(
                        c as int,
                        with_won(g[r as int][c as int]),
                    ));
                    assert forall|i: int|
                        0 <= i < g.len() implies (#[trigger] self.grid()[i]).len()
                        == g[i].len() by {
                        if i != r {
                            assert(self.grid()[i] == gprev[i]);
                        }
                    }
                    let kk = k as int;
                    assert forall|a: int, b: int| #[trigger]
                        tile_listed(tiles@.take(kk + 1), a, b) <==> tile_listed(
                        tiles@.take(kk),
                        a,
                        b,
                    ) || (a == r as int && b == c as int) by {
                        if tile_listed(tiles@.take(kk), a, b) {
                            let j = choose|j: int|
                                0 <= j < tiles@.take(kk).len() && #[trigger] tiles@.take(
                                    kk,
                                )[j].0 == a && tiles@.take(kk)[j].1 == b;
                            assert(tiles@.take(kk + 1)[j].0 == a && tiles@.take(kk + 1)[j].1 == b);
                        }
                        if a == r as int && b == c as int {
                            assert(tiles@.take(kk + 1)[kk].0 == a && tiles@.take(kk + 1)[kk].1
                                == b);
                        }
                        if tile_listed(tiles@.take(kk + 1), a, b) {
                            let j = choose|j: int|
                                0 <= j < tiles@.take(kk + 1).len() && #[trigger] tiles@.take(
                                    kk + 1,
                                )[j].0 == a && tiles@.take(kk + 1)[j].1 == b;
                            if j < kk {
                                assert(tiles@.take(kk)[j].0 == a && tiles@.take(kk)[j].1 == b);
                            }
                        }
                    }
                    assert forall|a: int, b: int|
                        0 <= a < g.len() && 0 <= b < g[a].len() implies #[trigger] self.grid(
                    )[a][b] == (if tile_listed(tiles@.take(kk + 1), a, b) {
                        with_won(g[a][b])
                    } else {
                        g[a][b]
                    }) by {
                        if a != r as int {
                            assert(self.grid()[a] == gprev[a]);
                        } else if b != c as int {
                            assert(self.grid()[a][b] == gprev[a][b]);
                        }
                    }
                }
                k = k + 1;
            }
            proof {
                assert(tiles@.take(tiles@.len() as int) =~= tiles@);
                assert(self.grid() =~~= mark_winners(g, wi));
                assert(tile_listed(tiles@, tiles@[0].0 as int, tiles@[0].1 as int));
                assert(any_winner(g, wi));
            }

            // Decide who the winning tiles belong to.
            let mut all_black = true;
            let mut all_white = true;
            let mut j: usize = 0;
            while j < tiles.len()
                invariant
                    is_square(g),
                    1 <= wi <= g.len(),
                    j <= tiles@.len(),
                    self.board@.len() == g.len(),
                    self.win_len == old(self).win_len,
                    self.turn == old(self).turn,
                    self.outcome == old(self).outcome,
                    forall|r: int, c: int| #[trigger]
                        tile_listed(tiles@, r, c) <==> winning_pos(g, wi, r, c),
                    forall|i: int| 0 <= i < g.len() ==> (#[trigger] self.grid()[i]).len()
                        == g[i].len(),
                    self.grid() == mark_winners(g, wi),
                    all_black <==> (forall|i: int|
                        0 <= i < j ==> g[#[trigger] tiles@[i].0 as int][tiles@[i].1 as int].spec_who()
                            == Some(Player::Black)),
                    all_white <==> (forall|i: int|
                        0 <= i < j ==> g[#[trigger] tiles@[i].0 as int][tiles@[i].1 as int].spec_who()
                            == Some(Player::White)),
                decreases tiles@.len() - j,
            {
                let rc = tiles[j];
                let r = rc.0;
                let c = rc.1;
                proof {
                    assert(tiles@[j as int].0 == r as int && tiles@[j as int].1 == c as int);
                    assert(tile_listed(tiles@, r as int, c as int));
                    lemma_winning_pos_bounds(g, wi, r as int, c as int);
                    assert(self.grid()[r as int].len() == g[r as int].len());
                    assert(self.grid()[r as int][c as int] == with_won(g[r as int][c as int]));
                }
                let owner = self.board[r][c].who();
                let is_black = match owner {
                    Some(Player::Black) => true,
                    _ => false,
                };
                let is_white = match owner {
                    Some(Player::White) => true,
                    _ => false,
                };
                if !is_black {
                    all_black = false;
                }
                if !is_white {
                    all_white = false;
                }
                j = j + 1;
            }
            proof {
                assert forall|a: int, b: int| #[trigger]
                    winning_pos(g, wi, a, b) && all_black implies g[a][b].spec_who() == Some(
                    Player::Black,
                ) by {
                    assert(tile_listed(tiles@, a, b));
                    let i = choose|i: int|
                        0 <= i < tiles@.len() && #[trigger] tiles@[i].0 == a && tiles@[i].1 == b;
                    assert(g[tiles@[i].0 as int][tiles@[i].1 as int].spec_who() == Some(
                        Player::Black,
                    ));
                }
                assert forall|a: int, b: int| #[trigger]
                    winning_pos(g, wi, a, b) && all_white implies g[a][b].spec_who() == Some(
                    Player::White,
                ) by {
                    assert(tile_listed(tiles@, a, b));
                    let i = choose|i: int|
                        0 <= i < tiles@.len() && #[trigger] tiles@[i].0 == a && tiles@[i].1 == b;
                    assert(g[tiles@[i].0 as int][tiles@[i].1 as int].spec_who() == Some(
                        Player::White,
                    ));
                }
                if !all_black {
                    let i = choose|i: int|
                        0 <= i < tiles@.len() && !(g[#[trigger] tiles@[i].0 as int][tiles@[i].1 as int].spec_who()
                            == Some(Player::Black));
                    assert(tile_listed(tiles@, tiles@[i].0 as int, tiles@[i].1 as int));
                    assert(!winners_all(g, wi, Player::Black));
                }
                if !all_white {
                    let i = choose|i: int|
                        0 <= i < tiles@.len() && !(g[#[trigger] tiles@[i].0 as int][tiles@[i].1 as int].spec_who()
                            == Some(Player::White));
                    assert(tile_listed(tiles@, tiles@[i].0 as int, tiles@[i].1 as int));
                    assert(!winners_all(g, wi, Player::White));
                }
            }
            if all_black {
                self.outcome = Some(GameOutcome::BlackWin);
            } else if all_white {
                self.outcome = Some(GameOutcome::WhiteWin);
            } else {
                self.outcome = Some(GameOutcome::DoubleWin);
            }
        } else {
            // No complete line anywhere: the board is untouched, and the
            // outcome is a stalemate exactly when the board is full.
            proof {
                assert forall|r: int, c: int| !#[trigger] winning_pos(g, wi, r, c) by {
                    if winning_pos(g, wi, r, c) {
                        assert(tile_listed(tiles@, r, c));
                        let k = choose|k: int|
                            0 <= k < tiles@.len() && #[trigger] tiles@[k].0 == r && tiles@[k].1
                                == c;
                    }
                }
                if any_winner(g, wi) {
                    let (r, c) = choose|r: int, c: int| #[trigger] winning_pos(g, wi, r, c);
                }
                assert(!any_winner(g, wi));
                assert(self.grid() =~~= mark_winners(g, wi));
            }
            let full = board_full(&self.board);
            if full {
                self.outcome = Some(GameOutcome::Stalemate);
            }
        }
    }

    /// Take one atomic turn: validate the request, place the stone, spin
    /// the chosen sub-square, scan for an outcome, and advance the turn
    /// counter.  Any failed check returns its error with the game left
    /// exactly as it was; once the outcome is set, every further call
    /// returns `GameAlreadyOver`.
    pub fn turn(&mut self, turn: Turn) -> (res: TurnResult)
        requires
            old(self).wf(),
        ensures
            final(self).wf(),
            final(self).spec_size() == old(self).spec_size(),
            final(self).spec_win_len() == old(self).spec_win_len(),
            // The closed error taxonomy: each error comes exactly on its inputs.
            (res == Err::<Option<GameOutcome>, TurnError>(TurnError::GameAlreadyOver) <==> old(
                self,
            ).spec_outcome() is Some),
            (res == Err::<Option<GameOutcome>, TurnError>(TurnError::NotYourTurn) <==> old(
                self,
            ).spec_outcome() is None && turn.player != player_of_id(old(self).spec_turn())),
            (res == Err::<Option<GameOutcome>, TurnError>(TurnError::InvalidLocation) <==> old(
                self,
            ).spec_outcome() is None && turn.player == player_of_id(old(self).spec_turn())
                && !valid_location(old(self).spec_size(), turn.details)),
            (res == Err::<Option<GameOutcome>, TurnError>(TurnError::PieceAlreadyThere) <==> old(
                self,
            ).spec_outcome() is None && turn.player == player_of_id(old(self).spec_turn())
                && valid_location(old(self).spec_size(), turn.details) && old(
                self,
            ).grid()[turn.details.play_row as int][turn.details.play_col as int].stone is Some),
            (res is Ok <==> old(self).spec_outcome() is None && turn.player == player_of_id(
                old(self).spec_turn(),
            ) && valid_location(old(self).spec_size(), turn.details) && old(
                self,
            ).grid()[turn.details.play_row as int][turn.details.play_col as int].stone is None),
            // A rejected turn leaves board, turn counter, and outcome untouched.
            res is Err ==> final(self).grid() == old(self).grid() && final(self).spec_turn() == old(
                self,
            ).spec_turn() && final(self).spec_outcome() == old(self).spec_outcome(),
            // An accepted turn performs the whole transaction: place, spin,
            // flag the winners, cache the outcome, advance the counter.
            res is Ok ==> ({
                let g1 = placed(
                    old(self).grid(),
                    turn.details.play_row as int,
                    turn.details.play_col as int,
                    old(self).spec_turn() as usize,
                );
                let g2 = spun_region(
                    g1,
                    turn.details.spin_ul_row as int,
                    turn.details.spin_ul_col as int,
                    turn.details.spin_size as int,
                    turn.details.spin_dir,
                );
                &&& final(self).grid() == mark_winners(g2, old(self).spec_win_len())
                &&& final(self).spec_outcome() == scan_outcome(g2, old(self).spec_win_len())
                &&& final(self).spec_turn() == old(self).spec_turn() + 1
                &&& res == Ok::<Option<GameOutcome>, TurnError>(
                    scan_outcome(g2, old(self).spec_win_len()),
                )
            }),
            // After a successful turn exactly one stone carries the pre-call
            // turn number as id: the one this turn placed, wherever the spin
            // moved it.
            res is Ok ==> stone_id_present(final(self).grid(), old(self).spec_turn()),
            res is Ok ==> forall|r1: int, c1: int, r2: int, c2: int|
                has_stone_id(final(self).grid(), r1, c1, old(self).spec_turn()) && has_stone_id(
                    final(self).grid(),
                    r2,
                    c2,
                    old(self).spec_turn(),
                ) ==> r1 == r2 && c1 == c2,
    {
        let ghost g0 = old(self).grid();
        let ghost t0 = old(self).spec_turn();
        let ghost w = old(self).spec_win_len();
        let n = self.board.len();

        let player = turn.player;
        let details = turn.details;
        let pr = details.play_row;
        let pc = details.play_col;
        let su = details.spin_ul_row;
        let sl = details.spin_ul_col;
        let sz = details.spin_size;
        let sd = details.spin_dir;

        // Validate the turn.
        if self.outcome.is_some() {
            return Err(TurnError::GameAlreadyOver);
        }
        let me = self.whose_turn();
        if player != me {
            return Err(TurnError::NotYourTurn);
        }
        if pr >= n || pc >= n {
            return Err(TurnError::InvalidLocation);
        }
        if sz < 1 || sz > n || su > n - sz || sl > n - sz {
            return Err(TurnError::InvalidLocation);
        }
        proof {
            assert(self.grid()[pr as int].len() == n);
        }
        if self.board[pr][pc].stone.is_some() {
            return Err(TurnError::PieceAlreadyThere);
        }

        proof {
            // Ids 1 .. turn occupy distinct cells and the play cell is
            // free, so the counter is at most size * size and the final
            // increment cannot overflow.
            lemma_turn_bound(g0, t0, pr as int, pc as int);
            lemma_placed_ids(g0, pr as int, pc as int, t0);
        }

        // Place the stone.
        let id = self.turn;
        let ghost gprev = self.grid();
        self.board[pr][pc].stone = Some((id, Orientation::Up, false));
        let ghost g1 = placed(g0, pr as int, pc as int, id);
        proof {
            assert(self.board@[pr as int]@ =~= gprev[pr as int].update(
                pc as int,
                Cell { stone: Some((id, Orientation::Up, false)), ..g0[pr as int][pc as int] },
            ));
            assert(self.grid() =~~= g1);
            assert(is_square(g1));
            lemma_subgrid_ids(g1, su as int, sl as int, sz as int, t0 + 1);
        }

        // Spin the chosen sub-square: extract a scratch copy, rotate it
        // once (or three times for a counter-clockwise spin), write it back.
        let ghost s0 = subgrid(g1, su as int, sl as int, sz as int);
        let mut slice = self.copy_slice_out(su, sl, sz);
        match sd {
            SpinDirection::CW => {
                slice = spin_cell_grid(slice);
                proof {
                    lemma_grid_spun_square(s0);
                    lemma_spun_ids(s0, t0 + 1);
                }
            },
            SpinDirection::CCW => {
                slice = spin_cell_grid(slice);
                slice = spin_cell_grid(slice);
                slice = spin_cell_grid(slice);
                proof {
                    lemma_grid_spun_square(s0);
                    lemma_grid_spun_square(grid_spun(s0));
                    lemma_grid_spun_square(grid_spun(grid_spun(s0)));
                    lemma_spun_ids(s0, t0 + 1);
                    lemma_spun_ids(grid_spun(s0), t0 + 1);
                    lemma_spun_ids(grid_spun(grid_spun(s0)), t0 + 1);
                }
            },
        }
        self.copy_slice_in(su, sl, slice);
        let ghost g2 = spun_region(g1, su as int, sl as int, sz as int, sd);
        proof {
            lemma_patched_ids(g1, su as int, sl as int, sz as int, grid_view(slice@), t0 + 1);
            assert(self.grid() == g2);
            assert(is_square(g2)) by {
                assert forall|r: int| 0 <= r < g2.len() implies (#[trigger] g2[r]).len()
                    == g2.len() by {
                    assert(g1[r].len() == g1.len());
                }
            }
        }

        // Scan the post-spin board, flag the winners, cache the outcome.
        self.update_outcome();
        proof {
            lemma_mark_ids(g2, w, t0 + 1);
        }

        // The turn is complete.
        self.turn = self.turn + 1;

        proof {
            assert(stone_id_present(final(self).grid(), t0));
        }
        Ok(self.outcome)
    }
}

/// Pigeonhole bound on the turn counter: the stones on the board carry the
/// distinct ids `1 .. t` and at least one cell (the play cell) is free, so
/// `t` is at most the number of cells.
proof fn lemma_turn_bound(g: Seq<Seq<Cell>>, t: int, pr: int, pc: int)
    requires
        is_square(g),
        stone_ids_unique(g),
        stone_ids_present(g, t),
        1 <= t,
        0 <= pr < g.len(),
        0 <= pc < g.len(),
        g[pr][pc].stone is None,
    ensures
        t <= g.len() * g.len(),
{
    broadcast use vstd::set::group_set_axioms;

    let n = g.len() as int;
    let ids = vstd::set_lib::set_int_range(1, t);
    let f = |id: int|
        {
            let rc = choose|r: int, c: int| has_stone_id(g, r, c, id);
            rc.0 * n + rc.1
        };
    let image = ids.map(f);
    let target = vstd::set_lib::set_int_range(0, n * n).remove(pr * n + pc);

    assert(n * n >= n) by (nonlinear_arith)
        requires
            n >= 1,
    ;
    vstd::set_lib::lemma_int_range(1, t);
    vstd::set_lib::lemma_int_range(0, n * n);

    // Every id's cell encodes into [0, n * n) and is not the free play cell.
    assert forall|id: int| ids.contains(id) implies target.contains(#[trigger] f(id)) by {
        assert(stone_id_present(g, id));
        let rc = choose|r: int, c: int| has_stone_id(g, r, c, id);
        assert(has_stone_id(g, rc.0, rc.1, id));
        assert(0 <= rc.0 * n + rc.1 < n * n) by (nonlinear_arith)
            requires
                0 <= rc.0 < n,
                0 <= rc.1 < n,
        ;
        if rc.0 * n + rc.1 == pr * n + pc {
            assert(rc.0 == pr && rc.1 == pc) by (nonlinear_arith)
                requires
                    rc.0 * n + rc.1 == pr * n + pc,
                    0 <= rc.1 < n,
                    0 <= pc < n,
            ;
            assert(false);
        }
    }
    assert forall|x: int| image.contains(x) implies target.contains(x) by {
        let id = choose|id: int| ids.contains(id) && x == #[trigger] f(id);
        assert(target.contains(f(id)));
    }

    // Distinct ids sit on distinct cells, and the cell encoding is
    // injective, so the map from ids to codes is injective.
    assert forall|id1: int, id2: int|
        ids.contains(id1) && ids.contains(id2) && #[trigger] f(id1) == #[trigger] f(
            id2,
        ) implies id1 == id2 by {
        assert(stone_id_present(g, id1));
        assert(stone_id_present(g, id2));
        let rc1 = choose|r: int, c: int| has_stone_id(g, r, c, id1);
        let rc2 = choose|r: int, c: int| has_stone_id(g, r, c, id2);
        assert(has_stone_id(g, rc1.0, rc1.1, id1));
        assert(has_stone_id(g, rc2.0, rc2.1, id2));
        assert(rc1.0 == rc2.0 && rc1.1 == rc2.1) by (nonlinear_arith)
            requires
                rc1.0 * n + rc1.1 == rc2.0 * n + rc2.1,
                0 <= rc1.1 < n,
                0 <= rc2.1 < n,
        ;
        assert((g[rc1.0][rc1.1].stone->0).0 == id1);
        assert((g[rc1.0][rc1.1].stone->0).0 == id2);
    }
    assert(vstd::relations::injective_on(f, ids));

    vstd::set_lib::lemma_map_size(ids, image, f);
    vstd::set_lib::lemma_len_subset(image, target);
    assert(vstd::set_lib::set_int_range(0, n * n).contains(pr * n + pc)) by {
        assert(0 <= pr * n + pc < n * n) by (nonlinear_arith)
            requires
                0 <= pr < n,
                0 <= pc < n,
        ;
    }
    assert(target.len() == n * n - 1);
    assert(t - 1 <= n * n - 1);
}

/// Placing the fresh stone on a free cell extends the id bookkeeping from
/// `1 .. t` to `1 .. t + 1`.
proof fn lemma_placed_ids(g: Seq<Seq<Cell>>, pr: int, pc: int, t: int)
    requires
        is_square(g),
        0 <= pr < g.len(),
        0 <= pc < g.len(),
        g[pr][pc].stone is None,
        1 <= t <= usize::MAX,
        stone_ids_below(g, t),
        stone_ids_unique(g),
        stone_ids_present(g, t),
    ensures
        placed(g, pr, pc, t as usize).len() == g.len(),
        is_square(placed(g, pr, pc, t as usize)),
        stone_ids_below(placed(g, pr, pc, t as usize), t + 1),
        stone_ids_unique(placed(g, pr, pc, t as usize)),
        stone_ids_present(placed(g, pr, pc, t as usize), t + 1),
{
    let gp = placed(g, pr, pc, t as usize);
    assert forall|r: int, c: int, id: int| #[trigger] has_stone_id(gp, r, c, id) implies (if r == pr
        && c == pc {
        id == t
    } else {
        has_stone_id(g, r, c, id)
    }) by {
        if r == pr {
            if c != pc {
                assert(gp[r][c] == g[r][c]);
            }
        } else {
            assert(gp[r] == g[r]);
        }
    }
    assert(has_stone_id(gp, pr, pc, t));
    assert forall|r: int, c: int, id: int|
        has_stone_id(g, r, c, id) && !(r == pr && c == pc) implies #[trigger] has_stone_id(
        gp,
        r,
        c,
        id,
    ) by {
        if r == pr {
            assert(gp[r][c] == g[r][c]);
        } else {
            assert(gp[r] == g[r]);
        }
    }
    assert forall|r1: int, c1: int, r2: int, c2: int, id: int|
        #[trigger] has_stone_id(gp, r1, c1, id) && #[trigger] has_stone_id(
            gp,
            r2,
            c2,
            id,
        ) implies r1 == r2 && c1 == c2 by {
        if (r1 == pr && c1 == pc) && (r2 == pr && c2 == pc) {
        } else if r1 == pr && c1 == pc {
            assert(has_stone_id(g, r2, c2, t));
        } else if r2 == pr && c2 == pc {
            assert(has_stone_id(g, r1, c1, t));
        } else {
            assert(has_stone_id(g, r1, c1, id));
            assert(has_stone_id(g, r2, c2, id));
        }
    }
    assert forall|id: int| 1 <= id < t + 1 implies #[trigger] stone_id_present(gp, id) by {
        if id == t {
            assert(has_stone_id(gp, pr, pc, t));
        } else {
            assert(stone_id_present(g, id));
            let (r, c) = choose|r: int, c: int| has_stone_id(g, r, c, id);
            assert(has_stone_id(gp, r, c, id));
        }
    }
}

} // verus!