//! The win/outcome scanner: a pure function of the board and the win
//! length.
//!
//! For every cell and each of the three scanned directions (right, down,
//! down-right), the window of `win_len` consecutive cells starting there is
//! a complete line for a player when every cell of the window lies on the
//! board and holds that player's stone.  The winning-tile set is the union
//! of all cells of all complete lines.  The anti-diagonal direction is
//! deliberately never scanned; that asymmetry is part of the game's rules.

use vstd::prelude::*;

use crate::cell::Cell;
use crate::cell::grid_view;
use crate::cell::is_square;
use crate::types::GameOutcome;
use crate::types::Player;

verus! {

/// Row of the `i`-th cell of the window at `(r0, c0)` in direction `d`
/// (`0`: right, `1`: down, `2`: down-right).
pub open spec fn line_row(r0: int, d: int, i: int) -> int {
    if d == 0 {
        r0
    } else {
        r0 + i
    }
}

/// Column of the `i`-th cell of the window at `(r0, c0)` in direction `d`.
pub open spec fn line_col(c0: int, d: int, i: int) -> int {
    if d == 1 {
        c0
    } else {
        c0 + i
    }
}

/// The `i`-th cell of the window at `(r0, c0)` in direction `d` lies on the
/// board and holds a stone of player `p`.
pub open spec fn line_cell_ok(
    g: Seq<Seq<Cell>>,
    r0: int,
    c0: int,
    d: int,
    i: int,
    p: Player,
) -> bool {
    let r = line_row(r0, d, i);
    let c = line_col(c0, d, i);
    &&& 0 <= r < g.len()
    &&& 0 <= c < g[r].len()
    &&& g[r][c].spec_who() == Some(p)
}

/// The window of `w` cells starting at `(r0, c0)` in direction `d` is a
/// complete line for player `p`.
pub open spec fn line_complete(
    g: Seq<Seq<Cell>>,
    w: int,
    r0: int,
    c0: int,
    d: int,
    p: Player,
) -> bool {
    forall|i: int| 0 <= i < w ==> #[trigger] line_cell_ok(g, r0, c0, d, i, p)
}

/// `(r, c)` lies on a complete line of length `w` with origin `(r0, c0)`
/// and direction `d`.
pub open spec fn covered_by(
    g: Seq<Seq<Cell>>,
    w: int,
    r: int,
    c: int,
    r0: int,
    c0: int,
    d: int,
) -> bool {
    exists|i: int, p: Player|
        #![trigger line_complete(g, w, r0, c0, d, p), line_row(r0, d, i)]
        0 <= i < w && line_complete(g, w, r0, c0, d, p) && r == line_row(r0, d, i) && c == line_col(
            c0,
            d,
            i,
        )
}

/// `(r, c)` belongs to the winning-tile set of `g` for win length `w`: it
/// lies on some complete line, for either player, in any scanned direction.
pub open spec fn winning_pos(g: Seq<Seq<Cell>>, w: int, r: int, c: int) -> bool {
    exists|r0: int, c0: int, d: int| 0 <= d < 3 && #[trigger] covered_by(g, w, r, c, r0, c0, d)
}

/// The winning-tile set of `g` is non-empty.
pub open spec fn any_winner(g: Seq<Seq<Cell>>, w: int) -> bool {
    exists|r: int, c: int| #[trigger] winning_pos(g, w, r, c)
}

/// Every winning tile of `g` holds a stone of player `p`.
pub open spec fn winners_all(g: Seq<Seq<Cell>>, w: int, p: Player) -> bool {
    forall|r: int, c: int| #[trigger] winning_pos(g, w, r, c) ==> g[r][c].spec_who() == Some(p)
}

/// Every cell of `g` holds a stone.
pub open spec fn all_occupied(g: Seq<Seq<Cell>>) -> bool {
    forall|r: int, c: int|
        0 <= r < g.len() && 0 <= c < g[r].len() ==> (#[trigger] g[r][c]).stone is Some
}

/// The outcome that scanning grid `g` with win length `w` yields: none while
/// the game continues, `Stalemate` on a full board without winning tiles,
/// a win for the player owning every winning tile, and `DoubleWin` when the
/// winning tiles belong to both players.
pub open spec fn scan_outcome(g: Seq<Seq<Cell>>, w: int) -> Option<GameOutcome> {
    if !any_winner(g, w) {
        if all_occupied(g) {
            Some(GameOutcome::Stalemate)
        } else {
            None
        }
    } else if winners_all(g, w, Player::Black) {
        Some(GameOutcome::BlackWin)
    } else if winners_all(g, w, Player::White) {
        Some(GameOutcome::WhiteWin)
    } else {
        Some(GameOutcome::DoubleWin)
    }
}

/// `c` with its stone (if any) permanently flagged as part of a win.
pub open spec fn with_won(c: Cell) -> Cell {
    Cell {
        stone: match c.stone {
            None => None,
            Some((num, orient, _)) => Some((num, orient, true)),
        },
        ..c
    }
}

/// `g` with the stone of every winning tile flagged `won`; all other cells
/// are unchanged.
pub open spec fn mark_winners(g: Seq<Seq<Cell>>, w: int) -> Seq<Seq<Cell>> {
    Seq::new(
        g.len(),
        |r: int|
            Seq::new(
                g[r].len(),
                |c: int|
                    if winning_pos(g, w, r, c) {
                        with_won(g[r][c])
                    } else {
                        g[r][c]
                    },
            ),
    )
}

/// Flagging the winning tiles touches only `won` flags: every stone keeps
/// its place and its id, so the id bookkeeping carries over unchanged.
pub proof fn lemma_mark_ids(g: Seq<Seq<Cell>>, w: int, t: int)
    requires
        is_square(g),
    ensures
        mark_winners(g, w).len() == g.len(),
        is_square(mark_winners(g, w)),
        forall|id: int| #[trigger]
            crate::cell::stone_id_present(mark_winners(g, w), id) <==> crate::cell::stone_id_present(
                g,
                id,
            ),
        crate::cell::stone_ids_unique(g) ==> crate::cell::stone_ids_unique(mark_winners(g, w)),
        crate::cell::stone_ids_below(g, t) ==> crate::cell::stone_ids_below(mark_winners(g, w), t),
{
    let m = mark_winners(g, w);
    assert forall|r: int, c: int, id: int| #[trigger]
        crate::cell::has_stone_id(m, r, c, id) <==> crate::cell::has_stone_id(g, r, c, id) by {
        if 0 <= r < g.len() && 0 <= c < g[r].len() {
            assert(m[r][c] == if winning_pos(g, w, r, c) {
                with_won(g[r][c])
            } else {
                g[r][c]
            });
        }
    }
    assert forall|id: int| #[trigger]
        crate::cell::stone_id_present(m, id) <==> crate::cell::stone_id_present(g, id) by {
        if crate::cell::stone_id_present(m, id) {
            let (r, c) = choose|r: int, c: int| crate::cell::has_stone_id(m, r, c, id);
            assert(crate::cell::has_stone_id(g, r, c, id));
        }
        if crate::cell::stone_id_present(g, id) {
            let (r, c) = choose|r: int, c: int| crate::cell::has_stone_id(g, r, c, id);
            assert(crate::cell::has_stone_id(m, r, c, id));
        }
    }
    if crate::cell::stone_ids_unique(g) {
        assert forall|r1: int, c1: int, r2: int, c2: int, id: int|
            #[trigger] crate::cell::has_stone_id(m, r1, c1, id) && #[trigger] crate::cell::has_stone_id(
                m,
                r2,
                c2,
                id,
            ) implies r1 == r2 && c1 == c2 by {
            assert(crate::cell::has_stone_id(g, r1, c1, id));
            assert(crate::cell::has_stone_id(g, r2, c2, id));
        }
    }
}

/// The tile `(r, c)` occurs in the list `ts`.
pub open spec fn tile_listed(ts: Seq<(usize, usize)>, r: int, c: int) -> bool {
    exists|k: int| 0 <= k < ts.len() && #[trigger] ts[k].0 == r && ts[k].1 == c
}

/// Does the window of `w` cells starting at `(r0, c0)` in direction `d`
/// consist entirely of player `p`'s stones?
pub(crate) fn check_line(
    board: &Vec<Vec<Cell>>,
    w: usize,
    r0: usize,
    c0: usize,
    d: usize,
    p: Player,
) -> (ok: bool)
    requires
        is_square(grid_view(board@)),
        d < 3,
        r0 < board@.len(),
        c0 < board@.len(),
        w <= board@.len(),
        board@.len() + board@.len() <= usize::MAX,
    ensures
        ok == line_complete(grid_view(board@), w as int, r0 as int, c0 as int, d as int, p),
{
    let ghost g = grid_view(board@);
    let n = board.len();
    let mut ok = true;
    let mut i: usize = 0;
    while i < w
        invariant
            is_square(g),
            g == grid_view(board@),
            n == board@.len(),
            d < 3,
            r0 < n,
            c0 < n,
            w <= n,
            n + n <= usize::MAX,
            i <= w,
            ok <==> (forall|j: int| 0 <= j < i ==> #[trigger] line_cell_ok(
                g,
                r0 as int,
                c0 as int,
                d as int,
                j,
                p,
            )),
        decreases w - i,
    {
        let rr = if d == 0 {
            r0
        } else {
            r0 + i
        };
        let cc = if d == 1 {
            c0
        } else {
            c0 + i
        };
        let mut cell_ok = false;
        if rr < n && cc < n {
            assert(g[rr as int].len() == n);
            let owner = board[rr][cc].who();
            cell_ok = match owner {
                Some(q) => q == p,
                None => false,
            };
        }
        proof {
            assert(cell_ok == line_cell_ok(g, r0 as int, c0 as int, d as int, i as int, p));
        }
        if !cell_ok {
            ok = false;
        }
        i = i + 1;
    }
    ok
}

/// A complete line's origin lies on the board (its first cell is the origin
/// itself).
pub proof fn lemma_covered_origin_bounds(
    g: Seq<Seq<Cell>>,
    w: int,
    r: int,
    c: int,
    r0: int,
    c0: int,
    d: int,
)
    requires
        is_square(g),
        1 <= w,
        covered_by(g, w, r, c, r0, c0, d),
    ensures
        0 <= r0 < g.len(),
        0 <= c0 < g.len(),
{
    let (i, p) = choose|i: int, p: Player|
        #![trigger line_complete(g, w, r0, c0, d, p), line_row(r0, d, i)]
        0 <= i < w && line_complete(g, w, r0, c0, d, p) && r == line_row(r0, d, i) && c == line_col(
            c0,
            d,
            i,
        );
    assert(line_cell_ok(g, r0, c0, d, 0, p));
}

/// A winning tile lies on the board.
pub proof fn lemma_winning_pos_bounds(g: Seq<Seq<Cell>>, w: int, r: int, c: int)
    requires
        is_square(g),
        1 <= w,
        winning_pos(g, w, r, c),
    ensures
        0 <= r < g.len(),
        0 <= c < g.len(),
        g[r][c].stone is Some,
{
    let (r0, c0, d) = choose|r0: int, c0: int, d: int|
        0 <= d < 3 && #[trigger] covered_by(g, w, r, c, r0, c0, d);
    let (i, p) = choose|i: int, p: Player|
        #![trigger line_complete(g, w, r0, c0, d, p), line_row(r0, d, i)]
        0 <= i < w && line_complete(g, w, r0, c0, d, p) && r == line_row(r0, d, i) && c == line_col(
            c0,
            d,
            i,
        );
    assert(line_cell_ok(g, r0, c0, d, i, p));
}

/// Check the window at `(r0, c0)` in direction `d` for both players, and
/// append every cell of a complete line to `tiles`.
pub(crate) fn extend_line(
    tiles: &mut Vec<(usize, usize)>,
    board: &Vec<Vec<Cell>>,
    w: usize,
    r0: usize,
    c0: usize,
    d: usize,
)
    requires
        is_square(grid_view(board@)),
        d < 3,
        r0 < board@.len(),
        c0 < board@.len(),
        1 <= w <= board@.len(),
        board@.len() + board@.len() <= usize::MAX,
    ensures
        forall|r: int, c: int| #[trigger]
            tile_listed(final(tiles)@, r, c) <==> tile_listed(old(tiles)@, r, c) || covered_by(
                grid_view(board@),
                w as int,
                r,
                c,
                r0 as int,
                c0 as int,
                d as int,
            ),
{
    let ghost g = grid_view(board@);
    let ghost t0 = old(tiles)@;
    let black = check_line(board, w, r0, c0, d, Player::Black);
    let white = check_line(board, w, r0, c0, d, Player::White);
    if black || white {
        let ghost p = if black {
            Player::Black
        } else {
            Player::White
        };
        let mut i: usize = 0;
        while i < w
            invariant
                is_square(g),
                g == grid_view(board@),
                d < 3,
                r0 < g.len(),
                c0 < g.len(),
                1 <= w <= g.len(),
                g.len() + g.len() <= usize::MAX,
                i <= w,
                line_complete(g, w as int, r0 as int, c0 as int, d as int, p),
                forall|r: int, c: int| #[trigger]
                    tile_listed(tiles@, r, c) <==> tile_listed(t0, r, c) || (exists|j: int|
                        #![trigger line_row(r0 as int, d as int, j)]
                        0 <= j < i && r == line_row(r0 as int, d as int, j) && c == line_col(
                            c0 as int,
                            d as int,
                            j,
                        )),
            decreases w - i,
        {
            proof {
                assert(line_cell_ok(g, r0 as int, c0 as int, d as int, i as int, p));
            }
            let rr = if d == 0 {
                r0
            } else {
                r0 + i
            };
            let cc = if d == 1 {
                c0
            } else {
                c0 + i
            };
            let ghost t_prev = tiles@;
            tiles.push((rr, cc));
            proof {
                assert forall|r: int, c: int| #[trigger]
                    tile_listed(tiles@, r, c) <==> tile_listed(t_prev, r, c) || (r == rr && c
                        == cc) by {
                    if tile_listed(t_prev, r, c) {
                        let k = choose|k: int|
                            0 <= k < t_prev.len() && #[trigger] t_prev[k].0 == r && t_prev[k].1
                                == c;
                        assert(tiles@[k].0 == r && tiles@[k].1 == c);
                    }
                    if r == rr && c == cc {
                        assert(tiles@[t_prev.len() as int].0 == r);
                    }
                    if tile_listed(tiles@, r, c) {
                        let k = choose|k: int|
                            0 <= k < tiles@.len() && #[trigger] tiles@[k].0 == r && tiles@[k].1
                                == c;
                        if k < t_prev.len() {
                            assert(t_prev[k].0 == r && t_prev[k].1 == c);
                        }
                    }
                }
            }
            i = i + 1;
        }
        proof {
            assert forall|r: int, c: int| #[trigger]
                tile_listed(tiles@, r, c) <==> tile_listed(t0, r, c) || covered_by(
                    g,
                    w as int,
                    r,
                    c,
                    r0 as int,
                    c0 as int,
                    d as int,
                ) by {
                let ri = r0 as int;
                let ci = c0 as int;
                let di = d as int;
                let wi = w as int;
                if tile_listed(tiles@, r, c) && !tile_listed(t0, r, c) {
                    let j = choose|j: int|
                        #![trigger line_row(ri, di, j)]
                        0 <= j < w && r == line_row(ri, di, j) && c == line_col(ci, di, j);
                    assert(0 <= j < wi && line_complete(g, wi, ri, ci, di, p) && r == line_row(
                        ri,
                        di,
                        j,
                    ) && c == line_col(ci, di, j));
                    assert(covered_by(g, wi, r, c, ri, ci, di));
                }
                if covered_by(g, wi, r, c, ri, ci, di) {
                    let (j, q) = choose|j: int, q: Player|
                        #![trigger line_complete(g, wi, ri, ci, di, q), line_row(ri, di, j)]
                        0 <= j < wi && line_complete(g, wi, ri, ci, di, q) && r == line_row(
                            ri,
                            di,
                            j,
                        ) && c == line_col(ci, di, j);
                    assert(exists|j2: int|
                        #![trigger line_row(ri, di, j2)]
                        0 <= j2 < w && r == line_row(ri, di, j2) && c == line_col(ci, di, j2));
                }
            }
        }
    } else {
        proof {
            assert forall|r: int, c: int|
                !covered_by(
                    g,
                    w as int,
                    r,
                    c,
                    r0 as int,
                    c0 as int,
                    d as int,
                ) by {
                let ri = r0 as int;
                let ci = c0 as int;
                let di = d as int;
                let wi = w as int;
                if covered_by(g, wi, r, c, ri, ci, di) {
                    let (j, q) = choose|j: int, q: Player|
                        #![trigger line_complete(g, wi, ri, ci, di, q), line_row(ri, di, j)]
                        0 <= j < wi && line_complete(g, wi, ri, ci, di, q) && r == line_row(
                            ri,
                            di,
                            j,
                        ) && c == line_col(ci, di, j);
                    assert(q is Black || q is White);
                    assert(false);
                }
            }
        }
    }
}

/// The partial winning-tile relation while scanning: `(r, c)` lies on a
/// complete line whose origin precedes `(row_bound, col_bound)` in row-major
/// order.
pub open spec fn winning_upto(
    g: Seq<Seq<Cell>>,
    w: int,
    r: int,
    c: int,
    row_bound: int,
    col_bound: int,
) -> bool {
    exists|r0: int, c0: int, d: int|
        #![trigger covered_by(g, w, r, c, r0, c0, d)]
        0 <= d < 3 && 0 <= r0 && 0 <= c0 && (r0 < row_bound || (r0 == row_bound && c0 < col_bound))
            && covered_by(g, w, r, c, r0, c0, d)
}

/// Collect the winning-tile set: every cell of every complete line of
/// length `w`, for either player, in any of the three scanned directions.
pub(crate) fn collect_winners(board: &Vec<Vec<Cell>>, w: usize) -> (tiles: Vec<(usize, usize)>)
    requires
        is_square(grid_view(board@)),
        1 <= w <= board@.len(),
        board@.len() + board@.len() <= usize::MAX,
    ensures
        forall|r: int, c: int| #[trigger]
            tile_listed(tiles@, r, c) <==> winning_pos(grid_view(board@), w as int, r, c),
{
    let ghost g = grid_view(board@);
    let n = board.len();
    let mut tiles: Vec<(usize, usize)> = Vec::new();
    assert forall|r: int, c: int| !#[trigger] tile_listed(tiles@, r, c) by {
        if tile_listed(tiles@, r, c) {
            let k = choose|k: int|
                0 <= k < tiles@.len() && #[trigger] tiles@[k].0 == r && tiles@[k].1 == c;
        }
    }
    let mut r0: usize = 0;
    while r0 < n
        invariant
            is_square(g),
            g == grid_view(board@),
            n == g.len(),
            1 <= w <= n,
            n + n <= usize::MAX,
            r0 <= n,
            forall|r: int, c: int| #[trigger]
                tile_listed(tiles@, r, c) <==> winning_upto(g, w as int, r, c, r0 as int, 0),
        decreases n - r0,
    {
        let mut c0: usize = 0;
        while c0 < n
            invariant
                is_square(g),
                g == grid_view(board@),
                n == g.len(),
                1 <= w <= n,
                n + n <= usize::MAX,
                r0 < n,
                c0 <= n,
                forall|r: int, c: int| #[trigger]
                    tile_listed(tiles@, r, c) <==> winning_upto(
                        g,
                        w as int,
                        r,
                        c,
                        r0 as int,
                        c0 as int,
                    ),
            decreases n - c0,
        {
            let ghost t_before = tiles@;
            extend_line(&mut tiles, board, w, r0, c0, 0);
            extend_line(&mut tiles, board, w, r0, c0, 1);
            extend_line(&mut tiles, board, w, r0, c0, 2);
            proof {
                let ri = r0 as int;
                let ci = c0 as int;
                let wi = w as int;
                assert forall|r: int, c: int| #[trigger]
                    tile_listed(tiles@, r, c) <==> winning_upto(g, wi, r, c, ri, ci + 1) by {
                    if tile_listed(tiles@, r, c) {
                        if tile_listed(t_before, r, c) {
                            let (a0, b0, d0) = choose|a0: int, b0: int, d0: int|
                                #![trigger covered_by(g, wi, r, c, a0, b0, d0)]
                                0 <= d0 < 3 && 0 <= a0 && 0 <= b0 && (a0 < ri || (a0 == ri && b0
                                    < ci)) && covered_by(g, wi, r, c, a0, b0, d0);
                            assert(winning_upto(g, wi, r, c, ri, ci + 1));
                        } else {
                            // Covered by one of the three windows at this origin.
                            if covered_by(g, wi, r, c, ri, ci, 0) {
                                assert(winning_upto(g, wi, r, c, ri, ci + 1));
                            } else if covered_by(g, wi, r, c, ri, ci, 1) {
                                assert(winning_upto(g, wi, r, c, ri, ci + 1));
                            } else {
                                assert(covered_by(g, wi, r, c, ri, ci, 2));
                                assert(winning_upto(g, wi, r, c, ri, ci + 1));
                            }
                        }
                    }
                    if winning_upto(g, wi, r, c, ri, ci + 1) {
                        let (a0, b0, d0) = choose|a0: int, b0: int, d0: int|
                            #![trigger covered_by(g, wi, r, c, a0, b0, d0)]
                            0 <= d0 < 3 && 0 <= a0 && 0 <= b0 && (a0 < ri || (a0 == ri && b0 < ci
                                + 1)) && covered_by(g, wi, r, c, a0, b0, d0);
                        if a0 < ri || (a0 == ri && b0 < ci) {
                            assert(winning_upto(g, wi, r, c, ri, ci));
                            assert(tile_listed(t_before, r, c));
                        } else {
                            assert(a0 == ri && b0 == ci);
                        }
                        assert(tile_listed(tiles@, r, c));
                    }
                }
            }
            c0 = c0 + 1;
        }
        proof {
            let ri = r0 as int;
            let ni = n as int;
            let wi = w as int;
            assert forall|r: int, c: int|
                winning_upto(g, wi, r, c, ri, ni) <==> winning_upto(g, wi, r, c, ri + 1, 0) by {
                if winning_upto(g, wi, r, c, ri, ni) {
                    let (a0, b0, d0) = choose|a0: int, b0: int, d0: int|
                        #![trigger covered_by(g, wi, r, c, a0, b0, d0)]
                        0 <= d0 < 3 && 0 <= a0 && 0 <= b0 && (a0 < ri || (a0 == ri && b0 < ni))
                            && covered_by(g, wi, r, c, a0, b0, d0);
                    assert(winning_upto(g, wi, r, c, ri + 1, 0));
                }
                if winning_upto(g, wi, r, c, ri + 1, 0) {
                    let (a0, b0, d0) = choose|a0: int, b0: int, d0: int|
                        #![trigger covered_by(g, wi, r, c, a0, b0, d0)]
                        0 <= d0 < 3 && 0 <= a0 && 0 <= b0 && (a0 < ri + 1 || (a0 == ri + 1 && b0
                            < 0)) && covered_by(g, wi, r, c, a0, b0, d0);
                    lemma_covered_origin_bounds(g, wi, r, c, a0, b0, d0);
                    assert(winning_upto(g, wi, r, c, ri, ni));
                }
            }
        }
        r0 = r0 + 1;
    }
    proof {
        let ni = n as int;
        let wi = w as int;
        assert forall|r: int, c: int| #[trigger]
            tile_listed(tiles@, r, c) <==> winning_pos(g, wi, r, c) by {
            if tile_listed(tiles@, r, c) {
                let (a0, b0, d0) = choose|a0: int, b0: int, d0: int|
                    #![trigger covered_by(g, wi, r, c, a0, b0, d0)]
                    0 <= d0 < 3 && 0 <= a0 && 0 <= b0 && (a0 < ni || (a0 == ni && b0 < 0))
                        && covered_by(g, wi, r, c, a0, b0, d0);
                assert(winning_pos(g, wi, r, c));
            }
            if winning_pos(g, wi, r, c) {
                let (a0, b0, d0) = choose|a0: int, b0: int, d0: int|
                    0 <= d0 < 3 && #[trigger] covered_by(g, wi, r, c, a0, b0, d0);
                lemma_covered_origin_bounds(g, wi, r, c, a0, b0, d0);
                assert(winning_upto(g, wi, r, c, ni, 0));
            }
        }
    }
    tiles
}

/// Is every cell of the board occupied by a stone?
pub(crate) fn board_full(board: &Vec<Vec<Cell>>) -> (full: bool)
    requires
        is_square(grid_view(board@)),
    ensures
        full == all_occupied(grid_view(board@)),
{
    let ghost g = grid_view(board@);
    let n = board.len();
    let mut full = true;
    let mut r: usize = 0;
    while r < n
        invariant
            is_square(g),
            g == grid_view(board@),
            n == g.len(),
            r <= n,
            full <==> (forall|i: int, j: int|
                0 <= i < r && 0 <= j < n ==> (#[trigger] g[i][j]).stone is Some),
        decreases n - r,
    {
        let mut c: usize = 0;
        while c < n
            invariant
                is_square(g),
                g == grid_view(board@),
                n == g.len(),
                r < n,
                c <= n,
                full <==> ((forall|i: int, j: int|
                    0 <= i < r && 0 <= j < n ==> (#[trigger] g[i][j]).stone is Some) && (forall|
                    j: int,
                |
                    0 <= j < c ==> (#[trigger] g[r as int][j]).stone is Some)),
            decreases n - c,
        {
            assert(g[r as int].len() == n);
            if board[r][c].stone.is_none() {
                full = false;
            }
            c = c + 1;
        }
        r = r + 1;
    }
    full
}

} // verus!
