//! Board cells and the quarter-turn transform on square grids of cells.
//!
//! A cell couples two directional attributes: the optional stone (with its
//! orientation) and four background line flags, one per side.  Both must
//! rotate consistently with a physical 90-degree turn of the sub-square, so
//! the cell owns its own rotation, and the grid rotation composes the cell
//! rotation with the permutation of positions.

use vstd::prelude::*;

use crate::types::Orientation;
use crate::types::Player;
use crate::types::player_of_id;

verus! {

/// One board square: an optional stone `(id, orientation, won)` plus four
/// background line flags.  The flags describe fixed connectivity markings
/// that exist on every square regardless of occupancy.
#[derive(Clone, Copy, PartialEq, Eq, Debug)]
pub struct Cell {
    pub stone: Option<(usize, Orientation, bool)>,
    pub line_up: bool,
    pub line_right: bool,
    pub line_down: bool,
    pub line_left: bool,
}

impl Cell {
    /// The cell as it looks after the quarter-turn clockwise of its
    /// sub-square: the line flags rotate one step and a stone's orientation
    /// advances once; the stone's id and win flag pass through unchanged.
    pub open spec fn spec_spun(self) -> Cell {
        Cell {
            stone: match self.stone {
                None => None,
                Some((num, orient, win)) => Some((num, orient.spec_spun(), win)),
            },
            line_right: self.line_up,
            line_down: self.line_right,
            line_left: self.line_down,
            line_up: self.line_left,
        }
    }

    /// Rotate this cell's own attributes one quarter-turn clockwise.
    pub(crate) fn spun(&self) -> (r: Cell)
        ensures
            r == self.spec_spun(),
    {
        Cell {
            stone: match self.stone {
                None => None,
                Some((num, orient, win)) => Some((num, orient.spun(), win)),
            },
            line_right: self.line_up,
            line_down: self.line_right,
            line_left: self.line_down,
            line_up: self.line_left,
        }
    }

    /// The owner of the stone on this cell, derived from id parity.
    pub open spec fn spec_who(self) -> Option<Player> {
        match self.stone {
            None => None,
            Some((num, _, _)) => Some(player_of_id(num as int)),
        }
    }

    /// Which player's stone occupies this cell, if any: odd ids belong to
    /// Black, even ids to White.
    pub fn who(&self) -> (r: Option<Player>)
        ensures
            r == self.spec_who(),
    {
        match self.stone {
            None => None,
            Some((num, _, _)) => if num % 2 == 1 {
                Some(Player::Black)
            } else {
                Some(Player::White)
            },
        }
    }
}

/// The mathematical view of a board or scratch grid: its rows as sequences.
pub open spec fn grid_view(g: Seq<Vec<Cell>>) -> Seq<Seq<Cell>> {
    g.map_values(|row: Vec<Cell>| row@)
}

/// Every row is as long as the grid is tall.
pub open spec fn is_square(g: Seq<Seq<Cell>>) -> bool {
    forall|r: int| 0 <= r < g.len() ==> (#[trigger] g[r]).len() == g.len()
}

/// One quarter-turn clockwise of a square grid: position `(r, c)` of the
/// result receives the rotated cell from position `(n - 1 - c, r)` of the
/// input.
pub open spec fn grid_spun(g: Seq<Seq<Cell>>) -> Seq<Seq<Cell>> {
    let n = g.len() as int;
    Seq::new(g.len(), |r: int| Seq::new(g.len(), |c: int| g[n - 1 - c][r].spec_spun()))
}

/// Three clockwise quarter-turns: the counter-clockwise quarter-turn.  The
/// engine never rotates counter-clockwise directly; it composes three
/// clockwise turns so that there is exactly one rotation primitive.
pub open spec fn grid_spun_ccw(g: Seq<Seq<Cell>>) -> Seq<Seq<Cell>> {
    grid_spun(grid_spun(grid_spun(g)))
}

/// Rotate a square grid of cells one quarter-turn clockwise, moving cell
/// contents and rotating each cell's own attributes together.
pub fn spin_cell_grid(grid: Vec<Vec<Cell>>) -> (ret: Vec<Vec<Cell>>)
    requires
        is_square(grid_view(grid@)),
    ensures
        grid_view(ret@) == grid_spun(grid_view(grid@)),
{
    let size = grid.len();
    let mut ret: Vec<Vec<Cell>> = Vec::new();

    for r in 0..size
        invariant
            size == grid@.len(),
            is_square(grid_view(grid@)),
            ret@.len() == r,
            forall|i: int| 0 <= i < r ==> (#[trigger] ret@[i])@.len() == size,
            forall|i: int, j: int| 0 <= i < r && 0 <= j < size ==> ret@[i]@[j] == grid@[size
                - 1 - j]@[i].spec_spun(),
    {
        let mut row: Vec<Cell> = Vec::new();

        for c in 0..size
            invariant
                size == grid@.len(),
                is_square(grid_view(grid@)),
                r < size,
                row@.len() == c,
                forall|j: int| 0 <= j < c ==> row@[j] == grid@[size - 1 - j]@[r as int].spec_spun(),
        {
            assert(grid_view(grid@)[size - 1 - c].len() == size);
            row.push(grid[size - c - 1][r].spun());
        }
        ret.push(row);
    }
    proof {
        assert(grid_view(ret@) =~~= grid_spun(grid_view(grid@)));
    }
    ret
}

/// Rotating a single cell four times restores it exactly.
pub proof fn lemma_cell_spun_four(c: Cell)
    ensures
        c.spec_spun().spec_spun().spec_spun().spec_spun() == c,
{
}

/// Four clockwise quarter-turns restore a square grid exactly, cell for
/// cell, stones and line flags included.
pub proof fn lemma_grid_spun_four(g: Seq<Seq<Cell>>)
    requires
        is_square(g),
    ensures
        grid_spun(grid_spun(grid_spun(grid_spun(g)))) == g,
{
    let n = g.len() as int;
    let g4 = grid_spun(grid_spun(grid_spun(grid_spun(g))));
    assert forall|r: int, c: int| 0 <= r < n && 0 <= c < n implies g4[r][c] == g[r][c] by {
        lemma_cell_spun_four(g[r][c]);
    }
    assert(g4 =~~= g);
}

/// A counter-clockwise turn (three clockwise quarter-turns) followed by one
/// clockwise quarter-turn restores the original grid.
pub proof fn lemma_ccw_then_cw(g: Seq<Seq<Cell>>)
    requires
        is_square(g),
    ensures
        grid_spun(grid_spun_ccw(g)) == g,
{
    lemma_grid_spun_four(g);
}

/// The `sz`-by-`sz` sub-square of `g` whose top-left corner is `(u, l)`.
pub open spec fn subgrid(g: Seq<Seq<Cell>>, u: int, l: int, sz: int) -> Seq<Seq<Cell>> {
    Seq::new(sz as nat, |r: int| Seq::new(sz as nat, |c: int| g[u + r][l + c]))
}

/// `g` with the square region whose top-left corner is `(u, l)` replaced by
/// the grid `s`; everything outside that region is unchanged.
pub open spec fn patched(g: Seq<Seq<Cell>>, u: int, l: int, s: Seq<Seq<Cell>>) -> Seq<Seq<Cell>> {
    Seq::new(
        g.len(),
        |r: int|
            Seq::new(
                g[r].len(),
                |c: int|
                    if u <= r < u + s.len() && l <= c < l + s.len() {
                        s[r - u][c - l]
                    } else {
                        g[r][c]
                    },
            ),
    )
}

/// The square region with top-left corner `(u, l)` and side `sz` lies
/// entirely on a board of side `n`.
pub open spec fn region_ok(n: int, u: int, l: int, sz: int) -> bool {
    0 <= u && 0 <= l && 1 <= sz && u + sz <= n && l + sz <= n
}

/// Position `(r, c)` of `g` is on the grid and holds a stone with id `id`.
pub open spec fn has_stone_id(g: Seq<Seq<Cell>>, r: int, c: int, id: int) -> bool {
    &&& 0 <= r < g.len()
    &&& 0 <= c < g[r].len()
    &&& g[r][c].stone is Some
    &&& (g[r][c].stone->0).0 == id
}

/// Every stone on `g` has an id in `[1, t)`.
pub open spec fn stone_ids_below(g: Seq<Seq<Cell>>, t: int) -> bool {
    forall|r: int, c: int, id: int| #[trigger] has_stone_id(g, r, c, id) ==> 1 <= id < t
}

/// No two positions of `g` hold stones with the same id.
pub open spec fn stone_ids_unique(g: Seq<Seq<Cell>>) -> bool {
    forall|r1: int, c1: int, r2: int, c2: int, id: int|
        #[trigger] has_stone_id(g, r1, c1, id) && #[trigger] has_stone_id(g, r2, c2, id) ==> r1
            == r2 && c1 == c2
}

/// Some position of `g` holds a stone with id `id`.
pub open spec fn stone_id_present(g: Seq<Seq<Cell>>, id: int) -> bool {
    exists|r: int, c: int| has_stone_id(g, r, c, id)
}

/// Every id in `[1, t)` is present somewhere on `g`.  Stones are never
/// removed, so each id placed so far stays on the board.
pub open spec fn stone_ids_present(g: Seq<Seq<Cell>>, t: int) -> bool {
    forall|id: int| 1 <= id < t ==> #[trigger] stone_id_present(g, id)
}

/// A quarter-turn yields a square grid of the same side.
pub proof fn lemma_grid_spun_square(g: Seq<Seq<Cell>>)
    ensures
        grid_spun(g).len() == g.len(),
        is_square(grid_spun(g)),
{
}

/// A quarter-turn permutes the stones of a square grid without changing
/// their ids: which ids are present, their uniqueness, and any id bound all
/// carry over.
pub proof fn lemma_spun_ids(g: Seq<Seq<Cell>>, t: int)
    requires
        is_square(g),
    ensures
        forall|id: int| #[trigger] stone_id_present(grid_spun(g), id) <==> stone_id_present(g, id),
        stone_ids_unique(g) ==> stone_ids_unique(grid_spun(g)),
        stone_ids_below(g, t) ==> stone_ids_below(grid_spun(g), t),
{
    let n = g.len() as int;
    let gs = grid_spun(g);
    assert forall|r: int, c: int, id: int| #[trigger] has_stone_id(gs, r, c, id) implies has_stone_id(
        g,
        n - 1 - c,
        r,
        id,
    ) by {
        assert(gs[r][c] == g[n - 1 - c][r].spec_spun());
    }
    assert forall|r: int, c: int, id: int| #[trigger] has_stone_id(g, r, c, id) implies has_stone_id(
        gs,
        c,
        n - 1 - r,
        id,
    ) by {
        assert(gs[c][n - 1 - r] == g[r][c].spec_spun());
    }
    assert forall|id: int| #[trigger] stone_id_present(gs, id) implies stone_id_present(g, id) by {
        let (r, c) = choose|r: int, c: int| has_stone_id(gs, r, c, id);
        assert(has_stone_id(g, n - 1 - c, r, id));
    }
    assert forall|id: int| #[trigger] stone_id_present(g, id) implies stone_id_present(gs, id) by {
        let (r, c) = choose|r: int, c: int| has_stone_id(g, r, c, id);
        assert(has_stone_id(gs, c, n - 1 - r, id));
    }
    if stone_ids_unique(g) {
        assert forall|r1: int, c1: int, r2: int, c2: int, id: int|
            #[trigger] has_stone_id(gs, r1, c1, id) && #[trigger] has_stone_id(
                gs,
                r2,
                c2,
                id,
            ) implies r1 == r2 && c1 == c2 by {
            assert(has_stone_id(g, n - 1 - c1, r1, id));
            assert(has_stone_id(g, n - 1 - c2, r2, id));
        }
    }
}

/// Cutting out a sub-square keeps stone ids where they were: uniqueness and
/// id bounds restrict from the whole grid to the slice.
pub proof fn lemma_subgrid_ids(g: Seq<Seq<Cell>>, u: int, l: int, sz: int, t: int)
    requires
        is_square(g),
        region_ok(g.len() as int, u, l, sz),
    ensures
        is_square(subgrid(g, u, l, sz)),
        forall|r: int, c: int, id: int| #[trigger] has_stone_id(subgrid(g, u, l, sz), r, c, id)
            <==> (0 <= r < sz && 0 <= c < sz && has_stone_id(g, u + r, l + c, id)),
        stone_ids_unique(g) ==> stone_ids_unique(subgrid(g, u, l, sz)),
        stone_ids_below(g, t) ==> stone_ids_below(subgrid(g, u, l, sz), t),
{
    let s = subgrid(g, u, l, sz);
    assert forall|r: int, c: int, id: int| #[trigger] has_stone_id(s, r, c, id) implies (0 <= r < sz
        && 0 <= c < sz && has_stone_id(g, u + r, l + c, id)) by {
        assert(s[r][c] == g[u + r][l + c]);
    }
    assert forall|r: int, c: int, id: int|
        0 <= r < sz && 0 <= c < sz && has_stone_id(g, u + r, l + c, id) implies #[trigger] has_stone_id(
        s,
        r,
        c,
        id,
    ) by {
        assert(s[r][c] == g[u + r][l + c]);
    }
    if stone_ids_unique(g) {
        assert forall|r1: int, c1: int, r2: int, c2: int, id: int|
            #[trigger] has_stone_id(s, r1, c1, id) && #[trigger] has_stone_id(
                s,
                r2,
                c2,
                id,
            ) implies r1 == r2 && c1 == c2 by {
            assert(has_stone_id(g, u + r1, l + c1, id));
            assert(has_stone_id(g, u + r2, l + c2, id));
        }
    }
}

/// Writing a rearranged slice back over the region it was cut from keeps the
/// grid's stone-id bookkeeping intact, as long as the slice holds exactly
/// the ids that the region held.
pub proof fn lemma_patched_ids(g: Seq<Seq<Cell>>, u: int, l: int, sz: int, s: Seq<Seq<Cell>>, t: int)
    requires
        is_square(g),
        region_ok(g.len() as int, u, l, sz),
        s.len() == sz,
        is_square(s),
        forall|id: int| #[trigger] stone_id_present(s, id) <==> stone_id_present(
            subgrid(g, u, l, sz),
            id,
        ),
        stone_ids_unique(g),
        stone_ids_unique(s),
        stone_ids_below(g, t),
        stone_ids_below(s, t),
    ensures
        forall|id: int| #[trigger] stone_id_present(patched(g, u, l, s), id) <==> stone_id_present(
            g,
            id,
        ),
        stone_ids_unique(patched(g, u, l, s)),
        stone_ids_below(patched(g, u, l, s), t),
{
    let n = g.len() as int;
    let sub = subgrid(g, u, l, sz);
    let gp = patched(g, u, l, s);

    // Pointwise: inside the region `gp` shows `s`, outside it shows `g`.
    assert forall|r: int, c: int, id: int| #[trigger] has_stone_id(gp, r, c, id) implies (if u <= r
        < u + sz && l <= c < l + sz {
        has_stone_id(s, r - u, c - l, id)
    } else {
        has_stone_id(g, r, c, id)
    }) by {
        assert(gp[r][c] == if u <= r < u + sz && l <= c < l + sz {
            s[r - u][c - l]
        } else {
            g[r][c]
        });
    }
    assert forall|r: int, c: int, id: int|
        0 <= r < n && 0 <= c < n && (if u <= r < u + sz && l <= c < l + sz {
            has_stone_id(s, r - u, c - l, id)
        } else {
            has_stone_id(g, r, c, id)
        }) implies #[trigger] has_stone_id(gp, r, c, id) by {
        assert(gp[r][c] == if u <= r < u + sz && l <= c < l + sz {
            s[r - u][c - l]
        } else {
            g[r][c]
        });
    }
    lemma_subgrid_ids(g, u, l, sz, t);

    assert forall|id: int| #[trigger] stone_id_present(gp, id) implies stone_id_present(g, id) by {
        let (r, c) = choose|r: int, c: int| has_stone_id(gp, r, c, id);
        if u <= r < u + sz && l <= c < l + sz {
            assert(has_stone_id(s, r - u, c - l, id));
            assert(stone_id_present(s, id));
            assert(stone_id_present(sub, id));
            let (i, j) = choose|i: int, j: int| has_stone_id(sub, i, j, id);
            assert(has_stone_id(g, u + i, l + j, id));
        }
    }
    assert forall|id: int| #[trigger] stone_id_present(g, id) implies stone_id_present(gp, id) by {
        let (r, c) = choose|r: int, c: int| has_stone_id(g, r, c, id);
        if u <= r < u + sz && l <= c < l + sz {
            assert(has_stone_id(sub, r - u, c - l, id));
            assert(stone_id_present(s, id));
            let (i, j) = choose|i: int, j: int| has_stone_id(s, i, j, id);
            assert(has_stone_id(gp, u + i, l + j, id));
        } else {
            assert(has_stone_id(gp, r, c, id));
        }
    }
    assert forall|r1: int, c1: int, r2: int, c2: int, id: int|
        #[trigger] has_stone_id(gp, r1, c1, id) && #[trigger] has_stone_id(
            gp,
            r2,
            c2,
            id,
        ) implies r1 == r2 && c1 == c2 by {
        let in1 = u <= r1 < u + sz && l <= c1 < l + sz;
        let in2 = u <= r2 < u + sz && l <= c2 < l + sz;
        if in1 && in2 {
            assert(has_stone_id(s, r1 - u, c1 - l, id));
            assert(has_stone_id(s, r2 - u, c2 - l, id));
        } else if !in1 && !in2 {
            assert(has_stone_id(g, r1, c1, id));
            assert(has_stone_id(g, r2, c2, id));
        } else {
            // One position inside the region, one outside: then the id would
            // sit at two distinct positions of `g`, against uniqueness.
            let (ri, ci, ro, co) = if in1 {
                (r1, c1, r2, c2)
            } else {
                (r2, c2, r1, c1)
            };
            assert(has_stone_id(s, ri - u, ci - l, id));
            assert(stone_id_present(s, id));
            assert(stone_id_present(sub, id));
            let (i, j) = choose|i: int, j: int| has_stone_id(sub, i, j, id);
            assert(has_stone_id(g, u + i, l + j, id));
            assert(has_stone_id(g, ro, co, id));
            assert(false);
        }
    }
    assert forall|r: int, c: int, id: int| #[trigger] has_stone_id(gp, r, c, id) implies 1 <= id
        < t by {
        if u <= r < u + sz && l <= c < l + sz {
            assert(has_stone_id(s, r - u, c - l, id));
        } else {
            assert(has_stone_id(g, r, c, id));
        }
    }
}

} // verus!
