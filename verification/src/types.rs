//! Elementary value types of the game: orientations, players, spin
//! directions, turn phases, outcomes, errors, and the turn description.

use vstd::prelude::*;

verus! {

/// Which way a placed stone's arrow points.  Cosmetic, but it takes part in
/// the rotation symmetry: spinning a sub-square advances the orientation of
/// every stone inside it.
#[derive(Clone, Copy, PartialEq, Eq, Structural, Debug)]
pub enum Orientation {
    Up,
    Right,
    Down,
    Left,
}

/// Direction of the quarter-turn applied to the chosen sub-square.
#[derive(Clone, Copy, PartialEq, Eq, Structural, Debug)]
pub enum SpinDirection {
    CW,
    CCW,
}

/// One of the two players.  A stone's owner is never stored: it is derived
/// from the parity of the stone's id (odd ids belong to Black).
#[derive(Clone, Copy, PartialEq, Eq, Structural, Debug)]
pub enum Player {
    Black,
    White,
}

/// The two halves of a turn.  The engine applies both halves atomically in
/// one call, so the phase is implicit in the turn counter; the type remains
/// for callers that present the two halves separately.
#[derive(Clone, Copy, PartialEq, Eq, Structural, Debug)]
pub enum TurnPhase {
    Play,
    Spin,
}

/// Terminal result of a game.  `DoubleWin` arises when one scan finds
/// complete lines for both players at once.
#[derive(Clone, Copy, PartialEq, Eq, Structural, Debug)]
pub enum GameOutcome {
    BlackWin,
    WhiteWin,
    Stalemate,
    DoubleWin,
}

/// Why a turn was rejected.  A rejected turn leaves the game unchanged.
#[derive(Clone, Copy, PartialEq, Eq, Structural, Debug)]
pub enum TurnError {
    GameAlreadyOver,
    NotYourTurn,
    InvalidLocation,
    PieceAlreadyThere,
}

/// Where a stone is placed and which square sub-region is spun afterwards.
/// The sub-region has its top-left corner at `(spin_ul_row, spin_ul_col)`
/// and side length `spin_size`.
#[derive(Clone, Copy, PartialEq, Eq, Structural, Debug)]
pub struct TurnDetails {
    pub play_row: usize,
    pub play_col: usize,
    pub spin_ul_row: usize,
    pub spin_ul_col: usize,
    pub spin_size: usize,
    pub spin_dir: SpinDirection,
}

/// A complete turn request: who claims to move, and how.
#[derive(Clone, Copy, PartialEq, Eq, Structural, Debug)]
pub struct Turn {
    pub player: Player,
    pub details: TurnDetails,
}

/// What a turn call hands back: the (possibly still unset) outcome on
/// success, or the reason the turn was rejected.
pub type TurnResult = Result<Option<GameOutcome>, TurnError>;

/// The owner of the stone with id `id`: odd ids belong to Black, even ids
/// to White.
pub open spec fn player_of_id(id: int) -> Player {
    if id % 2 == 1 {
        Player::Black
    } else {
        Player::White
    }
}

impl Orientation {
    /// The orientation after one quarter-turn clockwise.
    pub open spec fn spec_spun(self) -> Orientation {
        match self {
            Orientation::Up => Orientation::Right,
            Orientation::Right => Orientation::Down,
            Orientation::Down => Orientation::Left,
            Orientation::Left => Orientation::Up,
        }
    }

    /// Advance the orientation one quarter-turn clockwise.
    pub fn spun(self) -> (r: Orientation)
        ensures
            r == self.spec_spun(),
    {
        match self {
            Orientation::Up => Orientation::Right,
            Orientation::Right => Orientation::Down,
            Orientation::Down => Orientation::Left,
            Orientation::Left => Orientation::Up,
        }
    }
}

impl Player {
    /// The opposing player.
    pub open spec fn spec_other(self) -> Player {
        match self {
            Player::Black => Player::White,
            Player::White => Player::Black,
        }
    }

    /// Turn alternation: the player who moves after `self`.
    pub fn other(self) -> (r: Player)
        ensures
            r == self.spec_other(),
    {
        match self {
            Player::Black => Player::White,
            Player::White => Player::Black,
        }
    }
}

} // verus!
