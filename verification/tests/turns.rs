use kurakura::cell::Cell;
use kurakura::game::Game;
use kurakura::types::GameOutcome;
use kurakura::types::Orientation;
use kurakura::types::Player;
use kurakura::types::SpinDirection;
use kurakura::types::Turn;
use kurakura::types::TurnDetails;
use kurakura::types::TurnError;

fn turn_input(
    player: Player,
    pr: usize,
    pc: usize,
    su: usize,
    sl: usize,
    sz: usize,
    sd: SpinDirection,
) -> Turn {
    Turn {
        player,
        details: TurnDetails {
            play_row: pr,
            play_col: pc,
            spin_ul_row: su,
            spin_ul_col: sl,
            spin_size: sz,
            spin_dir: sd,
        },
    }
}

fn snapshot(game: &Game) -> (Vec<Vec<Cell>>, usize, Option<GameOutcome>) {
    let n = game.size();
    let mut cells = Vec::new();
    for r in 0..n {
        let mut row = Vec::new();
        for c in 0..n {
            row.push(game.cell(r, c));
        }
        cells.push(row);
    }
    (cells, game.turn_count(), game.outcome())
}

#[test]
fn new_board_has_interior_connectivity() {
    let game = Game::new(3, 3);
    assert_eq!(game.size(), 3);
    assert_eq!(game.win_len(), 3);
    assert_eq!(game.turn_count(), 1);
    assert_eq!(game.outcome(), None);
    for r in 0..3 {
        for c in 0..3 {
            let cell = game.cell(r, c);
            assert_eq!(cell.stone, None);
            assert_eq!(cell.line_up, r > 0);
            assert_eq!(cell.line_left, c > 0);
            assert_eq!(cell.line_down, r < 2);
            assert_eq!(cell.line_right, c < 2);
        }
    }
}

#[test]
fn whose_turn_follows_parity() {
    let mut game = Game::new(3, 3);
    assert_eq!(game.whose_turn(), Player::Black);
    let r = game.turn(turn_input(Player::Black, 0, 0, 0, 0, 1, SpinDirection::CW));
    assert_eq!(r, Ok(None));
    assert_eq!(game.whose_turn(), Player::White);
}

#[test]
fn rejected_turns_leave_the_game_identical() {
    let mut game = Game::new(4, 3);
    assert_eq!(
        game.turn(turn_input(Player::Black, 0, 0, 0, 0, 2, SpinDirection::CW)),
        Ok(None)
    );
    let before = snapshot(&game);

    // Wrong player.
    let r = game.turn(turn_input(Player::Black, 1, 1, 0, 0, 1, SpinDirection::CW));
    assert_eq!(r, Err(TurnError::NotYourTurn));
    assert_eq!(snapshot(&game), before);

    // Play coordinates off the board.
    let r = game.turn(turn_input(Player::White, 4, 0, 0, 0, 1, SpinDirection::CW));
    assert_eq!(r, Err(TurnError::InvalidLocation));
    assert_eq!(snapshot(&game), before);
    let r = game.turn(turn_input(Player::White, 0, 7, 0, 0, 1, SpinDirection::CW));
    assert_eq!(r, Err(TurnError::InvalidLocation));
    assert_eq!(snapshot(&game), before);

    // Spin sub-square extending past the edge, and a zero-size spin.
    let r = game.turn(turn_input(Player::White, 1, 1, 3, 3, 2, SpinDirection::CW));
    assert_eq!(r, Err(TurnError::InvalidLocation));
    assert_eq!(snapshot(&game), before);
    let r = game.turn(turn_input(Player::White, 1, 1, 0, 0, 5, SpinDirection::CCW));
    assert_eq!(r, Err(TurnError::InvalidLocation));
    assert_eq!(snapshot(&game), before);
    let r = game.turn(turn_input(Player::White, 1, 1, 0, 0, 0, SpinDirection::CW));
    assert_eq!(r, Err(TurnError::InvalidLocation));
    assert_eq!(snapshot(&game), before);

    // Occupied play cell.  The stone placed on the first turn sat at (0, 0)
    // and was moved to (0, 1) by that turn's own 2x2 clockwise spin.
    let r = game.turn(turn_input(Player::White, 0, 1, 0, 0, 1, SpinDirection::CW));
    assert_eq!(r, Err(TurnError::PieceAlreadyThere));
    assert_eq!(snapshot(&game), before);

    // A valid turn still goes through afterwards.
    let r = game.turn(turn_input(Player::White, 3, 3, 0, 0, 1, SpinDirection::CW));
    assert_eq!(r, Ok(None));
}

#[test]
fn successful_turn_places_one_stone_and_advances() {
    let mut game = Game::new(3, 3);
    let before_turn = game.turn_count();
    assert_eq!(
        game.turn(turn_input(Player::Black, 1, 2, 0, 0, 3, SpinDirection::CW)),
        Ok(None)
    );
    assert_eq!(game.turn_count(), before_turn + 1);

    // Exactly one stone on the whole board, carrying the pre-call turn
    // number as id.  The 3x3 clockwise spin moved it from (1, 2) to (2, 1).
    let mut found = Vec::new();
    for r in 0..3 {
        for c in 0..3 {
            if let Some((id, _, _)) = game.cell(r, c).stone {
                found.push((r, c, id));
            }
        }
    }
    assert_eq!(found, vec![(2, 1, before_turn)]);
}

#[test]
fn finished_game_rejects_every_turn() {
    // With win length 1 the first stone forms a complete line by itself.
    let mut game = Game::new(2, 1);
    let r = game.turn(turn_input(Player::Black, 0, 0, 0, 0, 1, SpinDirection::CW));
    assert_eq!(r, Ok(Some(GameOutcome::BlackWin)));
    assert_eq!(game.outcome(), Some(GameOutcome::BlackWin));
    let before = snapshot(&game);

    // Every further call fails with GameAlreadyOver, whatever the input.
    let r = game.turn(turn_input(Player::White, 1, 1, 0, 0, 1, SpinDirection::CW));
    assert_eq!(r, Err(TurnError::GameAlreadyOver));
    let r = game.turn(turn_input(Player::Black, 0, 0, 0, 0, 2, SpinDirection::CCW));
    assert_eq!(r, Err(TurnError::GameAlreadyOver));
    let r = game.turn(turn_input(Player::White, 9, 9, 9, 9, 9, SpinDirection::CW));
    assert_eq!(r, Err(TurnError::GameAlreadyOver));
    assert_eq!(snapshot(&game), before);
}

#[test]
fn winning_stone_is_flagged_and_oriented() {
    let mut game = Game::new(2, 1);
    let r = game.turn(turn_input(Player::Black, 1, 0, 0, 0, 2, SpinDirection::CW));
    assert_eq!(r, Ok(Some(GameOutcome::BlackWin)));
    // The 2x2 clockwise spin carried the fresh stone from (1, 0) to (0, 0)
    // and advanced its orientation before the scan flagged it.
    assert_eq!(game.cell(0, 0).stone, Some((1, Orientation::Right, true)));
}

#[test]
fn ccw_spin_is_three_cw_spins() {
    // A counter-clockwise spin is three clockwise quarter-turns: the corner
    // stone travels (0,0) -> (0,2) -> (2,2) -> (2,0) and its orientation
    // advances three times, Up -> Right -> Down -> Left.
    let mut game = Game::new(3, 3);
    let r = game.turn(turn_input(Player::Black, 0, 0, 0, 0, 3, SpinDirection::CCW));
    assert_eq!(r, Ok(None));
    assert_eq!(game.cell(2, 0).stone, Some((1, Orientation::Left, false)));
    assert_eq!(game.cell(0, 0).stone, None);
}

#[test]
fn turn_phases_are_distinct() {
    // The engine applies both phases of a turn atomically; the phase type
    // remains for callers that present the two halves separately.
    let phases = vec![kurakura::types::TurnPhase::Play, kurakura::types::TurnPhase::Spin];
    assert_ne!(phases[0], phases[1]);
    assert_eq!(phases[0], kurakura::types::TurnPhase::Play);
}
