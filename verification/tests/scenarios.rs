use kurakura::game::Game;
use kurakura::types::GameOutcome;
use kurakura::types::Orientation;
use kurakura::types::Player;
use kurakura::types::SpinDirection;
use kurakura::types::Turn;
use kurakura::types::TurnDetails;

fn turn_input(
    player: Player,
    pr: usize,
    pc: usize,
    su: usize,
    sl: usize,
    sz: usize,
    sd: SpinDirection,
) -> Turn {
    Turn {
        player,
        details: TurnDetails {
            play_row: pr,
            play_col: pc,
            spin_ul_row: su,
            spin_ul_col: sl,
            spin_size: sz,
            spin_dir: sd,
        },
    }
}

#[test]
fn whole_board_spin_carries_stones() {
    let mut game = Game::new(9, 2);

    // Black plays (0, 0) and spins the single cell under the new stone:
    // the stone stays put, its orientation advances to Right.
    let r = game.turn(turn_input(Player::Black, 0, 0, 0, 0, 1, SpinDirection::CW));
    assert_eq!(r, Ok(None));
    assert_eq!(game.cell(0, 0).stone, Some((1, Orientation::Right, false)));

    // White plays (0, 3) and spins the whole board once clockwise.  The
    // first stone moves from (0, 0) to (0, 8), the second from (0, 3) to
    // (3, 8), and both orientations advance with the spin.
    let r = game.turn(turn_input(Player::White, 0, 3, 0, 0, 9, SpinDirection::CW));
    assert_eq!(r, Ok(None));
    assert_eq!(game.cell(0, 8).stone, Some((1, Orientation::Down, false)));
    assert_eq!(game.cell(3, 8).stone, Some((2, Orientation::Right, false)));
    assert_eq!(game.cell(0, 0).stone, None);
    assert_eq!(game.cell(0, 3).stone, None);
    assert_eq!(game.outcome(), None);
}

#[test]
fn five_in_a_row_wins_for_black() {
    let mut game = Game::new(9, 5);

    // Black builds a horizontal run of five on rows of odd turns (ids 1, 3,
    // 5, 7, 9); White answers far away.  Every spin is a size-1 spin of the
    // empty far corner, which disturbs no stone.
    let black_cols = [0usize, 1, 2, 3, 4];
    let white_cols = [0usize, 1, 2, 3];
    for k in 0..4 {
        let r = game.turn(turn_input(
            Player::Black,
            4,
            black_cols[k],
            8,
            8,
            1,
            SpinDirection::CW,
        ));
        assert_eq!(r, Ok(None));
        let r = game.turn(turn_input(
            Player::White,
            6,
            white_cols[k],
            8,
            8,
            1,
            SpinDirection::CW,
        ));
        assert_eq!(r, Ok(None));
    }
    let r = game.turn(turn_input(Player::Black, 4, black_cols[4], 8, 8, 1, SpinDirection::CW));
    assert_eq!(r, Ok(Some(GameOutcome::BlackWin)));
    assert_eq!(game.outcome(), Some(GameOutcome::BlackWin));

    // All five stones of the line carry odd ids and are flagged won.
    let expected_ids = [1usize, 3, 5, 7, 9];
    for k in 0..5 {
        let stone = game.cell(4, black_cols[k]).stone.unwrap();
        assert_eq!(stone.0, expected_ids[k]);
        assert_eq!(stone.2, true);
    }
    // White's stones are not part of the win.
    for k in 0..4 {
        let stone = game.cell(6, white_cols[k]).stone.unwrap();
        assert_eq!(stone.2, false);
    }
}

#[test]
fn full_board_without_lines_is_stalemate() {
    let mut game = Game::new(3, 3);

    // Fill the board so that no row, column, or down-right diagonal is one
    // player's: ids by cell follow the order of play below.
    //     B(1) W(2) B(3)
    //     B(5) W(4) W(6)
    //     W(8) B(7) B(9)
    let moves = [
        (Player::Black, 0usize, 0usize),
        (Player::White, 0, 1),
        (Player::Black, 0, 2),
        (Player::White, 1, 1),
        (Player::Black, 1, 0),
        (Player::White, 1, 2),
        (Player::Black, 2, 1),
        (Player::White, 2, 0),
    ];
    for (player, r, c) in moves {
        let res = game.turn(turn_input(player, r, c, r, c, 1, SpinDirection::CW));
        assert_eq!(res, Ok(None));
    }
    let res = game.turn(turn_input(Player::Black, 2, 2, 2, 2, 1, SpinDirection::CW));
    assert_eq!(res, Ok(Some(GameOutcome::Stalemate)));
    assert_eq!(game.outcome(), Some(GameOutcome::Stalemate));

    // Nobody's stone is flagged as winning.
    for r in 0..3 {
        for c in 0..3 {
            let stone = game.cell(r, c).stone.unwrap();
            assert_eq!(stone.2, false);
        }
    }
}

#[test]
fn one_scan_with_lines_for_both_players_is_a_double_win() {
    let mut game = Game::new(4, 2);

    // Three quiet turns, then White's final spin rearranges the top-left
    // square so that Black's stones align at (1,0)-(2,0) and White's at
    // (1,1)-(2,1) in the very same scan: disjoint lines, one for each.
    let r = game.turn(turn_input(Player::Black, 1, 1, 3, 3, 1, SpinDirection::CW));
    assert_eq!(r, Ok(None));
    let r = game.turn(turn_input(Player::White, 2, 1, 3, 3, 1, SpinDirection::CW));
    assert_eq!(r, Ok(None));
    let r = game.turn(turn_input(Player::Black, 2, 0, 3, 3, 1, SpinDirection::CW));
    assert_eq!(r, Ok(None));
    let r = game.turn(turn_input(Player::White, 0, 1, 0, 0, 2, SpinDirection::CW));
    assert_eq!(r, Ok(Some(GameOutcome::DoubleWin)));
    assert_eq!(game.outcome(), Some(GameOutcome::DoubleWin));

    // The newly placed stone (id 4) was itself relocated and reoriented by
    // its own spin before the scan ran.
    assert_eq!(game.cell(1, 0).stone, Some((1, Orientation::Right, true)));
    assert_eq!(game.cell(1, 1).stone, Some((4, Orientation::Right, true)));
    assert_eq!(game.cell(2, 0).stone, Some((3, Orientation::Up, true)));
    assert_eq!(game.cell(2, 1).stone, Some((2, Orientation::Up, true)));
}
