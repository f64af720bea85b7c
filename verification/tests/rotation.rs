use kurakura::cell::Cell;
use kurakura::cell::spin_cell_grid;
use kurakura::types::Orientation;
use kurakura::types::Player;

fn stone_cell(id: usize, orient: Orientation, won: bool) -> Cell {
    Cell {
        stone: Some((id, orient, won)),
        line_up: false,
        line_right: false,
        line_down: false,
        line_left: false,
    }
}

fn empty_cell(up: bool, right: bool, down: bool, left: bool) -> Cell {
    Cell { stone: None, line_up: up, line_right: right, line_down: down, line_left: left }
}

fn sample_grid() -> Vec<Vec<Cell>> {
    vec![
        vec![
            stone_cell(1, Orientation::Up, false),
            empty_cell(true, false, false, true),
            stone_cell(2, Orientation::Left, true),
        ],
        vec![
            empty_cell(false, true, true, false),
            stone_cell(3, Orientation::Down, false),
            empty_cell(true, true, false, false),
        ],
        vec![
            stone_cell(4, Orientation::Right, false),
            empty_cell(false, false, true, true),
            stone_cell(5, Orientation::Up, true),
        ],
    ]
}

#[test]
fn orientation_spun_cycles() {
    assert_eq!(Orientation::Up.spun(), Orientation::Right);
    assert_eq!(Orientation::Right.spun(), Orientation::Down);
    assert_eq!(Orientation::Down.spun(), Orientation::Left);
    assert_eq!(Orientation::Left.spun(), Orientation::Up);
    assert_eq!(Orientation::Up.spun().spun().spun().spun(), Orientation::Up);
}

#[test]
fn player_other_alternates() {
    assert_eq!(Player::Black.other(), Player::White);
    assert_eq!(Player::White.other(), Player::Black);
}

#[test]
fn who_derives_owner_from_id_parity() {
    assert_eq!(stone_cell(1, Orientation::Up, false).who(), Some(Player::Black));
    assert_eq!(stone_cell(2, Orientation::Up, false).who(), Some(Player::White));
    assert_eq!(stone_cell(17, Orientation::Down, true).who(), Some(Player::Black));
    assert_eq!(stone_cell(40, Orientation::Left, true).who(), Some(Player::White));
    assert_eq!(empty_cell(true, true, true, true).who(), None);
}

#[test]
fn spin_moves_cells_and_rotates_them() {
    // out[r][c] receives the rotated cell from in[n - 1 - c][r].
    let a = stone_cell(1, Orientation::Up, false);
    let b = stone_cell(2, Orientation::Right, true);
    let c = empty_cell(true, false, true, false);
    let d = stone_cell(4, Orientation::Left, false);
    let grid = vec![vec![a, b], vec![c, d]];
    let spun = spin_cell_grid(grid);

    // Stone ids and win flags pass through; orientations advance once.
    assert_eq!(spun[0][0], Cell { stone: None, line_up: false, line_right: true, line_down: false, line_left: true });
    assert_eq!(spun[0][1].stone, Some((1, Orientation::Right, false)));
    assert_eq!(spun[1][0].stone, Some((4, Orientation::Up, false)));
    assert_eq!(spun[1][1].stone, Some((2, Orientation::Down, true)));
}

#[test]
fn line_flags_rotate_one_step() {
    let cell = empty_cell(true, false, false, false);
    let spun = spin_cell_grid(vec![vec![cell]]);
    // line_right takes the old line_up; everything else follows around.
    assert_eq!(spun[0][0], empty_cell(false, true, false, false));
    let spun2 = spin_cell_grid(spun);
    assert_eq!(spun2[0][0], empty_cell(false, false, true, false));
}

#[test]
fn four_spins_restore_the_grid() {
    let original = sample_grid();
    let mut grid = original.clone();
    for _ in 0..4 {
        grid = spin_cell_grid(grid);
    }
    assert_eq!(grid, original);
}

#[test]
fn ccw_then_cw_restores_the_grid() {
    let original = sample_grid();
    // A counter-clockwise turn is three clockwise quarter-turns.
    let mut ccw = original.clone();
    ccw = spin_cell_grid(ccw);
    ccw = spin_cell_grid(ccw);
    ccw = spin_cell_grid(ccw);
    let back = spin_cell_grid(ccw);
    assert_eq!(back, original);
}
