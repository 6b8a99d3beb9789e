use connect_four::{Color, DropResult, Game};

/// The cell in column x, row y (row 0 is the bottom).
fn cell(g: &Game, x: usize, y: usize) -> Option<Color> {
    g.board[x * 6 + y]
}

fn occupied_cells(g: &Game) -> usize {
    g.board.iter().filter(|c| c.is_some()).count()
}

/// No floating markers: every occupied cell above the bottom row sits
/// on an occupied cell.
fn gravity_holds(g: &Game) -> bool {
    for x in 0..7 {
        for y in 1..6 {
            if cell(g, x, y).is_some() && cell(g, x, y - 1).is_none() {
                return false;
            }
        }
    }
    true
}

fn apply_all(g: &mut Game, columns: &[usize]) -> Vec<DropResult> {
    let mut results: Vec<DropResult> = Vec::new();
    for &x in columns {
        results.push(g.drop_coin(x));
    }
    results
}

#[test]
fn new_game_is_empty_and_yellow_moves_first() {
    let g = Game::new();
    assert_eq!(g.turn, Color::Yellow);
    assert_eq!(occupied_cells(&g), 0);
    for x in 0..7 {
        for y in 0..6 {
            assert_eq!(cell(&g, x, y), None);
        }
    }
    assert!(gravity_holds(&g));
}

#[test]
fn other_flips_the_marker() {
    assert_eq!(Color::Yellow.other(), Color::Red);
    assert_eq!(Color::Red.other(), Color::Yellow);
}

#[test]
fn out_of_range_column_is_rejected_without_change() {
    let mut g = Game::new();
    g.drop_coin(3);
    let before = g.clone();
    assert_eq!(g.drop_coin(7), DropResult::Invalid);
    assert_eq!(g, before);
    assert_eq!(g.drop_coin(100), DropResult::Invalid);
    assert_eq!(g, before);
    assert_eq!(g.drop_coin(usize::MAX), DropResult::Invalid);
    assert_eq!(g, before);
}

#[test]
fn full_column_is_rejected_without_change() {
    let mut g = Game::new();
    // Six alternating markers fill column 2 without a four-in-a-row.
    let results = apply_all(&mut g, &[2, 2, 2, 2, 2, 2]);
    assert_eq!(results, vec![DropResult::Valid; 6]);
    let before = g.clone();
    assert_eq!(g.drop_coin(2), DropResult::Invalid);
    assert_eq!(g, before);
}

#[test]
fn boundary_columns_are_accepted() {
    let mut g = Game::new();
    assert_eq!(g.drop_coin(0), DropResult::Valid);
    assert_eq!(g.drop_coin(6), DropResult::Valid);
    assert_eq!(cell(&g, 0, 0), Some(Color::Yellow));
    assert_eq!(cell(&g, 6, 0), Some(Color::Red));
}

#[test]
fn valid_move_adds_one_marker_and_keeps_gravity() {
    let mut g = Game::new();
    let columns: [usize; 8] = [3, 3, 4, 3, 2, 4, 4, 3];
    let mut expected: usize = 0;
    for &x in columns.iter() {
        assert_eq!(g.drop_coin(x), DropResult::Valid);
        expected += 1;
        assert_eq!(occupied_cells(&g), expected);
        assert!(gravity_holds(&g));
    }
}

#[test]
fn markers_fill_a_column_from_the_bottom_up() {
    let mut g = Game::new();
    apply_all(&mut g, &[5, 5, 5]);
    assert_eq!(cell(&g, 5, 0), Some(Color::Yellow));
    assert_eq!(cell(&g, 5, 1), Some(Color::Red));
    assert_eq!(cell(&g, 5, 2), Some(Color::Yellow));
    assert_eq!(cell(&g, 5, 3), None);
}

#[test]
fn turn_alternates_on_accepted_moves_only() {
    let mut g = Game::new();
    assert_eq!(g.turn, Color::Yellow);
    assert_eq!(g.drop_coin(0), DropResult::Valid);
    assert_eq!(g.turn, Color::Red);
    assert_eq!(g.drop_coin(1), DropResult::Valid);
    assert_eq!(g.turn, Color::Yellow);
    // A rejected move leaves the turn with the same player.
    assert_eq!(g.drop_coin(9), DropResult::Invalid);
    assert_eq!(g.turn, Color::Yellow);
}

#[test]
fn horizontal_win_on_the_fourth_placement() {
    let mut g = Game::new();
    // Yellow builds (0,0),(1,0),(2,0); Red answers on top of each.
    let results = apply_all(&mut g, &[0, 0, 1, 1, 2, 2]);
    assert_eq!(results, vec![DropResult::Valid; 6]);
    // Yellow's fourth marker completes the bottom row line.
    assert_eq!(g.drop_coin(3), DropResult::Win);
    assert_eq!(cell(&g, 0, 0), Some(Color::Yellow));
    assert_eq!(cell(&g, 1, 0), Some(Color::Yellow));
    assert_eq!(cell(&g, 2, 0), Some(Color::Yellow));
    assert_eq!(cell(&g, 3, 0), Some(Color::Yellow));
    // The turn stays with the winner.
    assert_eq!(g.turn, Color::Yellow);
    assert!(g.is_win());
}

#[test]
fn vertical_win_in_one_column() {
    let mut g = Game::new();
    let results = apply_all(&mut g, &[0, 1, 0, 1, 0, 1]);
    assert_eq!(results, vec![DropResult::Valid; 6]);
    assert_eq!(g.drop_coin(0), DropResult::Win);
    assert_eq!(g.turn, Color::Yellow);
}

#[test]
fn diagonal_win_up_right() {
    let mut g = Game::new();
    // Yellow lands on (0,0),(1,1),(2,2); supports come from both sides.
    let results = apply_all(&mut g, &[0, 1, 1, 2, 4, 2, 2, 3, 3, 3]);
    assert_eq!(results, vec![DropResult::Valid; 10]);
    // Yellow's marker at (3,3) completes the diagonal.
    assert_eq!(g.drop_coin(3), DropResult::Win);
    assert_eq!(cell(&g, 0, 0), Some(Color::Yellow));
    assert_eq!(cell(&g, 1, 1), Some(Color::Yellow));
    assert_eq!(cell(&g, 2, 2), Some(Color::Yellow));
    assert_eq!(cell(&g, 3, 3), Some(Color::Yellow));
    assert_eq!(g.turn, Color::Yellow);
}

#[test]
fn broken_diagonal_is_no_win() {
    let mut g = Game::new();
    // Same diagonal positions, but (2,2) holds Red instead of Yellow.
    let results = apply_all(&mut g, &[0, 1, 1, 2, 4, 2, 5, 2, 3, 3, 3, 6, 3]);
    assert_eq!(results, vec![DropResult::Valid; 13]);
    assert_eq!(cell(&g, 0, 0), Some(Color::Yellow));
    assert_eq!(cell(&g, 1, 1), Some(Color::Yellow));
    assert_eq!(cell(&g, 2, 2), Some(Color::Red));
    assert_eq!(cell(&g, 3, 3), Some(Color::Yellow));
    assert!(!g.is_win());
}

#[test]
fn win_check_is_pure() {
    let mut g = Game::new();
    apply_all(&mut g, &[0, 0, 1, 1, 2, 2]);
    assert_eq!(g.is_win(), g.is_win());
    assert!(!g.is_win());
    g.drop_coin(3);
    assert_eq!(g.is_win(), g.is_win());
    assert!(g.is_win());
}

#[test]
fn win_in_direction_walks_both_ways() {
    let mut g = Game::new();
    apply_all(&mut g, &[0, 0, 1, 1, 2, 2, 3]);
    // The bottom row line reads from either end, in opposite directions.
    assert!(g.win_in_direction((0, 0), (1, 0)));
    assert!(g.win_in_direction((3, 0), (-1, 0)));
    // No vertical line stands at (0,0).
    assert!(!g.win_in_direction((0, 0), (0, 1)));
    // Red's markers on row 1 make only three in a row.
    assert!(!g.win_in_direction((0, 1), (1, 0)));
}
