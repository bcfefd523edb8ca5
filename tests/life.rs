use hex_automata::board::Board;
use hex_automata::life::{step, GameOfLifeCell};

fn with_alive(width: i32, height: i32, alive: &[(i32, i32)]) -> Board<GameOfLifeCell> {
    let mut b: Board<GameOfLifeCell> = Board::new(width, height);
    let cells: Vec<(i32, i32)> = alive.to_vec();
    b.step(move |_: &Board<GameOfLifeCell>, p: &(i32, i32)| {
        if cells.contains(p) {
            GameOfLifeCell::Alive
        } else {
            GameOfLifeCell::Dead
        }
    });
    b
}

fn alive_cells(b: &Board<GameOfLifeCell>) -> Vec<(i32, i32)> {
    let mut v = Vec::new();
    for r in 0..b.height() {
        for c in 0..b.width() {
            if *b.index((r, c)) == GameOfLifeCell::Alive {
                v.push((r, c));
            }
        }
    }
    v
}

#[test]
fn from_coin_picks_dead_on_true() {
    assert_eq!(GameOfLifeCell::from_coin(true), GameOfLifeCell::Dead);
    assert_eq!(GameOfLifeCell::from_coin(false), GameOfLifeCell::Alive);
}

#[test]
fn random_board_holds_only_dead_or_alive() {
    let b: Board<GameOfLifeCell> = Board::new(8, 8);
    let n = alive_cells(&b).len();
    assert!(n <= 64);
}

#[test]
fn isolated_cell_dies() {
    let mut b = with_alive(10, 10, &[(5, 5)]);
    b.step(step);
    assert!(alive_cells(&b).is_empty());
}

#[test]
fn blinker_oscillates_with_period_two() {
    let vertical = vec![(4, 5), (5, 5), (6, 5)];
    let horizontal = vec![(5, 4), (5, 5), (5, 6)];
    let mut b = with_alive(10, 10, &vertical);
    b.step(step);
    assert_eq!(alive_cells(&b), horizontal);
    b.step(step);
    assert_eq!(alive_cells(&b), vertical);
}

#[test]
fn block_is_still() {
    let block = vec![(4, 4), (4, 5), (5, 4), (5, 5)];
    let mut b = with_alive(10, 10, &block);
    for _ in 0..5 {
        b.step(step);
        assert_eq!(alive_cells(&b), block);
    }
}

#[test]
fn dead_cell_with_three_neighbours_is_born() {
    let b = with_alive(10, 10, &[(4, 4), (4, 5), (4, 6)]);
    assert_eq!(step(&b, &(5, 5)), GameOfLifeCell::Alive);
}

#[test]
fn dead_cell_with_two_or_four_neighbours_stays_dead() {
    let two = with_alive(10, 10, &[(4, 4), (4, 6)]);
    assert_eq!(step(&two, &(5, 5)), GameOfLifeCell::Dead);
    let four = with_alive(10, 10, &[(4, 4), (4, 5), (4, 6), (6, 6)]);
    assert_eq!(step(&four, &(5, 5)), GameOfLifeCell::Dead);
}

#[test]
fn live_cell_survives_with_two_or_three_neighbours() {
    let two = with_alive(10, 10, &[(5, 5), (4, 4), (6, 6)]);
    assert_eq!(step(&two, &(5, 5)), GameOfLifeCell::Alive);
    let three = with_alive(10, 10, &[(5, 5), (4, 4), (6, 6), (5, 4)]);
    assert_eq!(step(&three, &(5, 5)), GameOfLifeCell::Alive);
}

#[test]
fn live_cell_dies_with_one_or_four_neighbours() {
    let one = with_alive(10, 10, &[(5, 5), (4, 4)]);
    assert_eq!(step(&one, &(5, 5)), GameOfLifeCell::Dead);
    let four = with_alive(10, 10, &[(5, 5), (4, 4), (4, 5), (4, 6), (6, 6)]);
    assert_eq!(step(&four, &(5, 5)), GameOfLifeCell::Dead);
}

#[test]
fn top_row_counts_bottom_row_as_neighbour() {
    // Three live cells in the bottom row give the dead cell across the edge
    // three neighbours.
    let b = with_alive(10, 10, &[(9, 4), (9, 5), (9, 6)]);
    assert_eq!(step(&b, &(0, 5)), GameOfLifeCell::Alive);
    let b = with_alive(10, 10, &[(0, 4), (0, 5), (0, 6)]);
    assert_eq!(step(&b, &(9, 5)), GameOfLifeCell::Alive);
}

#[test]
fn blinker_across_the_edge_wraps() {
    let mut b = with_alive(10, 10, &[(9, 3), (0, 3), (1, 3)]);
    b.step(step);
    assert_eq!(alive_cells(&b), vec![(0, 2), (0, 3), (0, 4)]);
    b.step(step);
    assert_eq!(alive_cells(&b), vec![(0, 3), (1, 3), (9, 3)]);
}

#[test]
fn rule_wraps_out_of_range_positions() {
    let b = with_alive(10, 10, &[(4, 4), (4, 5), (4, 6)]);
    assert_eq!(step(&b, &(15, -5)), GameOfLifeCell::Alive);
    assert_eq!(step(&b, &(i32::MAX, i32::MIN)), step(&b, &(i32::MAX.rem_euclid(10), i32::MIN.rem_euclid(10))));
}
