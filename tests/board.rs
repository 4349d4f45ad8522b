use game::board::{Board, ScanFilter};
use game::cell::{BaseTerrain, CellAnimation, CellContent, Team};

fn floor_board(rows: usize, cols: usize) -> Board {
    Board::new(rows, cols, &vec![BaseTerrain::Floor; rows * cols])
}

#[test]
fn run_lengths_sum_to_board_size() {
    let mut terrain = vec![BaseTerrain::Floor; 12];
    terrain[0] = BaseTerrain::Wall;
    terrain[5] = BaseTerrain::Bush;
    terrain[6] = BaseTerrain::Bush;
    let mut b = Board::new(3, 4, &terrain);
    b.place_cell(CellContent::Champion(1, Team::Blue), 2, 3);
    b.place_animation(CellAnimation::MeleeHit, 1, 0);
    let runs = b.run_length_encode(0, 0);
    let total: usize = runs.iter().map(|r| r.1).sum();
    assert_eq!(total, 12);
    assert_eq!(runs, vec![(0, 1), (1, 3), (9, 1), (2, 2), (1, 4), (4, 1)]);
}

#[test]
fn run_length_encoding_exact_runs() {
    let mut terrain = vec![BaseTerrain::Floor; 6];
    terrain[0] = BaseTerrain::Wall;
    terrain[1] = BaseTerrain::Wall;
    let mut b = Board::new(2, 3, &terrain);
    b.place_cell(CellContent::Minion(7, Team::Red), 1, 2);
    b.place_animation(CellAnimation::TowerHit, 1, 0);
    assert_eq!(b.run_length_encode(0, 0), vec![(0, 2), (1, 1), (10, 1), (1, 1), (6, 1)]);
}

#[test]
fn empty_board_encodes_to_nothing() {
    let b = Board::new(0, 5, &Vec::new());
    assert!(b.run_length_encode(0, 0).is_empty());
}

#[test]
fn encoding_same_board_twice_is_identical() {
    let mut b = floor_board(4, 4);
    b.place_cell(CellContent::Tower(3, Team::Red), 1, 1);
    b.set_terrain(BaseTerrain::Bush, 3, 2);
    let first = b.run_length_encode(0, 0);
    let second = b.run_length_encode(2, 3);
    assert_eq!(first, second);
}

#[test]
fn place_and_clear_leave_terrain_and_animation() {
    let mut b = floor_board(2, 2);
    b.place_animation(CellAnimation::MeleeHit, 0, 1);
    b.place_cell(CellContent::Flag(1, Team::Blue), 0, 1);
    assert!(!b.is_passable(0, 1));
    b.clear_cell(0, 1);
    let cell = b.get_cell(0, 1).unwrap();
    assert!(cell.content.is_none());
    assert_eq!(cell.animation, Some(CellAnimation::MeleeHit));
    assert_eq!(cell.base, BaseTerrain::Floor);
    assert!(b.is_passable(0, 1));
    b.clean_animation(0, 1);
    assert!(b.get_cell(0, 1).unwrap().animation.is_none());
}

#[test]
fn out_of_bounds_is_ignored() {
    let mut b = floor_board(2, 2);
    b.place_cell(CellContent::Champion(1, Team::Red), 5, 5);
    assert!(b.get_cell(5, 5).is_none());
    assert!(!b.is_passable(2, 0));
    assert_eq!(b.run_length_encode(0, 0), vec![(1, 4)]);
}

#[test]
fn scan_finds_nearest_with_row_major_tie_break() {
    let mut b = floor_board(5, 5);
    b.place_cell(CellContent::Minion(1, Team::Red), 3, 3);
    b.place_cell(CellContent::Minion(2, Team::Red), 1, 3);
    b.place_cell(CellContent::Minion(3, Team::Blue), 2, 1);
    let found = b.scan_nearest(2, 2, 1, ScanFilter::EnemyOf(Team::Blue));
    assert_eq!(found, Some((1, 3)));
    assert_eq!(b.scan_nearest(2, 2, 2, ScanFilter::EnemyOf(Team::Red)), Some((2, 1)));
    assert_eq!(b.scan_nearest(0, 0, 1, ScanFilter::EnemyOf(Team::Blue)), None);
    assert_eq!(b.scan_nearest(2, 2, 3, ScanFilter::Champions), None);
}

#[test]
fn scan_filters_by_kind() {
    let mut b = floor_board(3, 3);
    b.place_cell(CellContent::Monster(9), 0, 0);
    b.place_cell(CellContent::Tower(4, Team::Red), 2, 2);
    assert_eq!(b.scan_nearest(1, 1, 1, ScanFilter::EnemyOrMonster(Team::Blue)), Some((0, 0)));
    assert_eq!(b.scan_nearest(1, 1, 1, ScanFilter::EnemyOf(Team::Blue)), Some((2, 2)));
    assert_eq!(b.scan_nearest(1, 1, 1, ScanFilter::EnemyUnitsOf(Team::Blue)), None);
}

#[test]
fn board_cells_know_their_positions() {
    let b = floor_board(3, 4);
    assert_eq!(b.get_cell(2, 3).unwrap().position, (2, 3));
    assert_eq!(b.get_cell(1, 0).unwrap().position, (1, 0));
}
