use puzzle2048::board::Board;

fn board_of(rows: Vec<Vec<u32>>) -> Board {
    Board::from_rows(rows).expect("square table")
}

#[test]
fn new_board_is_empty() {
    let b = Board::new(4);
    assert_eq!(b.size(), 4);
    let rows = b.get_board();
    assert_eq!(rows, vec![vec![0u32; 4]; 4]);
    assert_eq!(b.count_empty(), 16);
    assert_eq!(b.count_occupied(), 0);
    assert!(!b.is_board_full());
}

#[test]
fn set_and_get_roundtrip() {
    let mut b = Board::new(4);
    b.set(1, 2, 8);
    assert_eq!(b.get(1, 2), 8);
    assert_eq!(b.get(2, 1), 0);
    assert_eq!(b.count_occupied(), 1);
}

#[test]
fn empty_plus_occupied_covers_grid() {
    let b = board_of(vec![
        vec![2, 0, 4, 0],
        vec![0, 0, 0, 0],
        vec![8, 8, 0, 2],
        vec![0, 2, 0, 0],
    ]);
    assert_eq!(b.count_empty() + b.count_occupied(), 16);
    assert_eq!(b.count_occupied(), 6);
}

#[test]
fn empty_cells_lists_exactly_the_zeros() {
    let b = board_of(vec![vec![2, 0], vec![0, 4]]);
    let cells = b.empty_cells();
    assert_eq!(cells, vec![(0, 1), (1, 0)]);
}

#[test]
fn full_board_has_no_empty_cells() {
    let b = board_of(vec![vec![2, 4], vec![8, 16]]);
    assert!(b.is_board_full());
    assert_eq!(b.empty_cells(), vec![]);
}

#[test]
fn equals_is_cell_wise() {
    let a = board_of(vec![vec![2, 0], vec![0, 4]]);
    let b = board_of(vec![vec![2, 0], vec![0, 4]]);
    let c = board_of(vec![vec![2, 0], vec![4, 0]]);
    assert!(a.equals(&b));
    assert!(b.equals(&a));
    assert!(!a.equals(&c));
}

#[test]
fn from_rows_rejects_bad_tables() {
    assert!(Board::from_rows(vec![]).is_none());
    assert!(Board::from_rows(vec![vec![0u32]]).is_none());
    assert!(Board::from_rows(vec![vec![0u32, 0], vec![0u32]]).is_none());
    assert!(Board::from_rows(vec![vec![0u32, 0, 0], vec![0u32, 0, 0]]).is_none());
    assert!(Board::from_rows(vec![vec![0u32, 0], vec![0u32, 0]]).is_some());
}

#[test]
fn snapshot_copies_the_grid() {
    let a = board_of(vec![vec![2, 0], vec![0, 4]]);
    let b = a.snapshot();
    assert!(a.equals(&b));
    assert_eq!(a.get_board(), b.get_board());
}
