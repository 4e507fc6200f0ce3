use puzzle2048::board::Board;
use puzzle2048::engine::Direction;
use puzzle2048::engine::apply_move;
use puzzle2048::engine::compact_and_merge_left;
use puzzle2048::engine::compact_and_merge_right;
use puzzle2048::engine::rotate_left;
use puzzle2048::engine::rotate_right;
use puzzle2048::engine::shift_down;
use puzzle2048::engine::shift_left;
use puzzle2048::engine::shift_right;
use puzzle2048::engine::shift_up;

fn board_of(rows: Vec<Vec<u32>>) -> Board {
    Board::from_rows(rows).expect("square table")
}

#[test]
fn merge_left_merges_each_pair_once() {
    // The two 2's merge; the 4 does not merge with the freshly made 4.
    let row = vec![2, 2, 4, 0];
    assert_eq!(compact_and_merge_left(&row), vec![4, 4, 0, 0]);
}

#[test]
fn merge_left_is_pairwise_not_cascading() {
    let row = vec![2, 2, 2, 2];
    assert_eq!(compact_and_merge_left(&row), vec![4, 4, 0, 0]);
}

#[test]
fn merge_left_compacts_across_gaps() {
    assert_eq!(compact_and_merge_left(&vec![0, 2, 0, 2]), vec![4, 0, 0, 0]);
    assert_eq!(compact_and_merge_left(&vec![0, 0, 0, 8]), vec![8, 0, 0, 0]);
    assert_eq!(compact_and_merge_left(&vec![2, 4, 2, 0]), vec![2, 4, 2, 0]);
    assert_eq!(compact_and_merge_left(&vec![0, 0, 0, 0]), vec![0, 0, 0, 0]);
}

#[test]
fn merge_left_leaves_settled_rows_alone() {
    // A row that is already compacted and merged comes back unchanged,
    // so a second pass returns the same row as the first.
    let settled = vec![4, 2, 0, 0];
    let once = compact_and_merge_left(&settled);
    assert_eq!(once, settled);
    let twice = compact_and_merge_left(&once);
    assert_eq!(twice, once);
}

#[test]
fn merge_right_is_the_mirror() {
    assert_eq!(compact_and_merge_right(&vec![0, 4, 2, 2]), vec![0, 0, 4, 4]);
    assert_eq!(compact_and_merge_right(&vec![2, 2, 2, 2]), vec![0, 0, 4, 4]);
    assert_eq!(compact_and_merge_right(&vec![2, 0, 0, 0]), vec![0, 0, 0, 2]);
}

#[test]
fn rotate_left_four_times_is_identity() {
    let b = board_of(vec![
        vec![2, 4, 8, 16],
        vec![0, 2, 0, 4],
        vec![32, 0, 0, 0],
        vec![0, 0, 64, 2],
    ]);
    let once = rotate_left(&b);
    assert!(!once.equals(&b));
    let four = rotate_left(&rotate_left(&rotate_left(&once)));
    assert!(four.equals(&b));
}

#[test]
fn rotate_right_four_times_is_identity() {
    let b = board_of(vec![
        vec![2, 4, 8, 16],
        vec![0, 2, 0, 4],
        vec![32, 0, 0, 0],
        vec![0, 0, 64, 2],
    ]);
    let four = rotate_right(&rotate_right(&rotate_right(&rotate_right(&b))));
    assert!(four.equals(&b));
}

#[test]
fn rotate_left_moves_rows_to_columns() {
    let b = board_of(vec![vec![1, 2], vec![3, 4]]);
    assert_eq!(rotate_left(&b).get_board(), vec![vec![2, 4], vec![1, 3]]);
    assert_eq!(rotate_right(&b).get_board(), vec![vec![3, 1], vec![4, 2]]);
}

#[test]
fn shifts_move_tiles_toward_each_side() {
    let b = board_of(vec![
        vec![2, 2, 0, 0],
        vec![0, 4, 0, 4],
        vec![0, 0, 0, 2],
        vec![0, 0, 0, 0],
    ]);
    assert_eq!(
        shift_left(&b).get_board(),
        vec![
            vec![4, 0, 0, 0],
            vec![8, 0, 0, 0],
            vec![2, 0, 0, 0],
            vec![0, 0, 0, 0],
        ]
    );
    assert_eq!(
        shift_right(&b).get_board(),
        vec![
            vec![0, 0, 0, 4],
            vec![0, 0, 0, 8],
            vec![0, 0, 0, 2],
            vec![0, 0, 0, 0],
        ]
    );
}

#[test]
fn vertical_shifts_merge_along_columns() {
    let b = board_of(vec![
        vec![2, 0, 0, 0],
        vec![2, 4, 0, 0],
        vec![0, 4, 2, 0],
        vec![0, 0, 2, 8],
    ]);
    assert_eq!(
        shift_up(&b).get_board(),
        vec![
            vec![4, 8, 4, 8],
            vec![0, 0, 0, 0],
            vec![0, 0, 0, 0],
            vec![0, 0, 0, 0],
        ]
    );
    assert_eq!(
        shift_down(&b).get_board(),
        vec![
            vec![0, 0, 0, 0],
            vec![0, 0, 0, 0],
            vec![0, 0, 0, 0],
            vec![4, 8, 4, 8],
        ]
    );
}

#[test]
fn impossible_move_reports_no_change() {
    let b = board_of(vec![
        vec![2, 0, 0, 0],
        vec![4, 0, 0, 0],
        vec![8, 0, 0, 0],
        vec![16, 0, 0, 0],
    ]);
    let (moved, changed) = apply_move(&b, Direction::Left);
    assert!(!changed);
    assert!(moved.equals(&b));
    assert_eq!(moved.count_occupied(), b.count_occupied());
}

#[test]
fn possible_move_reports_change() {
    let b = board_of(vec![
        vec![0, 2, 0, 0],
        vec![0, 0, 0, 0],
        vec![0, 0, 0, 0],
        vec![0, 0, 0, 0],
    ]);
    let (moved, changed) = apply_move(&b, Direction::Left);
    assert!(changed);
    assert_eq!(moved.get(0, 0), 2);
}
