use puzzle2048::board::Board;
use puzzle2048::engine::Direction;
use puzzle2048::game::GameState;
use puzzle2048::game::NewGameError;
use puzzle2048::game::Outcome;
use puzzle2048::game::evaluate;

fn board_of(rows: Vec<Vec<u32>>) -> Board {
    Board::from_rows(rows).expect("square table")
}

fn game_of(rows: Vec<Vec<u32>>, target: u32) -> GameState {
    GameState::from_board(board_of(rows), target).expect("positive target")
}

fn tile_counts(b: &Board) -> (usize, usize) {
    let mut twos = 0;
    let mut others = 0;
    for row in b.get_board() {
        for v in row {
            if v == 2 {
                twos += 1;
            } else if v != 0 {
                others += 1;
            }
        }
    }
    (twos, others)
}

#[test]
fn construction_rejects_small_sizes_and_zero_targets() {
    assert_eq!(GameState::new(0, 2048).err(), Some(NewGameError::SizeTooSmall));
    assert_eq!(GameState::new(1, 2048).err(), Some(NewGameError::SizeTooSmall));
    assert_eq!(GameState::new(4, 0).err(), Some(NewGameError::TargetZero));
    assert!(GameState::new(2, 2048).is_ok());
    assert!(GameState::from_board(board_of(vec![vec![0, 0], vec![0, 0]]), 0).is_none());
}

#[test]
fn new_game_has_two_seed_tiles() {
    let gs = GameState::new(4, 2048).unwrap();
    let (b, outcome) = gs.current();
    assert_eq!(outcome, Outcome::InProgress);
    assert_eq!(b.count_occupied(), 2);
    let (twos, others) = tile_counts(&b);
    assert_eq!(twos, 2);
    assert_eq!(others, 0);
}

#[test]
fn reset_reseeds_with_two_tiles() {
    let mut gs = game_of(
        vec![
            vec![2, 4, 2, 4],
            vec![4, 2, 4, 2],
            vec![2, 4, 2, 4],
            vec![4, 2, 4, 2],
        ],
        2048,
    );
    assert_eq!(gs.current().1, Outcome::Lose);
    let (b, outcome) = gs.reset();
    assert_eq!(outcome, Outcome::InProgress);
    assert_eq!(b.size(), 4);
    assert_eq!(b.count_occupied(), 2);
    let (twos, others) = tile_counts(&b);
    assert_eq!(twos, 2);
    assert_eq!(others, 0);
}

#[test]
fn seed_tiles_sit_at_distinct_cells() {
    // Two occupied cells can only be two distinct coordinates; check it
    // plainly on the listed positions, over a handful of fresh games.
    for _ in 0..20 {
        let gs = GameState::new(4, 2048).unwrap();
        let (b, _) = gs.current();
        let mut seen: Vec<(usize, usize)> = Vec::new();
        let rows = b.get_board();
        for (i, row) in rows.iter().enumerate() {
            for (j, v) in row.iter().enumerate() {
                if *v != 0 {
                    assert_eq!(*v, 2);
                    seen.push((i, j));
                }
            }
        }
        assert_eq!(seen.len(), 2);
        assert_ne!(seen[0], seen[1]);
    }
}

#[test]
fn changed_move_spawns_exactly_one_tile() {
    let mut gs = game_of(
        vec![
            vec![2, 2, 0, 0],
            vec![0, 0, 0, 0],
            vec![0, 0, 0, 0],
            vec![0, 0, 0, 0],
        ],
        2048,
    );
    let (b, outcome) = gs.apply(Direction::Left);
    assert_eq!(outcome, Outcome::InProgress);
    // The merge leaves one 4; the spawn adds exactly one 2.
    assert_eq!(b.get(0, 0), 4);
    assert_eq!(b.count_occupied(), 2);
    let (twos, others) = tile_counts(&b);
    assert_eq!(twos, 1);
    assert_eq!(others, 1);
}

#[test]
fn unchanged_move_spawns_nothing() {
    let mut gs = game_of(
        vec![
            vec![2, 0, 0, 0],
            vec![4, 0, 0, 0],
            vec![8, 0, 0, 0],
            vec![16, 0, 0, 0],
        ],
        2048,
    );
    let before = gs.current().0.get_board();
    let (b, outcome) = gs.apply(Direction::Left);
    assert_eq!(outcome, Outcome::InProgress);
    assert_eq!(b.get_board(), before);
    assert_eq!(b.count_occupied(), 4);
}

#[test]
fn winning_move_sets_win_and_freezes_the_grid() {
    let mut gs = game_of(
        vec![
            vec![1024, 1024, 0, 0],
            vec![0, 0, 0, 0],
            vec![0, 0, 0, 0],
            vec![2, 0, 0, 0],
        ],
        2048,
    );
    let (b, outcome) = gs.apply(Direction::Left);
    assert_eq!(outcome, Outcome::Win);
    assert_eq!(b.get(0, 0), 2048);
    // A winning move spawns nothing.
    assert_eq!(b.count_occupied(), 2);
    let frozen = b.get_board();
    for d in [Direction::Up, Direction::Down, Direction::Left, Direction::Right] {
        let (after, outcome) = gs.apply(d);
        assert_eq!(outcome, Outcome::Win);
        assert_eq!(after.get_board(), frozen);
    }
}

#[test]
fn win_is_immediate_when_a_tile_already_reached_the_target() {
    let gs = game_of(vec![vec![2048, 0], vec![0, 2]], 2048);
    assert_eq!(gs.current().1, Outcome::Win);
}

#[test]
fn lose_needs_a_full_grid_with_no_move_left() {
    // Full and stuck: no empty cell, no equal neighbours anywhere.
    let stuck = vec![
        vec![2, 4, 2, 4],
        vec![4, 2, 4, 2],
        vec![2, 4, 2, 4],
        vec![4, 2, 4, 2],
    ];
    assert_eq!(evaluate(&board_of(stuck.clone()), 2048), Outcome::Lose);

    // Full but with an adjacent equal pair: still in progress.
    let with_pair = vec![
        vec![2, 2, 4, 8],
        vec![16, 32, 64, 128],
        vec![256, 512, 2, 4],
        vec![8, 16, 32, 64],
    ];
    assert_eq!(evaluate(&board_of(with_pair), 2048), Outcome::InProgress);

    // Not full: still in progress even if nothing can merge.
    let sparse = vec![
        vec![2, 4, 2, 4],
        vec![4, 2, 4, 2],
        vec![2, 4, 2, 4],
        vec![4, 2, 4, 0],
    ];
    assert_eq!(evaluate(&board_of(sparse), 2048), Outcome::InProgress);
}

#[test]
fn lost_game_ignores_further_moves() {
    let mut gs = game_of(
        vec![
            vec![2, 4, 2, 4],
            vec![4, 2, 4, 2],
            vec![2, 4, 2, 4],
            vec![4, 2, 4, 2],
        ],
        2048,
    );
    assert_eq!(gs.current().1, Outcome::Lose);
    let frozen = gs.current().0.get_board();
    let (after, outcome) = gs.apply(Direction::Up);
    assert_eq!(outcome, Outcome::Lose);
    assert_eq!(after.get_board(), frozen);
}

#[test]
fn a_move_that_fills_the_last_cell_can_lose_the_game() {
    // Down merges the left column to a 4 and leaves a single hole at the
    // top left; the spawned 2 must land there, and the resulting full
    // board has no equal neighbours: the game is lost.
    let mut gs = game_of(vec![vec![2, 4], vec![2, 2]], 2048);
    let (b, outcome) = gs.apply(Direction::Down);
    assert_eq!(b.get_board(), vec![vec![2, 4], vec![4, 2]]);
    assert_eq!(outcome, Outcome::Lose);
}

#[test]
fn smallest_board_plays() {
    let mut gs = GameState::new(2, 4).unwrap();
    // Keep applying moves; on a 2x2 with target 4 the game must end, and
    // every intermediate state stays consistent.
    let mut steps = 0;
    loop {
        let (b, outcome) = gs.apply(Direction::Left);
        assert!(b.count_occupied() <= 4);
        match outcome {
            Outcome::InProgress => {}
            _ => break,
        }
        let (b, outcome) = gs.apply(Direction::Up);
        assert!(b.count_occupied() <= 4);
        match outcome {
            Outcome::InProgress => {}
            _ => break,
        }
        let (_, outcome) = gs.apply(Direction::Right);
        match outcome {
            Outcome::InProgress => {}
            _ => break,
        }
        let (_, outcome) = gs.apply(Direction::Down);
        match outcome {
            Outcome::InProgress => {}
            _ => break,
        }
        steps += 1;
        assert!(steps < 10000, "game on a 2x2 board with target 4 must end");
    }
}

#[test]
fn target_transition_happens_on_reaching_not_passing() {
    // Reaching the target by a merge wins even when other merges remain.
    let mut gs = game_of(vec![vec![2, 2], vec![2, 2]], 4);
    let (b, outcome) = gs.apply(Direction::Left);
    assert_eq!(outcome, Outcome::Win);
    assert_eq!(b.get(0, 0), 4);
    assert_eq!(b.get(1, 0), 4);
}
