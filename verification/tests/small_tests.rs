use uttt::woodleague::{eval, SmallBoard, SmallEngine, LARGE};

#[test]
fn small_board_moves_and_status() {
    let mut board = SmallBoard::default();
    assert_eq!(board.generate_legal_moves(), 0b111111111);
    board.make_move(4);
    assert_eq!(board.bbs, [0b000010000, 0]);
    assert!(board.turn);
    assert_eq!(board.generate_legal_moves(), 0b111101111);
    board.make_move(0);
    board.make_move(3);
    board.make_move(1);
    assert_eq!(board.status, 3);
    board.make_move(5);
    assert_eq!(board.status, 0);
    assert_eq!(board.generate_legal_moves(), 0);
    board.undo_move();
    assert_eq!(board.status, 3);
    assert_eq!(board.bbs, [0b000011000, 0b000000011]);
    assert!(!board.turn);
    assert_eq!(board.bkps.len(), 4);
    assert_eq!(SmallBoard::transform_move(1, 2), 5);
    assert_eq!(SmallBoard::transform_move(0, 0), 0);
    assert_eq!(SmallBoard::transform_move_back(5), (1, 2));
    assert_eq!(SmallBoard::transform_move_back(8), (2, 2));
    assert_eq!(board.text(), "o o . \nx x . \n. . . \n");
}

#[test]
fn small_board_draw() {
    let mut board = SmallBoard::default();
    for mov in [0u8, 1, 2, 4, 3, 5, 7, 6, 8] {
        assert_eq!(board.status, 3);
        board.make_move(mov);
    }
    assert_eq!(board.status, 2);
    assert_eq!(board.bbs[0] | board.bbs[1], 0b111111111);
    // O is to move: X holds 0, 2, 3, 7, 8 and O holds 1, 4, 5, 6
    assert_eq!(eval(&board), (0 + 2 + 0 + 3) - (5 + 3 + 0 + 0 + 5));
}

#[test]
fn small_search_knows_that_the_game_is_a_draw() {
    let mut board = SmallBoard::default();
    let mut engine = SmallEngine::default();
    let (score, mov) = engine.search(&mut board);
    assert!(mov < 9);
    assert!(-LARGE + 9 < score && score < LARGE - 9);
    assert_eq!(board.bbs, [0, 0]);
    assert!(board.bkps.is_empty());
    assert_eq!(board.status, 3);
}

#[test]
fn small_search_takes_the_win_and_stops_the_loss() {
    let mut engine = SmallEngine::default();
    let mut board = SmallBoard::default();
    for mov in [0u8, 3, 1, 4] {
        board.make_move(mov);
    }
    // X to move wins at once on cell 2
    let (score, mov) = engine.search(&mut board);
    assert_eq!(mov, 2);
    assert_eq!(score, LARGE - 1);
    // O to move must take cell 2 and then loses to nothing at once
    let mut board = SmallBoard::default();
    for mov in [0u8, 4, 1] {
        board.make_move(mov);
    }
    let (score, mov) = engine.search(&mut board);
    assert_eq!(mov, 2);
    assert!(score > -LARGE + 9);
    // a lost position: X threatens twice
    let mut board = SmallBoard::default();
    for mov in [0u8, 1, 4, 8, 6] {
        board.make_move(mov);
    }
    let (score, _) = engine.search(&mut board);
    assert_eq!(score, -LARGE + 2);
    assert_eq!(board.bkps.len(), 5);
    // a game that is over has its own value and no move
    board.make_move(2);
    board.make_move(3);
    assert_eq!(board.status, 0);
    assert_eq!(engine.search(&mut board), (-LARGE, 0));
}
