use uttt::board::Board;
use uttt::engine::{clamp_depth, out_of_time, Engine, INF, LARGM, PLY_LIMIT};
use uttt::eval::{eval, LocalScores, LARGE};
use uttt::interface::{board_text, format_eval, get_char, run_engine};
use uttt::notation::transform_move;

#[test]
fn search_finds_the_move_that_wins_the_game() {
    let mut board = Board::default();
    // X has won small boards 0 and 1 and lacks one stone in small board 2
    assert!(board.import_ken("xxx6-xxx6-xx7-oo7-oo7-oo7-oo7-9-9 -"));
    let ken = board.export_ken();
    let mut engine = Engine::default();
    let (mov, score) = engine.search(&mut board, None, Some(2));
    assert_eq!(mov, 20);
    assert!(score > LARGM);
    assert_eq!(score, LARGE - 1);
    assert_eq!(engine.reached, 2);
    assert_eq!(board.export_ken(), ken);
    assert!(board.moves.is_empty());
    let (mov, score) = engine.search(&mut board, None, Some(4));
    assert_eq!(mov, 20);
    assert_eq!(score, LARGE - 1);
    assert_eq!(run_engine(&mut engine, &mut board, Some(60_000), Some(2)), (20, LARGE - 1));
    // a second win in a row ends the search
    assert_eq!(engine.search(&mut board, None, Some(8)), (20, LARGE - 1));
    assert_eq!(engine.reached, 4);
    assert!(engine.mate);
}

#[test]
fn search_reports_the_score_from_the_side_of_x() {
    let mut board = Board::default();
    // the same with the colours exchanged and O to move
    assert!(board.import_ken("ooo6-ooo6-oo7-xx7-xx7-xx7-xx7-x8-9 -"));
    assert!(board.turn);
    let mut engine = Engine::default();
    let (mov, score) = engine.search(&mut board, None, Some(2));
    assert_eq!(mov, 20);
    assert_eq!(score, -(LARGE - 1));
}

#[test]
fn search_gives_a_legal_move_and_leaves_the_board() {
    let mut engine = Engine::default();
    let mut board = Board::default();
    assert!(board.import_history("e5 d6 b8 e6 e8 f6 h8"));
    let before = (board.global, board.locals, board.status, board.turn, board.lwbits);
    let (history, moves) = (board.history.clone(), board.moves.clone());
    let legals = board.generate_legal_moves();
    let (mov, score) = engine.search(&mut board, None, Some(4));
    assert!(mov < 81);
    assert!(legals & (1u128 << mov) != 0);
    assert!(-LARGE <= score && score <= LARGE);
    assert_eq!(engine.reached, 4);
    assert_eq!((board.global, board.locals, board.status, board.turn, board.lwbits), before);
    assert_eq!(board.history, history);
    assert_eq!(board.moves, moves);
}

#[test]
fn search_stopped_by_the_clock_leaves_the_board() {
    let mut engine = Engine::default();
    let mut board = Board::default();
    assert!(board.import_history("e5 d6 b8 e6 e8 f6 h8"));
    let before = (board.global, board.locals, board.status, board.turn, board.lwbits);
    let (history, moves) = (board.history.clone(), board.moves.clone());
    let legals = board.generate_legal_moves();
    let (mov, score) = engine.search(&mut board, Some(0), None);
    assert_eq!((board.global, board.locals, board.status, board.turn, board.lwbits), before);
    assert_eq!(board.history, history);
    assert_eq!(board.moves, moves);
    if engine.reached == 0 {
        assert_eq!((mov, score), (0, 0));
    } else {
        assert!(legals & (1u128 << mov) != 0);
    }
    assert!(engine.reached % 2 == 0);
}

#[test]
fn search_on_a_decided_game() {
    let mut engine = Engine::default();
    let mut board = Board::default();
    assert!(board.import_ken("ooo6-ooo6-ooo6-9-9-9-9-9-9"));
    assert_eq!(board.status, 1);
    // three stones each side would make it X to move; here O has nine
    assert_eq!(board.turn, true);
    assert_eq!(engine.search(&mut board, None, Some(2)), (0, LARGE));
    assert!(board.import_ken("oxxxooxox-2x2x2x-ooo6-6ooo-x3x3x-1x2x2x1-3ooo3-o3o3o-x2x2x2"));
    assert_eq!(board.status, 2);
    assert_eq!(engine.search(&mut board, None, Some(2)), (0, 0));
}

#[test]
fn negamax_at_the_leaves() {
    let scores = LocalScores::new();
    let mut engine = Engine::default();
    engine.start(None, None);
    let mut board = Board::default();
    assert!(board.import_ken("9-9-9-9-4x4-9-9-9-9 e5"));
    let ev = eval(&board, &scores);
    assert!(ev > 0);
    // O is to move: the score is that of the evaluation, seen from O
    assert_eq!(engine.negamax(&mut board, -INF, INF, 0), -ev);
    assert!(board.import_ken("ooo6-ooo6-ooo6-9-9-9-9-9-9"));
    assert_eq!(engine.negamax(&mut board, -INF, INF, 3), -LARGE);
    // one ply: the best of the evaluations after each move
    assert!(board.import_ken("9-9-9-9-9-9-9-9-9"));
    let mut best = -INF;
    let mut legals = board.generate_legal_moves();
    while legals != 0 {
        let cell = legals.trailing_zeros() as u8;
        legals &= legals - 1;
        board.make_move(cell);
        best = best.max(eval(&board, &scores));
        board.undo_move();
    }
    assert_eq!(engine.negamax(&mut board, -INF, INF, 1), best);
    assert_eq!(engine.negamax(&mut board, -INF, best - 5, 1), best - 5);
}

#[test]
fn the_depth_limit_is_made_even_and_held_in_bounds() {
    assert_eq!(clamp_depth(None), 80);
    assert_eq!(clamp_depth(Some(0)), 1);
    assert_eq!(clamp_depth(Some(1)), 1);
    assert_eq!(clamp_depth(Some(2)), 2);
    assert_eq!(clamp_depth(Some(7)), 6);
    assert_eq!(clamp_depth(Some(81)), 80);
    assert_eq!(clamp_depth(Some(82)), PLY_LIMIT as i8);
    assert_eq!(clamp_depth(Some(usize::MAX)), PLY_LIMIT as i8);
    assert!(out_of_time(5, 4));
    assert!(!out_of_time(4, 4));
}

#[test]
fn search_step_by_step() {
    let mut engine = Engine::default();
    let mut board = Board::default();
    engine.start(Some(1_000_000), Some(4));
    assert_eq!((engine.td, engine.dl, engine.reached), (2, 4, 0));
    assert!(engine.iterate(&mut board));
    assert_eq!((engine.td, engine.reached), (4, 2));
    let first = engine.best;
    assert!(first < 81);
    assert!(!engine.iterate(&mut board));
    assert_eq!(engine.reached, 4);
    assert!(engine.nodes > 81);
    let line = engine.post_line(engine.score, 12);
    assert!(line.starts_with("depth 4 / "));
    assert!(line.contains(" / ms 12 / nodes "));
    assert!(line.contains(" / pv: "));
    assert!(engine.post(0).is_some());
    engine.post = false;
    assert!(engine.post(0).is_none());
    engine.evm = true;
    assert!(engine.post_line(-37, 0).starts_with("depth 4 / -37 / ms 0 / nodes "));
}

#[test]
fn format_eval_shows_a_sixth_in_hundredths() {
    assert_eq!(format_eval(0), "0.00");
    assert_eq!(format_eval(5), "+0.00");
    assert_eq!(format_eval(6), "+0.01");
    assert_eq!(format_eval(-6), "-0.01");
    assert_eq!(format_eval(600), "+1.00");
    assert_eq!(format_eval(-1234), "-2.05");
    assert_eq!(format_eval(16383), "+27.30");
    assert_eq!(format_eval(i16::MIN), "-54.61");
    assert_eq!(format_eval(i16::MAX), "+54.61");
}

#[test]
fn the_picture_of_the_board() {
    let mut board = Board::default();
    for mov in [40u8, 42, 58, 43, 67, 44, 76] {
        board.make_move(mov);
    }
    let legals = board.generate_legal_moves();
    assert_eq!(get_char(&board, legals, 36), 'O');
    assert_eq!(get_char(&board, legals, 58), 'x');
    assert_eq!(get_char(&board, legals, 76), 'x');
    assert_eq!(get_char(&board, legals, 0), '.');
    assert_eq!(get_char(&board, 0, 0), ' ');
    assert!(board.import_ken("xoxxoooxx-9-9-9-3xo4-9-9-o3o3o-x2x2x2"));
    assert_eq!(get_char(&board, 0, 3), '/');
    assert_eq!(get_char(&board, 0, 80), 'X');
    assert_eq!(get_char(&board, 0, 63), 'O');
    let empty = Board::default();
    let text = board_text(&empty);
    let lines: Vec<&str> = text.lines().collect();
    assert_eq!(lines.len(), 14);
    assert_eq!(lines[0], "  +-------+-------+-------+");
    assert_eq!(lines[1], "9 | . . . | . . . | . . . |");
    assert_eq!(lines[4], "  +-------+-------+-------+");
    assert_eq!(lines[11], "1 | . . . | . . . | . . . |");
    assert_eq!(lines[12], "  +-------+-------+-------+");
    assert_eq!(lines[13], "    a b c   d e f   g h i");
    let mut one = Board::default();
    one.make_move(transform_move("b1", !0));
    let text = board_text(&one);
    let lines: Vec<&str> = text.lines().collect();
    // the move sends O to the small board of the files d to f
    assert_eq!(lines[11], "1 |   x   | . . . |       |");
    assert_eq!(lines[9], "3 |       | . . . |       |");
    assert_eq!(lines[7], "4 |       |       |       |");
}

#[test]
fn the_order_of_the_search() {
    let scores = LocalScores::new();
    let mut engine = Engine::default();
    engine.start(None, None);
    let mut board = Board::default();
    let legals = board.generate_legal_moves();
    let (moves, deep) = engine.order_moves(&mut board, legals);
    assert_eq!(moves.len(), 81);
    // the move of the principal variation, which is cell 0 before any
    // search, and the eight other cells that have the number of their
    // small board
    assert_eq!(deep, 2 + 9);
    assert_eq!(moves[0].0, 0);
    let mut next: Vec<u8> = moves[1..9].iter().map(|m| m.0).collect();
    next.sort();
    assert_eq!(next, vec![10, 20, 30, 40, 50, 60, 70, 80]);
    // the centre of the board comes before its corners
    assert_eq!(moves[1].0, 40);
    for pair in moves.windows(2) {
        assert!(pair[0].1 > pair[1].1 || (pair[0].1 == pair[1].1 && pair[0].0 < pair[1].0));
    }
    for &(cell, score) in moves.iter() {
        board.make_move(cell);
        let added = if cell == 0 {
            LARGE
        } else if cell / 9 == cell % 9 {
            LARGE / 4
        } else {
            0
        };
        assert_eq!(score, eval(&board, &scores) + added);
        board.undo_move();
    }
    // behind a first move, the moves that send back to its small board
    board.make_move(40);
    let legals = board.generate_legal_moves();
    let (moves, deep) = engine.order_moves(&mut board, legals);
    assert_eq!(moves.len(), 8);
    // cell 36 sends to small board 0, the cell 0 of the principal
    // variation is not legal, and no cell of small board 4 sends to it but
    // its centre, which is taken
    assert_eq!(deep, 2);
    assert!(moves.iter().all(|m| 36 <= m.0 && m.0 < 45 && m.0 != 40));
    board.make_move(36);
    // O played in small board 4, and X is sent to small board 0: cell 4
    // sends O back to small board 4
    let legals = board.generate_legal_moves();
    let (moves, deep) = engine.order_moves(&mut board, legals);
    assert_eq!(moves.len(), 9);
    assert_eq!(deep, 2 + 2);
    assert_eq!(moves[0].0, 0);
    assert_eq!(moves[1].0, 4);
}

#[test]
fn the_time_limit_tells_the_search_to_stop() {
    let mut engine = Engine::default();
    engine.start(Some(5), Some(2));
    engine.heed_time(5);
    assert!(!engine.abort);
    engine.heed_time(6);
    assert!(engine.abort);
    engine.heed_time(0);
    assert!(engine.abort);
    // no time passes the longest limit
    engine.start(Some(u128::MAX), Some(2));
    engine.heed_time(u128::MAX);
    assert!(!engine.abort);
    engine.update();
    assert!(!engine.abort);
    // the time limit 0 is passed after a millisecond
    engine.start(Some(0), Some(2));
    engine.heed_time(1);
    assert!(engine.abort);
    engine.update();
    assert!(engine.abort);
}

#[test]
fn an_iteration_is_completed_or_dropped() {
    let mut engine = Engine::default();
    let mut board = Board::default();
    assert!(board.import_history("e5 d6 b8"));
    engine.start(Some(u128::MAX), Some(4));
    let nodes = engine.nodes;
    assert!(engine.iterate(&mut board));
    assert_eq!((engine.reached, engine.td, engine.abort), (2, 4, false));
    assert!(engine.nodes > nodes);
    assert_eq!(engine.best, engine.tpv[0][0]);
    let legals = board.generate_legal_moves();
    assert!(legals & (1u128 << engine.best) != 0);
    // the next depth would pass the depth limit
    assert!(!engine.iterate(&mut board));
    assert_eq!((engine.reached, engine.td, engine.abort), (4, 6, false));
    // a search that was told to stop drops the iteration
    engine.start(Some(u128::MAX), Some(4));
    assert!(engine.iterate(&mut board));
    let (best, score) = (engine.best, engine.score);
    engine.abort = true;
    assert!(!engine.iterate(&mut board));
    assert_eq!((engine.reached, engine.td, engine.abort), (2, 4, true));
    assert_eq!((engine.best, engine.score), (best, score));
    assert_eq!(board.moves, vec![40, 42, 58]);
}

#[test]
fn negamax_under_any_window_and_at_the_last_ply() {
    let scores = LocalScores::new();
    let mut engine = Engine::default();
    engine.start(None, None);
    let mut board = Board::default();
    assert!(board.import_history("e5 d6 b8"));
    let ev = eval(&board, &scores);
    let mut best = i16::MIN;
    let mut legals = board.generate_legal_moves();
    while legals != 0 {
        let cell = legals.trailing_zeros() as u8;
        legals &= legals - 1;
        board.make_move(cell);
        best = best.max(-eval(&board, &scores));
        board.undo_move();
    }
    // the widest window there is
    assert_eq!(engine.negamax(&mut board, -i16::MAX, i16::MAX, 1), best);
    assert_eq!(engine.negamax(&mut board, 30000, 30001, 1), 30000);
    assert_eq!(engine.negamax(&mut board, -30001, -30000, 1), -30000);
    // at the last ply that the table has room for, the position is
    // evaluated whatever depth is asked for
    engine.ply = 80;
    assert_eq!(engine.negamax(&mut board, -INF, INF, 100), -ev);
    assert_eq!(engine.ply, 80);
    engine.ply = 79;
    assert_eq!(engine.negamax(&mut board, -INF, INF, 100), best);
    assert_eq!(engine.ply, 79);
    assert_eq!(board.moves, vec![40, 42, 58]);
}

#[test]
fn search_without_a_time_limit_ends_of_itself() {
    let mut engine = Engine::default();
    let mut board = Board::default();
    assert!(board.import_history("e5 d6 b8"));
    let legals = board.generate_legal_moves();
    let (mov, _) = engine.search(&mut board, None, Some(2));
    assert_eq!(engine.tl, u128::MAX);
    assert_eq!(engine.reached, 2);
    assert!(legals & (1u128 << mov) != 0);
    let (mov, _) = engine.search(&mut board, Some(u128::MAX), Some(5));
    assert_eq!(engine.reached, 4);
    assert!(legals & (1u128 << mov) != 0);
    let (mov, _) = run_engine(&mut engine, &mut board, None, Some(1));
    assert_eq!((engine.reached, engine.dl), (2, 1));
    assert!(legals & (1u128 << mov) != 0);
}
