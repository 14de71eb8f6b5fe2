use uttt::board::Board;
use uttt::eval::{eval, LocalScores, EVAL_LIMIT, LARGE};
use uttt::notation::transform_move;

#[test]
fn eval_common_sense() {
    // don't change this test unless you're absolutely sure you know what you're doing
    let scores = LocalScores::new();
    let mut board = Board::default();

    board.import_ken("xx1xox1xx-o8-9-o8-9-o8-9-o8-o8 b2");
    assert!(eval(&board, &scores) < 0);
    board.import_ken("xx1x1xoxx-o8-9-o8-9-o8-9-o8-o8 a3");
    assert!(eval(&board, &scores) < 0);
    board.import_ken("xxox1x1xx-o8-9-o8-9-o8-9-o8-o8 c1");
    assert!(eval(&board, &scores) < 0);
    board.import_ken("9-9-9-9-4x4-9-9-9-9 e5");
    assert!(eval(&board, &scores) > 0);

    board.import_history("1. e5 d6 2. a9 c7 3. i1 g3 4. a8 a5 5. c5 i5 6. g5 a6 7. a7 a1 8. b1 e1 9. e3 e9 10. d7 b2 11. d4 c3 12. i9 g8 13. c6 i8 14. g4 f6 15. g7 h8 16. e4 f1 17. h1 d1 18. e6");
    let legals = board.generate_legal_moves();
    let eval0 = eval(&board, &scores);
    assert!(eval0 > 0);

    board.make_move(transform_move("d9", legals));
    let eval1 = eval(&board, &scores);
    assert!(eval0 <= eval1);
    board.undo_move();

    board.make_move(transform_move("f9", legals));
    let eval2 = eval(&board, &scores);
    assert!(eval0 <= eval2);
    board.undo_move();

    board.make_move(transform_move("e8", legals));
    let eval3 = eval(&board, &scores);
    assert!(eval0 <= eval3);
    board.undo_move();

    board.make_move(transform_move("e7", legals));
    let eval4 = eval(&board, &scores);
    assert!(eval0 <= eval4);
    board.undo_move();

    board.make_move(transform_move("d8", legals));
    let eval5 = eval(&board, &scores);
    assert!(eval5 <= eval1 && eval5 <= eval2 && eval5 <= eval3 && eval5 <= eval4);
}

#[test]
fn eval_basic() {
    // may depend on how you implement weights
    let scores = LocalScores::new();
    let mut board = Board::default();

    board.import_ken("x8-9-9-9-9-9-9-9-9 a1");
    let eval10 = eval(&board, &scores);
    board.import_ken("xx7-o8-9-9-9-9-9-9-9 a1");
    assert!(eval(&board, &scores) > eval10);

    board.import_ken("o8-9-9-9-9-9-9-9-9 a1");
    let eval11 = eval(&board, &scores);
    board.import_ken("oo7-x8-9-9-9-9-9-9-9 a1");
    let eval12 = eval(&board, &scores);
    assert!(eval12 < eval11);

    board.import_ken("oo1oo4-9-9-9-9-9-9-9-9");
    let eval13 = eval(&board, &scores);
    assert!(eval13 > eval12);  // not a mistake
    board.import_ken("oo7-9-9-9-9-9-9-9-9");
    let eval14 = eval(&board, &scores);
    assert!(eval13 > eval14);  // not a mistake
}

#[test]
fn eval_limits() {
    // if this test fails, it's bad for the search function
    let scores = LocalScores::new();
    let mut board = Board::default();

    board.import_ken("xx1xxx1xx-1xxx1xxx1-xx1x1x1xx-1xxx1xxx1-xx1x1x1xx-1xxx1xxx1-xx1x1x1xx-1xxx1xxx1-xx1xxx1xx -");
    let ev1 = eval(&board, &scores);
    assert!(ev1 > 0);
    assert!(ev1 < LARGE);

    board.import_ken("xx1xxx1xx-1xxxxxxx1-xx1x1x1xx-1xxxxxxx1-xx1x1x1xx-1xxxxxxx1-xx1x1x1xx-1xxxxxxx1-xx1xxx1xx -");
    assert!(eval(&board, &scores) > 0);
    assert!(eval(&board, &scores) < LARGE);
    assert!(eval(&board, &scores) > ev1);

    board.import_ken("xxx-xxx-9-xxx-9-xxx-9-xxx-xxx -");
    let ev1 = eval(&board, &scores);
    assert!(ev1 > 0);
    assert!(ev1 < LARGE);

    let mut board = Board::default();
    board.import_ken("oo1o1o1oo-1ooo1ooo1-oo1o1o1oo-1ooo1ooo1-oo1ooo1oo-1ooo1ooo1-oo1o1o1oo-1ooo1ooo1-oo1o1o1oo -");
    assert!(eval(&board, &scores) < 0);
    assert!(eval(&board, &scores) > -LARGE);
}

#[test]
fn eval_of_given_positions() {
    let scores = LocalScores::new();
    let mut board = Board::default();
    // each small board scores 4 for both sides, each line 64, and both
    // sides come to 64 + 32 + 16 + 8 + 4
    assert_eq!(eval(&board, &scores), 0);
    // X alone in the centre of small board 4: 4 lines of one stone and 4
    // open lines score 5 + 3, held to 5; O has 4 open lines left there: 3
    assert!(board.import_ken("9-9-9-9-4x4-9-9-9-9 e5"));
    let x_side = 80 + 80 / 2 + 80 / 4 + 80 / 8 + 64 / 16;
    let o_side = 64 + 64 / 2 + 64 / 4 + 64 / 8 + 48 / 16;
    assert_eq!(eval(&board, &scores), x_side - o_side);
    // six small boards won by X and three with nothing left but one open
    // line: seven lines of 20 * 20 * 1 for X, one line of 1 for O
    assert!(board.import_ken("xx1xxx1xx-1xxxxxxx1-xx1x1x1xx-1xxxxxxx1-xx1x1x1xx-1xxxxxxx1-xx1x1x1xx-1xxxxxxx1-xx1xxx1xx -"));
    assert_eq!(eval(&board, &scores), 400 + 200 + 100 + 50 + 25 - 1);
}

#[test]
fn eval_stays_below_the_scores_of_the_search() {
    let scores = LocalScores::new();
    assert!(EVAL_LIMIT < LARGE);
    let mut seed: u64 = 88172645463325252;
    let mut highest = 0;
    for _ in 0..30 {
        let mut board = Board::default();
        loop {
            let legals = board.generate_legal_moves();
            if legals == 0 {
                break;
            }
            let ev = eval(&board, &scores);
            assert!(-EVAL_LIMIT <= ev && ev <= EVAL_LIMIT);
            highest = highest.max(ev.abs());
            seed ^= seed << 13;
            seed ^= seed >> 7;
            seed ^= seed << 17;
            let mut pick = seed % (legals.count_ones() as u64);
            let mut left = legals;
            let mut cell = left.trailing_zeros() as u8;
            while pick > 0 {
                left &= left - 1;
                cell = left.trailing_zeros() as u8;
                pick -= 1;
            }
            board.make_move(cell);
        }
    }
    assert!(highest > 0);
}
