use uttt::bitboard::{DelBit, GetBit, PopBit, SetBit, SwapBits, LF};
use uttt::board::{Board, ERR_MOV};
use uttt::notation::{grb, transform_move, transform_move_back};

#[test]
fn primitives_utils() {
    // u16

    let mut val: u16 = 0;
    val.set_bit(0);
    val.set_bit(2);
    assert_eq!(val, 5);
    val.del_bit(1);
    val.del_bit(0);
    assert_eq!(val, 4);
    val.set_bit(3);
    assert_eq!(val.get_bit(0), 0);
    assert_eq!(val.get_bit(2), 4);
    assert_eq!(val.pop_bit(), 2);
    assert_eq!(val, 8);
    assert_eq!(val.pop_bit(), 3);
    assert_eq!(val, 0);

    let ins: [u16; 2] = [0b110001000, 0b111010100];
    let res: [u16; 2] = [0b011100000, 0b111010001];
    for (i, mut val) in ins.into_iter().enumerate() {
        val.swap_bits(0, 2);
        val.swap_bits(3, 5);
        val.swap_bits(6, 8);
        assert_eq!(val, res[i])
    }

    // u128

    let mut val: u128 = 0;
    val.set_bit(0);
    val.set_bit(2);
    assert_eq!(val, 5);
    val.del_bit(1);
    val.del_bit(0);
    assert_eq!(val, 4);
    val.set_bit(3);
    assert_eq!(val.get_bit(0), 0);
    assert_eq!(val.get_bit(2), 4);
    assert_eq!(val.pop_bit(), 2);
    assert_eq!(val, 8);
    assert_eq!(val.pop_bit(), 3);
    assert_eq!(val, 0);

    let ins: [u128; 2] = [0b110001000, 0b111010100];
    let res: [u128; 2] = [0b011100000, 0b111010001];
    for (i, mut val) in ins.into_iter().enumerate() {
        val.swap_bits(0, 2);
        val.swap_bits(3, 5);
        val.swap_bits(6, 8);
        assert_eq!(val, res[i])
    }
}

#[test]
fn board_make_move() {
    let mut board1 = Board::default();
    let board2 = Board::default();

    board1.make_move(0);
    board1.undo_move();
    board1.make_move(80);
    board1.undo_move();

    assert_eq!(board1.locals[0], board2.locals[0]);
    assert_eq!(board1.locals[1], board2.locals[1]);

    board1.make_move(0);
    board1.make_move(1);
    board1.undo_move();
    board1.undo_move();

    assert_eq!(board1.locals[0], board2.locals[0]);
    assert_eq!(board1.locals[1], board2.locals[1]);
}

#[test]
fn board_generate_moves() {
    let mut board = Board::default();

    board.make_move(0);
    assert_eq!(board.locals[0], 1);
    assert_eq!(board.locals[1], 0);
    assert_eq!(board.generate_legal_moves(), 0b111111110);

    board.make_move(1);
    assert_eq!(board.locals[0], 1);
    assert_eq!(board.locals[1], 0b10);
    assert_eq!(board.generate_legal_moves(), 0b111111111000000000);
    board.undo_move();
    board.undo_move();

    board.make_move(40);
    board.make_move(42);
    board.make_move(58);
    board.make_move(43);
    board.make_move(67);
    board.make_move(44);
    board.make_move(76);
    assert_eq!(board.generate_legal_moves(), 0b111101111111101111111101111111111111000000000111111111111111111111111111111111111);

    board.undo_move();
    board.undo_move();
    assert_eq!(board.generate_legal_moves(), 0b100101111000000000000000000000000000000000000);
}

#[test]
fn board_perft_pre_local_wins() {
    let mut board = Board::default();
    assert_eq!(board.perft(1), 81);
    assert_eq!(board.perft(2), 720);
    assert_eq!(board.perft(3), 6336);
    assert_eq!(board.perft(4), 55080);
    assert_eq!(board.perft(5), 473256);
}

// counts that no other program has confirmed
#[test]
fn board_perft_past_local_wins() {
    let mut board = Board::default();
    assert_eq!(board.perft(6), 4020960);
    assert_eq!(board.perft(7), 33782544);
}

#[test]
fn board_transform_move() {
    assert_eq!(transform_move("a1", !0), 0);
    assert_eq!(transform_move("b1", !0), 1);
    assert_eq!(transform_move("a2", !0), 3);
    assert_eq!(transform_move("g1", !0), 18);
    assert_eq!(transform_move("c6", !0), 35);
    assert_eq!(transform_move("i9", 1 << 80), 80);
    assert_eq!(transform_move("i9", 0), ERR_MOV);
    assert_eq!(transform_move_back(0), "a1");
    assert_eq!(transform_move_back(1), "b1");
    assert_eq!(transform_move_back(3), "a2");
    assert_eq!(transform_move_back(18), "g1");
    assert_eq!(transform_move_back(35), "c6");
    assert_eq!(transform_move_back(80), "i9");
}

#[test]
fn board_import_export() {
    let mut board1 = Board::default();
    board1.make_move(0);
    board1.make_move(1);
    let mut board2 = Board::default();
    board2.import_ken("xo7-9-9-9-9-9-9-9-9 b1");
    assert_eq!(board1.generate_legal_moves(), board2.generate_legal_moves());
    assert_eq!(board1.locals[0], board2.locals[0]);
    assert_eq!(board1.locals[1], board2.locals[1]);
    assert_eq!(board1.lwbits, board2.lwbits);

    board1.clear();
    board1.import_history("e5 d6 b8 e6 e8 f6 h8");
    assert_eq!(board1.generate_legal_moves(), 0b111101111111101111111101111111111111000000000111111111111111111111111111111111111);

    board1.import_history("1. e5 d6 2. b8 e6 3. e8 f6 4. h8 a9 5. a7 a1 6. a2 a6 7. b9 e7 8. e1 d3 9. c9");
    board2.import_ken("o2x5-1x4o2-9-6o2-4x1ooo-9-x3x1oxx-1o2x4-4x4 c9");
    assert_eq!(board1.generate_legal_moves(), board2.generate_legal_moves());
    assert_eq!(board1.locals[0], board2.locals[0]);
    assert_eq!(board1.locals[1], board2.locals[1]);
    assert_eq!(board1.global[0], board2.global[0]);
    assert_eq!(board1.global[1], board2.global[1]);
    assert_eq!(board1.global[2], board2.global[2]);

    board1.import_ken("9-9-9-9-4x3o-9-9-9-9");
    assert_eq!(board1.locals[0], 0b000000000000000000000000000000000000000010000000000000000000000000000000000000000);
    assert_eq!(board1.locals[1], 0b000000000000000000000000000000000000100000000000000000000000000000000000000000000);
    assert_eq!(board1.global, [0, 0, 0]);
    assert_eq!(board1.status, 3);
    assert_eq!(board1.turn, false);

    board1.import_ken("xoxxoooxx-9-9-9-3xo4-9-9-o3o3o-x2x2x2");
    assert_eq!(board1.locals[0], 0b001001001000000000000000000000000000000001000000000000000000000000000000110001101);
    assert_eq!(board1.locals[1], 0b000000000100010001000000000000000000000010000000000000000000000000000000001110010);
    assert_eq!(board1.global, [0b100000000, 0b010000000, 0b000000001]);
    assert_eq!(board1.status, 3);
    assert_eq!(board1.turn, true);

    board1.import_ken("oxxxooxox-2x2x2x-ooo6-6ooo-x3x3x-1x2x2x1-3ooo3-o3o3o-x2x2x2");
    assert_eq!(board1.global, [0b100110010, 0b011001100, 0b000000001]);
    assert_eq!(board1.status, 2);
    assert_eq!(board1.turn, true);

    board1.clear();
    for _ in 0..20 {
        let mut leg = board1.generate_legal_moves();
        board1.make_move(leg.pop_bit());
    }
    for i in 0..8 {
        let hist = board1.export_history(i);
        board2.import_history(&hist);
        assert_eq!(board1.generate_legal_moves(), board2.generate_legal_moves());
        assert_eq!(board1.locals[0], board2.locals[0]);
        assert_eq!(board1.locals[1], board2.locals[1]);
        assert_eq!(board1.global[0], board2.global[0]);
        assert_eq!(board1.global[1], board2.global[1]);
        assert_eq!(board1.global[2], board2.global[2]);
        for _ in 0..5 {
            let mut leg = board1.generate_legal_moves();
            let bit = leg.pop_bit();
            board1.make_move(bit);
            board2.make_move(bit);
            assert_eq!(board1.generate_legal_moves(), board2.generate_legal_moves());
            assert_eq!(board1.locals[0], board2.locals[0]);
            assert_eq!(board1.locals[1], board2.locals[1]);
            assert_eq!(board1.global[0], board2.global[0]);
            assert_eq!(board1.global[1], board2.global[1]);
            assert_eq!(board1.global[2], board2.global[2]);
        }
        for _ in 0..5 {
            board1.undo_move();
            board2.undo_move();
            assert_eq!(board1.generate_legal_moves(), board2.generate_legal_moves());
            assert_eq!(board1.locals[0], board2.locals[0]);
            assert_eq!(board1.locals[1], board2.locals[1]);
            assert_eq!(board1.global[0], board2.global[0]);
            assert_eq!(board1.global[1], board2.global[1]);
            assert_eq!(board1.global[2], board2.global[2]);
        }
        board2.clear();
    }
    board2.import_ken(&board1.export_ken());
    assert_eq!(board1.generate_legal_moves(), board2.generate_legal_moves());
    assert_eq!(board1.locals[0], board2.locals[0]);
    assert_eq!(board1.locals[1], board2.locals[1]);
    assert_eq!(board1.global[0], board2.global[0]);
    assert_eq!(board1.global[1], board2.global[1]);
    assert_eq!(board1.global[2], board2.global[2]);
}

/// Plays the lowest legal move `n` times.
fn play_lowest(board: &mut Board, n: usize) {
    for _ in 0..n {
        let mut leg = board.generate_legal_moves();
        if leg == 0 {
            break;
        }
        board.make_move(leg.pop_bit());
    }
}

#[test]
fn make_then_undo_restores_every_field() {
    let mut board = Board::default();
    play_lowest(&mut board, 30);
    let mut legals = board.generate_legal_moves();
    assert!(legals != 0);
    while legals != 0 {
        let cell = legals.pop_bit();
        let (global, locals, status, turn, lwbits) =
            (board.global, board.locals, board.status, board.turn, board.lwbits);
        let (history, moves) = (board.history.clone(), board.moves.clone());
        board.make_move(cell);
        assert_eq!(*board.moves.last().unwrap(), cell);
        board.undo_move();
        assert_eq!(board.global, global);
        assert_eq!(board.locals, locals);
        assert_eq!(board.status, status);
        assert_eq!(board.turn, turn);
        assert_eq!(board.lwbits, lwbits);
        assert_eq!(board.history, history);
        assert_eq!(board.moves, moves);
    }
}

#[test]
fn a_local_win_closes_the_small_board() {
    let mut board = Board::default();
    // O takes the row 6, 7, 8 of small board 4
    for mov in [40u8, 42, 58, 43, 67, 44, 76] {
        board.make_move(mov);
    }
    assert_eq!(board.global, [0, 0b000010000, 0]);
    assert_eq!(board.lwbits & LF, 0x1ffu128 << 36);
    assert_eq!(board.status, 3);
    // the last move sends O to small board 4, which is decided: O may play
    // any empty cell of any other small board
    let free = LF & !(board.locals[0] | board.locals[1] | (0x1ffu128 << 36));
    assert_eq!(board.generate_legal_moves(), free);
    assert!(free != 0);
}

#[test]
fn the_send_anywhere_rule_does_not_apply_to_an_open_board() {
    let mut board = Board::default();
    board.make_move(40);
    // cell 40 is the centre of small board 4 and sends O to small board 4
    assert_eq!(board.generate_legal_moves(), (0x1ffu128 << 36) & !(1u128 << 40));
}

#[test]
fn a_full_small_board_without_a_line_is_drawn_and_closed() {
    let mut board = Board::default();
    assert!(board.import_ken("xoxxoooxx-9-9-9-3xo4-9-9-o3o3o-x2x2x2"));
    assert_eq!(board.global[2], 1);
    assert_eq!(board.lwbits & 0x1ff, 0x1ff);
    // small boards 7 and 8 are won and closed as well
    assert_eq!(board.lwbits & LF, 0x1ff | (0x3ffffu128 << 63));
}

#[test]
fn a_global_line_of_o_ends_the_game() {
    let mut board = Board::default();
    assert!(board.import_ken("ooo6-ooo6-ooo6-9-9-9-9-9-9"));
    assert_eq!(board.global, [0, 0b111, 0]);
    assert_eq!(board.status, 1);
    assert_eq!(board.generate_legal_moves(), 0);
}

#[test]
fn the_move_that_wins_the_game_sets_the_status() {
    let mut board = Board::default();
    // X has won small boards 0 and 1 and holds two of a row in small board 2
    assert!(board.import_ken("xxx6-xxx6-xx7-oo7-oo7-oo7-oo7-9-9 -"));
    assert_eq!(board.turn, false);
    assert_eq!(board.status, 3);
    assert!(board.generate_legal_moves() & (1 << 20) != 0);
    board.make_move(20);
    assert_eq!(board.global[0], 0b111);
    assert_eq!(board.status, 0);
    assert_eq!(board.generate_legal_moves(), 0);
    board.undo_move();
    assert_eq!(board.status, 3);
    assert_eq!(board.global[0], 0b011);
}

#[test]
fn import_ken_rejects_what_is_no_layout() {
    let mut board = Board::default();
    board.make_move(0);
    assert!(!board.import_ken("9-9-9-9-9-9-9-9-9x"));
    assert_eq!(board.locals, [0, 0]);
    assert_eq!(board.status, 3);
    assert!(board.moves.is_empty());
    assert!(!board.import_ken("9-9-9-9-9-9-9-9-8y"));
    assert!(!board.import_ken("0-9"));
    assert!(!board.import_ken("9-9-9-9-9-9-9-9-9-1"));
    assert!(board.import_ken(""));
    assert_eq!(board.locals, [0, 0]);
    // what follows the layout and names no cell is no last move
    assert!(board.import_ken("x8-9-9-9-9-9-9-9-9 z1"));
    assert!(board.moves.is_empty());
    assert!(board.import_ken("x8-9-9-9-9-9-9-9-9 A1 and more"));
    assert_eq!(board.moves, vec![0]);
    assert_eq!(board.history, vec![0]);
}

#[test]
fn export_ken_writes_runs_and_the_last_move() {
    let mut board = Board::default();
    assert_eq!(board.export_ken(), "9-9-9-9-9-9-9-9-9 -");
    board.make_move(40);
    assert_eq!(board.export_ken(), "9-9-9-9-4x4-9-9-9-9 e5");
    board.make_move(36);
    assert_eq!(board.export_ken(), "9-9-9-9-o3x4-9-9-9-9 d4");
    board.make_move(8);
    assert_eq!(board.export_ken(), "8x-9-9-9-o3x4-9-9-9-9 c3");
}

#[test]
fn export_history_in_each_format() {
    let mut board = Board::default();
    assert_eq!(board.export_history(1), "");
    assert!(board.import_history("e5 d6 b8"));
    assert_eq!(board.export_history(0), "e5 d6 b8");
    assert_eq!(board.export_history(1), "1. e5 d6 2. b8");
    assert_eq!(board.export_history(2), "1. e5 d6\n2. b8");
    let mut after = Board::default();
    assert!(after.import_ken("9-9-9-9-4x4-9-9-9-9 e5"));
    assert_eq!(after.export_history(1), "1. e5");
    after.make_move(36);
    assert_eq!(after.export_history(2), "1. e5 d4");
    after.make_move(0);
    assert_eq!(after.export_history(2), "1. e5 d4\n2. a1");
    let mut odd = Board::default();
    assert!(odd.import_ken("x8-9-9-9-9-9-9-9-9 a1"));
    odd.make_move(1);
    assert_eq!(odd.export_history(0), "a1 b1");
    // a record that begins with a move of O
    let mut begun = Board::default();
    assert!(begun.import_ken("xo7-9-9-9-9-9-9-9-9 b1"));
    assert_eq!(begun.export_history(1), "1. ... b1");
    assert_eq!(begun.export_history(0), "b1");
}

#[test]
fn import_history_stops_at_the_first_illegal_move() {
    let mut board = Board::default();
    assert!(!board.import_history("e5 a1 d6"));
    assert_eq!(board.moves, vec![40]);
    assert_eq!(board.locals[1], 0);
    assert!(!board.import_history("e5 zz"));
    assert!(board.import_history("  1.   e5\t2. \n"));
    assert_eq!(board.moves, vec![40]);
}

#[test]
fn transform_move_takes_capitals_and_blanks_and_nothing_else() {
    assert_eq!(transform_move(" E5\n", !0), 40);
    assert_eq!(transform_move("e5 ", 0), ERR_MOV);
    assert_eq!(transform_move("j1", !0), ERR_MOV);
    assert_eq!(transform_move("a0", !0), ERR_MOV);
    assert_eq!(transform_move("a", !0), ERR_MOV);
    assert_eq!(transform_move("a11", !0), ERR_MOV);
    assert_eq!(transform_move("", !0), ERR_MOV);
    assert_eq!(transform_move_back(81), "??");
    assert_eq!(transform_move_back(ERR_MOV), "??");
    for mov in 0..81u8 {
        assert_eq!(transform_move(&transform_move_back(mov), !0), mov);
        assert_eq!(transform_move(&transform_move_back(mov), !(1u128 << mov)), ERR_MOV);
    }
    assert_eq!(grb(0, 0), 0);
    assert_eq!(grb(8, 8), 80);
    assert_eq!(grb(4, 4), 40);
    assert_eq!(grb(3, 0), 27);
    assert_eq!(grb(0, 3), 9);
}

#[test]
fn notation_round_trip_after_random_play() {
    let mut seed: u64 = 0x2545f4914f6cdd1d;
    for _ in 0..40 {
        let mut board = Board::default();
        loop {
            let legals = board.generate_legal_moves();
            if legals == 0 {
                break;
            }
            seed ^= seed << 13;
            seed ^= seed >> 7;
            seed ^= seed << 17;
            let mut pick = seed % (legals.count_ones() as u64);
            let mut left = legals;
            let mut cell = left.pop_bit();
            while pick > 0 {
                cell = left.pop_bit();
                pick -= 1;
            }
            board.make_move(cell);
            let mut copy = Board::default();
            assert!(copy.import_ken(&board.export_ken()));
            assert_eq!(copy.generate_legal_moves(), board.generate_legal_moves());
            assert_eq!(copy.locals, board.locals);
            assert_eq!(copy.global, board.global);
            assert_eq!(copy.status, board.status);
            assert_eq!(copy.turn, board.turn);
            assert_eq!(copy.lwbits, board.lwbits);
        }
        assert!(board.status < 3);
    }
}

#[test]
fn perft_leaves_the_board_as_it_was() {
    let mut board = Board::default();
    play_lowest(&mut board, 12);
    let ken = board.export_ken();
    let moves = board.moves.clone();
    let nodes = board.perft(3);
    assert!(nodes > 0);
    assert_eq!(board.export_ken(), ken);
    assert_eq!(board.moves, moves);
    let mut sum = 0;
    let mut legals = board.generate_legal_moves();
    while legals != 0 {
        board.make_move(legals.pop_bit());
        sum += board.perft(2);
        board.undo_move();
    }
    assert_eq!(sum, nodes);
}

#[test]
fn null_move_hands_the_move_over() {
    let mut board = Board::default();
    board.make_move(40);
    let before = (board.global, board.locals, board.status, board.lwbits);
    let legals = board.generate_legal_moves();
    board.null_move();
    assert!(!board.turn);
    assert_eq!((board.global, board.locals, board.status, board.lwbits), before);
    assert_eq!(board.generate_legal_moves(), legals);
    assert_eq!(board.moves, vec![40]);
    board.null_move();
    assert!(board.turn);
    board.undo_move();
    assert_eq!(board.locals, [0, 0]);
}

#[test]
fn undo_after_a_position_was_read() {
    let mut board = Board::default();
    assert!(board.import_ken("x8-9-9-9-9-9-9-9-9 a1"));
    assert_eq!(board.history, vec![0]);
    // the move that the text names was the move to the stone of X
    board.undo_move();
    assert_eq!(board.locals, [0, 0]);
    assert!(!board.turn);
    assert!(board.moves.is_empty());
    assert_eq!(board.generate_legal_moves(), LF);
}
