use uttt::frame::field::Field;

#[test]
fn field_make_move() {
    let mut field1 = Field::default();
    let field2 = Field::default();

    field1.make_move(0);
    field1.undo_move();
    field1.make_move(80);
    field1.undo_move();

    assert_eq!(field1.locals[0], field2.locals[0]);
    assert_eq!(field1.locals[1], field2.locals[1]);

    field1.make_move(0);
    field1.make_move(1);
    field1.undo_move();
    field1.undo_move();

    assert_eq!(field1.locals[0], field2.locals[0]);
    assert_eq!(field1.locals[1], field2.locals[1]);
}

#[test]
fn field_move_generation() {
    let mut fd = Field::default();

    fd.make_move(0);
    assert_eq!(fd.locals[0], 1);
    assert_eq!(fd.locals[1], 0);
    assert_eq!(fd.generate_legal_moves(), 0b111111110);

    fd.make_move(1);
    assert_eq!(fd.locals[0], 1);
    assert_eq!(fd.locals[1], 0b10);
    assert_eq!(fd.generate_legal_moves(), 0b111111111000000000);
    fd.undo_move();
    fd.undo_move();

    assert_eq!(fd.perft(1), 81);
    assert_eq!(fd.perft(2), 720);
    assert_eq!(fd.perft(3), 6336);
}

// counts that no other program has confirmed
#[test]
fn field_move_generation_perft6() {
    let mut fd = Field::default();

    assert_eq!(fd.perft(4), 55080);
    assert_eq!(fd.perft(5), 473256);
    assert_eq!(fd.perft(6), 4017888);
}

// counts that no other program has confirmed
#[test]
fn field_move_generation_perft7() {
    let mut fd = Field::default();

    assert_eq!(fd.perft(7), 33702480);
}

#[test]
fn field_import() {
    let mut fd1 = Field::default();
    fd1.make_move(0);
    fd1.make_move(1);
    let mut fd2 = Field::default();
    fd2.import("9-9-9-9-9-9-9-9-7ox");
    assert_eq!(fd1, fd2);

    let fd = Field::init("9-9-9-9-o3x4-9-9-9-9");
    assert_eq!(fd.locals[0], 0b000000000000000000000000000000000000000010000000000000000000000000000000000000000);
    assert_eq!(fd.locals[1], 0b000000000000000000000000000000000000100000000000000000000000000000000000000000000);
    assert_eq!(fd.global, [0, 0, 0]);
    assert_eq!(fd.status, 3);
    assert_eq!(fd.turn, false);

    let fd = Field::init("2x2x2x-o3o3o-9-9-4ox3-9-9-9-xxoooxxox");
    assert_eq!(fd.locals[0], 0b001001001000000000000000000000000000000001000000000000000000000000000000110001101);
    assert_eq!(fd.locals[1], 0b000000000100010001000000000000000000000010000000000000000000000000000000001110010);
    assert_eq!(fd.global, [0b100000000, 0b010000000, 0b000000001]);
    assert_eq!(fd.status, 3);
    assert_eq!(fd.turn, true);

    let fd = Field::init("2x2x2x-o3o3o-3ooo3-1x2x2x1-x3x3x-ooo6-6ooo-x2x2x2-xoxooxxxo");
    assert_eq!(fd.global, [0b100110010, 0b011001100, 0b000000001]);
    assert_eq!(fd.status, 2);
    assert_eq!(fd.turn, true);
}

#[test]
fn field_import_rejects_what_is_no_layout() {
    let mut fd = Field::default();
    fd.make_move(3);
    assert!(!fd.import("9-9-9-9-9-9-9-9-9x"));
    assert_eq!(fd.locals, [0, 0]);
    assert!(fd.history.is_empty());
    assert!(!fd.import("9 9"));
    assert!(!fd.import("9-9-9-9-9-9-9-9-9-1"));
    assert!(fd.import("x"));
    assert_eq!(fd.locals, [1u128 << 80, 0]);
    let empty = Field::init("?");
    assert_eq!(empty.locals, [0, 0]);
    assert_eq!(empty.status, 3);
}

#[test]
fn field_keeps_a_won_board_open_and_its_winner() {
    let mut fd = Field::default();
    for mov in [40u8, 42, 58, 43, 67, 44, 76] {
        fd.make_move(mov);
    }
    // O has the row 6, 7, 8 of small board 4, and is sent there again
    assert_eq!(fd.global, [0, 0b000010000, 0]);
    assert_eq!(fd.generate_legal_moves(), 0b000101111u128 << 36);
    let history = fd.history.clone();
    // O plays into the won board; that changes no outcome, and taking it
    // back leaves the win of O in place
    fd.make_move(36);
    assert_eq!(fd.global, [0, 0b000010000, 0]);
    fd.make_move(0);
    fd.undo_move();
    fd.undo_move();
    assert_eq!(fd.global, [0, 0b000010000, 0]);
    assert_eq!(fd.history, history);
    assert_eq!(fd.status, 3);
    // taking back the last move of X changes nothing either, taking back
    // the winning move of O opens the board again
    fd.undo_move();
    assert_eq!(fd.global, [0, 0b000010000, 0]);
    fd.undo_move();
    assert_eq!(fd.global, [0, 0, 0]);
}

#[test]
fn field_null_move_hands_the_move_over() {
    let mut fd = Field::default();
    fd.null_move();
    assert!(fd.turn);
    fd.make_move(5);
    assert_eq!(fd.locals, [0, 1 << 5]);
    assert_eq!(*fd.history.last().unwrap(), 5u128 << 96);
    fd.null_move();
    assert!(fd.turn);
}
