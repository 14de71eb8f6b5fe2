use uttt::bitboard::GetBit;
use uttt::engine::gen::{gen_maps, MASK_CNT, SHIFT_POS, SHIFT_THR, SHIFT_UPO};
use uttt::engine::weights::Weights;
use uttt::frame::lookups::GenLookups;
use uttt::lookups::{gen_local_map, gen_local_maps, POS_CNT, WIN_LOOKUP, WIN_LOOKUP_INDEXED, WIN_LOOKUP_INDICES};
use uttt::weights::{gen_local_score, gen_local_scores, POS_SCORE, SC_LIMITS};

#[test]
fn gen_local_maps_test() {
    let mut xl = [0; 262144];
    let mut ol = [0; 262144];
    gen_local_maps(&mut xl, &mut ol);

    let t1 = 0b_000000000_000000000;
    assert_eq!(xl[t1], 8 << POS_CNT[3]);
    assert_eq!(ol[t1], 8 << POS_CNT[3]);

    let t2 = 0b_000000010_000000001;
    assert_eq!(xl[t2], 4 << POS_CNT[3] | 2 << POS_CNT[2]);
    assert_eq!(ol[t2], 4 << POS_CNT[3] | 1 << POS_CNT[2]);

    let t3 = 0b_000000101_000010000;
    assert_eq!(xl[t3], 1 << POS_CNT[3] | 2 << POS_CNT[2]);
    assert_eq!(ol[t3], 1 << POS_CNT[3] | 2 << POS_CNT[2] | 1 << POS_CNT[1]);

    let t4 = 0b_101000000_000010000;
    assert_eq!(xl[t4], 1 << POS_CNT[3] | 2 << POS_CNT[2]);
    assert_eq!(ol[t4], 1 << POS_CNT[3] | 2 << POS_CNT[2] | 1 << POS_CNT[1]);

    let t5 = 0b_000000100_011000000;
    assert_eq!(xl[t5], 2 << POS_CNT[3] | 2 << POS_CNT[2] | 1 << POS_CNT[1]);
    assert_eq!(ol[t5], 2 << POS_CNT[3] | 2 << POS_CNT[2]);

    let t6 = 0b_000010100_111000000;
    assert!(xl[t6].get_bit(POS_CNT[0]) != 0);

    let t7 = 0b_110101011_000000000;
    assert_eq!(xl[t7], 1 << POS_CNT[3]);
    assert_eq!(ol[t7], 1 << POS_CNT[3] | 7 << POS_CNT[1]);

    let t8 = 0b_110101011_000010000;
    assert_eq!(xl[t8], 1 << POS_CNT[2]);
    assert_eq!(ol[t8], 4 << POS_CNT[1]);

    let t9 = 0b_000000000_100011010;
    assert_eq!(xl[t9], 5 << POS_CNT[2] | 3 << POS_CNT[1]);
    assert_eq!(ol[t9], 0);

    let t10 = 0b_011100101_100011010;
    assert_eq!(xl[t10], 0);
    assert_eq!(ol[t10], 0);

    let t11 = 0b_001001000_110110000;
    assert_eq!(xl[t11], 1 << POS_CNT[3] | 3 << POS_CNT[1]);
    assert_eq!(ol[t11], 1 << POS_CNT[3] | 1 << POS_CNT[1]);

    let t12 = 0b_000000001_000000010;
    assert_eq!(xl[t12], 4 << POS_CNT[3] | 1 << POS_CNT[2]);
    assert_eq!(ol[t12], 4 << POS_CNT[3] | 2 << POS_CNT[2]);

    let t13 = 0b_000010000_000000101;
    assert_eq!(xl[t13], 1 << POS_CNT[3] | 2 << POS_CNT[2] | 1 << POS_CNT[1]);
    assert_eq!(ol[t13], 1 << POS_CNT[3] | 2 << POS_CNT[2]);

    let t14 = 0b_000010000_101000000;
    assert_eq!(xl[t14], 1 << POS_CNT[3] | 2 << POS_CNT[2] | 1 << POS_CNT[1]);
    assert_eq!(ol[t14], 1 << POS_CNT[3] | 2 << POS_CNT[2]);

    let t15 = 0b_011000000_000000100;
    assert_eq!(xl[t15], 2 << POS_CNT[3] | 2 << POS_CNT[2]);
    assert_eq!(ol[t15], 2 << POS_CNT[3] | 2 << POS_CNT[2] | 1 << POS_CNT[1]);

    let t16 = 0b_111000000_000010100;
    assert!(ol[t16].get_bit(POS_CNT[0]) != 0);

    let t17 = 0b_000000000_110101011;
    assert_eq!(xl[t17], 1 << POS_CNT[3] | 7 << POS_CNT[1]);
    assert_eq!(ol[t17], 1 << POS_CNT[3]);

    let t18 = 0b_000010000_110101011;
    assert_eq!(xl[t18], 4 << POS_CNT[1]);
    assert_eq!(ol[t18], 1 << POS_CNT[2]);

    let t19 = 0b_100011010_000000000;
    assert_eq!(xl[t19], 0);
    assert_eq!(ol[t19], 5 << POS_CNT[2] | 3 << POS_CNT[1]);

    let t20 = 0b_100011010_011100101;
    assert_eq!(xl[t20], 0);
    assert_eq!(ol[t20], 0);
}

#[test]
fn gen_local_scores_test() {
    let mut xs = [0; 262144];
    let mut os = [0; 262144];
    gen_local_scores(&mut xs, &mut os);

    let t1 = 0b_000000000_000000000;
    assert_eq!(xs[t1], POS_SCORE[3][8]);  // xl[t1], 8 << POS_CNT[3]
    assert_eq!(os[t1], POS_SCORE[3][8]);  // ol[t1], 8 << POS_CNT[3]

    let t2 = 0b_000000101_000010000;
    assert_eq!(xs[t2], POS_SCORE[3][1] + POS_SCORE[2][2]);  // xl[t2], 1 << POS_CNT[3] | 2 << POS_CNT[2]
    assert_eq!(os[t2], POS_SCORE[3][1] + POS_SCORE[2][2] + POS_SCORE[1][1]);  // ol[t2], 1 << POS_CNT[3] | 2 << POS_CNT[2] | 1 << POS_CNT[1].

    let t3 = 0b_011100101_100011010;
    assert_eq!(xs[t3], 0);  // xl[t3], 0
    assert_eq!(os[t3], 0);  // ol[t3], 0

    let t4 = 0b_111000000_000010100;
    assert_eq!(xs[t4], 0);
    assert_eq!(os[t4], SC_LIMITS[0]);  // ol[t4].get_bit(POS_CNT[0]) != 0

    let t5 = 0b_000000000_110101011;
    assert_eq!(xs[t5], POS_SCORE[3][1]);
    assert_eq!(os[t5], POS_SCORE[3][1]);

    let t6 = 0b_000000000_101000100;
    assert!(xs[t6] == SC_LIMITS[1]);
    assert_eq!(os[t6], POS_SCORE[3][2]);
}

#[test]
fn gen_maps_manual_sequential_test() {
    let maps = gen_maps();

    let keys = [
        0b000000000000000000,
        0b000000000000000001,
        0b000000001000000000,
        0b000000000000000010,
        0b000000000000000011,
        0b000000001000000010,
        0b000000010000000000,
        0b000000010000000001,
        0b000000011000000000,
        0b000000000000000100
    ];
    let values = [
        (8, 0, 0, 8, 0, 0),
        (8, 3, 0, 5, 0, 0),
        (5, 0, 0, 8, 3, 0),
        (8, 2, 0, 6, 0, 0),
        (8, 4, 1, 4, 0, 0),
        (5, 1, 0, 6, 2, 0),
        (6, 0, 0, 8, 2, 0),
        (6, 2, 0, 5, 1, 0),
        (4, 0, 0, 8, 4, 1),
        (8, 3, 0, 5, 0, 0)
    ];

    for (i, key) in keys.into_iter().enumerate() {
        let x_pos = (maps.0[key] >> SHIFT_POS) & MASK_CNT;
        let x_upo = (maps.0[key] >> SHIFT_UPO) & MASK_CNT;
        let x_thr = (maps.0[key] >> SHIFT_THR) & MASK_CNT;
        let o_pos = (maps.1[key] >> SHIFT_POS) & MASK_CNT;
        let o_upo = (maps.1[key] >> SHIFT_UPO) & MASK_CNT;
        let o_thr = (maps.1[key] >> SHIFT_THR) & MASK_CNT;
        assert_eq!(x_pos, values[i].0);
        assert_eq!(x_upo, values[i].1);
        assert_eq!(x_thr, values[i].2);
        assert_eq!(o_pos, values[i].3);
        assert_eq!(o_upo, values[i].4);
        assert_eq!(o_thr, values[i].5);
    }
}

#[test]
fn gen_maps_manual_random_test() {
    let maps = gen_maps();

    let keys = [
        0b000010000100000001,
        0b001010000100000001,
    ];
    let values = [
        (4, 4, 0, 3, 3, 0),
        (2, 2, 0, 3, 3, 1),
    ];

    for (i, key) in keys.into_iter().enumerate() {
        let x_pos = (maps.0[key] >> SHIFT_POS) & MASK_CNT;
        let x_upo = (maps.0[key] >> SHIFT_UPO) & MASK_CNT;
        let x_thr = (maps.0[key] >> SHIFT_THR) & MASK_CNT;
        let o_pos = (maps.1[key] >> SHIFT_POS) & MASK_CNT;
        let o_upo = (maps.1[key] >> SHIFT_UPO) & MASK_CNT;
        let o_thr = (maps.1[key] >> SHIFT_THR) & MASK_CNT;
        assert_eq!(x_pos, values[i].0);
        assert_eq!(x_upo, values[i].1);
        assert_eq!(x_thr, values[i].2);
        assert_eq!(o_pos, values[i].3);
        assert_eq!(o_upo, values[i].4);
        assert_eq!(o_thr, values[i].5);
    }
}

#[test]
fn lookups_mirrors() {
    let lookups = GenLookups::default();

    let board: u16 = 0b110101001;
    assert_eq!(lookups.mirrors[board as usize], 0b011101100);
    assert_eq!(lookups.mirrors[lookups.mirrors[board as usize] as usize], board);
    let board: u16 = 0;
    assert_eq!(lookups.mirrors[board as usize], board);
    let board: u16 = 0b101010101;
    assert_eq!(lookups.mirrors[board as usize], board);
}

#[test]
fn lookups_rotates() {
    let lookups = GenLookups::default();

    let board1: u16 = 0b110101001;
    let mut board2 = lookups.rotates[board1 as usize];
    assert_eq!(board2, 0b011001110);
    board2 = lookups.rotates[board2 as usize];
    assert_eq!(board2, 0b100101011);
    board2 = lookups.rotates[board2 as usize];
    assert_eq!(board2, 0b011100110);
    board2 = lookups.rotates[board2 as usize];
    assert_eq!(board2, board1);

    let board3: u16 = 0b111111111;
    let board4: u16 = 0b000000000;
    let board5: u16 = 0b101010101;
    assert_eq!(board3, lookups.rotates[board3 as usize]);
    assert_eq!(board4, lookups.rotates[board4 as usize]);
    assert_eq!(board5, lookups.rotates[board5 as usize]);
}

#[test]
fn lookups_getters_hand_out_the_tables() {
    let lookups = GenLookups::default();
    assert_eq!(lookups.get_diag_lines(), &[0b001010100, 0b100010001]);
    assert_eq!(lookups.get_side_lines(), &[0b000000111, 0b001001001, 0b100100100, 0b111000000]);
    assert_eq!(lookups.get_cent_lines(), &[0b000111000, 0b010010010]);
    let mut all = *lookups.get_all_lines();
    all.sort();
    assert_eq!(all, WIN_LOOKUP);
    assert_eq!(lookups.get_corners(), 0b101000101);
    assert_eq!(lookups.get_sides(), 0b010101010);
    assert_eq!(lookups.get_center(), 0b000010000);
    assert_eq!(lookups.get_corners() | lookups.get_sides() | lookups.get_center(), 0b111111111);
    for v in 0..512usize {
        assert_eq!(lookups.get_mirrors()[lookups.get_mirrors()[v] as usize] as usize, v);
        let once = lookups.get_rotates()[v] as usize;
        let twice = lookups.get_rotates()[once] as usize;
        let thrice = lookups.get_rotates()[twice] as usize;
        assert_eq!(lookups.get_rotates()[thrice] as usize, v);
        assert_eq!(lookups.get_mirrors()[v].count_ones(), (v as u16).count_ones());
        assert_eq!(lookups.get_rotates()[v].count_ones(), (v as u16).count_ones());
    }
    // the top left corner goes to the top right corner
    assert_eq!(lookups.get_rotates()[0b000000001], 0b000000100);
    assert_eq!(lookups.get_mirrors()[0b000000001], 0b000000100);
    assert_eq!(lookups.get_rotates()[0b000000010], 0b000100000);
}

#[test]
fn the_grouped_lines_are_the_lines_through_each_cell() {
    for cell in 0..9usize {
        let start = WIN_LOOKUP_INDICES[cell][0];
        let count = WIN_LOOKUP_INDICES[cell][1];
        let group = &WIN_LOOKUP_INDEXED[start..start + count];
        for line in WIN_LOOKUP {
            assert_eq!(group.contains(&line), line & (1 << cell) != 0);
        }
    }
}

#[test]
fn the_tables_are_made_alike_each_time() {
    let mut xs = vec![7u8; 262145];
    let mut os = vec![7u8; 262145];
    gen_local_scores(&mut xs, &mut os);
    // what lies behind the table is left alone
    assert_eq!(xs[262144], 7);
    assert_eq!(os[262144], 7);
    let mut xl = vec![9u16; 262144];
    let mut ol = vec![9u16; 262144];
    gen_local_maps(&mut xl, &mut ol);
    for key in 0..262144usize {
        assert_eq!((xs[key], os[key]), gen_local_score(key));
        assert_eq!((xl[key], ol[key]), gen_local_map(key));
        assert!(xs[key] <= SC_LIMITS[0] && os[key] <= SC_LIMITS[0]);
        if key & (key >> 9) & 0x1ff != 0 {
            assert_eq!((xs[key], os[key], xl[key], ol[key]), (0, 0, 0, 0));
        }
    }
    // both sides with a line: no game leads there, and nothing is scored
    let both = 0b_000111000_000000111;
    assert_eq!((xs[both], os[both]), (0, 0));
    assert_eq!((xl[both], ol[both]), (0, 0));
    // a won board scores more than any board that is not won
    assert!(SC_LIMITS[1] < SC_LIMITS[0] && SC_LIMITS[2] < SC_LIMITS[1] && SC_LIMITS[3] < SC_LIMITS[2]);
}

#[test]
fn the_weights_of_the_threat_evaluation() {
    let w = Weights::default();
    assert_eq!(w.possibility_limit, 4);
    assert_eq!(w.local_threat_mult, 5);
    assert_eq!(w.local_win_mult, 9);
    assert_eq!(w.global_emerging_threat_value, 2);
    assert_eq!(w.global_threat_value, 2);
    assert_eq!(w.soft_max, 8192);
}

#[test]
fn the_reach_maps_are_empty_for_won_and_impossible_boards() {
    let maps = gen_maps();
    assert_eq!(maps.0.len(), 262144);
    assert_eq!(maps.1.len(), 262144);
    let won = 0b_000000000_000000111;
    assert_eq!((maps.0[won], maps.1[won]), (0, 0));
    let twice = 0b_000000001_000000001;
    assert_eq!((maps.0[twice], maps.1[twice]), (0, 0));
}

#[test]
fn the_scores_of_given_small_boards() {
    // an empty board: eight open lines
    assert_eq!(gen_local_score(0), (4, 4));
    // X in the centre, O in two corners of one edge: X has two lines with
    // one stone and one open line, O one line with two stones besides
    assert_eq!(gen_local_score(0b_000000101_000010000), (3 + 1, 5 + 3 + 1));
    // three lines with two stones, three with one and two open come to
    // 10 + 4 + 2 and are held to 10
    assert_eq!(gen_local_score(0b_000000000_101000100), (10, 2));
    // a line of X
    assert_eq!(gen_local_score(0b_000000000_000000111), (20, 0));
    assert_eq!(gen_local_score(0b_000000111_000000000), (0, 20));
    // one stone alone: three lines with one stone, five open, held to 5
    assert_eq!(gen_local_score(0b_000000000_000000001), (5, 3));
    assert_eq!(gen_local_map(0b_000000000_000000001), (3 << 4 | 5, 5));
    assert_eq!(gen_local_map(0b_000000000_000000111), (1 << 12, 0));
}
