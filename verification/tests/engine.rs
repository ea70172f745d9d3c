use ghoul::board::Side;
use ghoul::evaluate::evaluate;
use ghoul::generate_moves::generate_moves;
use ghoul::move_piece::move_piece;
use ghoul::search::generate_legal_moves;
use ghoul::search::in_check;
use ghoul::search::minimax;

fn start_boards() -> [u64; 12] {
    [
        0b11111111 << 8,
        (1 << 1) | (1 << 6),
        (1 << 2) | (1 << 5),
        (1 << 0) | (1 << 7),
        1 << 3,
        1 << 4,
        0b11111111 << 48,
        (1 << 57) | (1 << 62),
        (1 << 58) | (1 << 61),
        (1 << 56) | (1 << 63),
        1 << 59,
        1 << 60,
    ]
}

fn friendly_mask(boards: &[u64; 12], side: Side) -> u64 {
    let o = if side == Side::White { 0 } else { 6 };
    boards[o] | boards[o + 1] | boards[o + 2] | boards[o + 3] | boards[o + 4] | boards[o + 5]
}

#[test]
fn twenty_moves_from_start() {
    let boards = start_boards();
    let castling = [true, true, true, true];
    let moves = generate_moves(&boards, &castling, Side::White);
    assert_eq!(moves.len(), 20);
    let legal = generate_legal_moves(&boards, &castling, Side::White);
    assert_eq!(legal.len(), 20);
    let black = generate_legal_moves(&boards, &castling, Side::Black);
    assert_eq!(black.len(), 20);
}

#[test]
fn evaluate_start_is_zero() {
    let boards = start_boards();
    assert_eq!(evaluate(&boards), 0);
}

#[test]
fn evaluate_counts_material() {
    let mut boards = [0u64; 12];
    boards[4] = 1 << 3; // one white queen
    boards[6] = (1 << 48) | (1 << 49); // two black pawns
    assert_eq!(evaluate(&boards), 9 - 2);
}

#[test]
fn no_move_lands_on_friendly_piece() {
    let boards = start_boards();
    let castling = [true, true, true, true];
    for side in [Side::White, Side::Black] {
        let f = friendly_mask(&boards, side);
        for mv in generate_moves(&boards, &castling, side) {
            assert_eq!(f & (1u64 << mv.1), 0);
        }
    }
}

#[test]
fn rook_in_corner_does_not_wrap() {
    // a lone white rook on h1 (square 7) and king far away
    let mut boards = [0u64; 12];
    boards[3] = 1 << 7;
    boards[5] = 1 << 32; // white king on a5
    let castling = [false, false, false, false];
    let moves = generate_moves(&boards, &castling, Side::White);
    for mv in &moves {
        if mv.0 == 7 {
            let (sf, sr) = (7 % 8, 7 / 8);
            let (tf, tr) = (mv.1 % 8, mv.1 / 8);
            // a rook move stays on its file or its rank
            assert!(sf == tf || sr == tr, "wrapped move {:?}", mv);
        }
    }
    // up the h-file and along the first rank, no wrap onto a2
    assert!(moves.contains(&(7, 15, None)));
    assert!(moves.contains(&(7, 6, None)));
    assert!(!moves.contains(&(7, 8, None)));
}

#[test]
fn bishop_moves_stay_diagonal() {
    let mut boards = [0u64; 12];
    boards[2] = 1 << 16; // white bishop on a3
    boards[5] = 1 << 0;
    let castling = [false, false, false, false];
    let moves = generate_moves(&boards, &castling, Side::White);
    for mv in &moves {
        if mv.0 == 16 {
            let fd = (mv.1 % 8) as i32 - (16 % 8) as i32;
            let rd = (mv.1 / 8) as i32 - (16 / 8) as i32;
            assert_eq!(fd.abs(), rd.abs());
            assert!(fd != 0);
        }
    }
}

#[test]
fn promotion_emitted_exactly_four_times() {
    let mut boards = [0u64; 12];
    boards[0] = 1 << 48; // white pawn on a7
    boards[5] = 1 << 4;
    let castling = [false, false, false, false];
    let moves = generate_moves(&boards, &castling, Side::White);
    let mut count = 0;
    for mv in &moves {
        if mv.0 == 48 && mv.1 == 56 {
            count += 1;
            assert!(mv.2.is_some());
        }
    }
    assert_eq!(count, 4);
    for pc in ['q', 'r', 'b', 'n'] {
        assert!(moves.contains(&(48, 56, Some(pc))));
    }
    assert!(!moves.contains(&(48, 56, None)));
}

#[test]
fn apply_move_round_trip() {
    let boards = start_boards();
    let castling = [true, true, true, true];
    for mv in generate_moves(&boards, &castling, Side::White) {
        let mut nb = boards;
        let mut nc = castling;
        move_piece(mv, &mut nb, &mut nc, Side::White);
        if mv.2.is_none() {
            // the mover's bitboard shows the destination set and the source cleared
            let p = (0..12).find(|&p| boards[p] & (1u64 << mv.0) != 0).unwrap();
            assert_ne!(nb[p] & (1u64 << mv.1), 0);
            assert_eq!(nb[p] & (1u64 << mv.0), 0);
        }
    }
}

#[test]
fn capture_clears_enemy_bit() {
    let mut boards = [0u64; 12];
    boards[3] = 1 << 0; // white rook a1
    boards[5] = 1 << 4;
    boards[6] = 1 << 8; // black pawn a2
    boards[11] = 1 << 60;
    let mut castling = [true, true, true, true];
    move_piece((0, 8, None), &mut boards, &mut castling, Side::White);
    assert_eq!(boards[3], 1 << 8);
    assert_eq!(boards[6], 0);
}

#[test]
fn promotion_apply_and_known_capture_gap() {
    let mut boards = [0u64; 12];
    boards[0] = 1 << 49; // white pawn on b7
    boards[5] = 1 << 4;
    boards[9] = 1 << 56; // black rook on a8
    boards[11] = 1 << 63;
    let mut castling = [false, false, false, false];
    // capture-promotion onto a8
    move_piece((49, 56, Some('q')), &mut boards, &mut castling, Side::White);
    assert_eq!(boards[0], 0); // pawn gone
    assert_eq!(boards[4], 1 << 56); // white queen appeared
    // the applier's known deviation: the captured rook's bit is not cleared
    assert_eq!(boards[9], 1 << 56);
}

#[test]
fn castling_generated_and_applied_both_ways() {
    // standard start with the squares between king and rooks cleared
    let mut boards = start_boards();
    boards[1] = 0; // no knights
    boards[2] = 0; // no bishops
    boards[4] = 0; // no queens
    boards[7] = 0;
    boards[8] = 0;
    boards[10] = 0;
    let castling = [true, true, true, true];
    let white_moves = generate_moves(&boards, &castling, Side::White);
    assert!(white_moves.contains(&(4, 6, None)));
    assert!(white_moves.contains(&(4, 2, None)));
    let black_moves = generate_moves(&boards, &castling, Side::Black);
    assert!(black_moves.contains(&(60, 62, None)));
    assert!(black_moves.contains(&(60, 58, None)));

    // king side: rook h1 hops to f1, white rights cleared
    let mut nb = boards;
    let mut nc = castling;
    move_piece((4, 6, None), &mut nb, &mut nc, Side::White);
    assert_eq!(nb[5], 1 << 6);
    assert_eq!(nb[3], (1 << 0) | (1 << 5));
    assert_eq!(nc, [false, false, true, true]);

    // queen side: rook a1 hops to d1
    let mut qb = boards;
    let mut qc = castling;
    move_piece((4, 2, None), &mut qb, &mut qc, Side::White);
    assert_eq!(qb[5], 1 << 2);
    assert_eq!(qb[3], (1 << 3) | (1 << 7));
    assert_eq!(qc, [false, false, true, true]);
}

#[test]
fn rook_move_clears_its_castling_right() {
    let mut boards = start_boards();
    boards[1] = 0;
    let mut castling = [true, true, true, true];
    // a move from a plain square changes no right; a move from h1, then
    // one from e1, clears the white rights one by one
    boards[3] = (1 << 0) | (1 << 6);
    move_piece((6, 14, None), &mut boards, &mut castling, Side::White);
    assert_eq!(castling, [true, true, true, true]);
    move_piece((7, 15, None), &mut boards, &mut castling, Side::White);
    assert_eq!(castling, [false, true, true, true]);
    move_piece((4, 12, None), &mut boards, &mut castling, Side::White);
    assert_eq!(castling, [false, false, true, true]);
}

#[test]
fn pinned_rook_sideways_moves_are_filtered() {
    // white king e1, white rook e2 pinned by a black rook on e8
    let mut boards = [0u64; 12];
    boards[5] = 1 << 4; // Ke1
    boards[3] = 1 << 12; // Re2
    boards[9] = 1 << 60; // black rook e8
    boards[11] = 1 << 63; // black king h8
    let castling = [false, false, false, false];
    let pseudo = generate_moves(&boards, &castling, Side::White);
    assert!(pseudo.contains(&(12, 11, None))); // Re2-d2 generated...
    let legal = generate_legal_moves(&boards, &castling, Side::White);
    assert!(!legal.contains(&(12, 11, None))); // ...but not legal
    assert!(!legal.contains(&(12, 13, None)));
    // moves along the pin file stay legal
    assert!(legal.contains(&(12, 20, None)));
    assert!(legal.contains(&(12, 60, None)));
}

#[test]
fn in_check_detects_rook_attack() {
    let mut boards = [0u64; 12];
    boards[5] = 1 << 4; // Ke1
    boards[9] = 1 << 60; // black rook e8
    boards[11] = 1 << 63;
    let castling = [false, false, false, false];
    assert!(in_check(&boards, &castling, Side::White));
    assert!(!in_check(&boards, &castling, Side::Black));
}

#[test]
fn search_is_deterministic() {
    let boards = start_boards();
    let castling = [true, true, true, true];
    let a = minimax(&boards, &castling, Side::White, 2);
    let b = minimax(&boards, &castling, Side::White, 2);
    assert_eq!(a, b);
}

#[test]
fn search_depth_zero_equals_evaluate() {
    let boards = start_boards();
    let castling = [true, true, true, true];
    assert_eq!(
        minimax(&boards, &castling, Side::White, 0),
        evaluate(&boards)
    );
    assert_eq!(
        minimax(&boards, &castling, Side::Black, 0),
        evaluate(&boards)
    );
}

#[test]
fn search_depth_one_from_start_is_zero() {
    let boards = start_boards();
    let castling = [true, true, true, true];
    assert_eq!(minimax(&boards, &castling, Side::White, 1), 0);
    assert_eq!(minimax(&boards, &castling, Side::Black, 1), 0);
}

#[test]
fn search_prefers_capture_at_depth_one() {
    // white rook a1 can take the black queen on a8
    let mut boards = [0u64; 12];
    boards[3] = 1 << 0;
    boards[5] = 1 << 4;
    boards[10] = 1 << 56; // black queen a8
    boards[11] = 1 << 63;
    let castling = [false, false, false, false];
    // best single white move wins the queen: rook for nothing, +9 beyond
    // the standing material balance of rook minus queen
    assert_eq!(minimax(&boards, &castling, Side::White, 1), 5);
}

#[test]
fn no_duplicate_moves_generated() {
    let boards = start_boards();
    let castling = [true, true, true, true];
    for side in [Side::White, Side::Black] {
        let moves = generate_moves(&boards, &castling, side);
        for i in 0..moves.len() {
            for j in 0..i {
                assert_ne!(moves[i], moves[j]);
            }
        }
    }
}
