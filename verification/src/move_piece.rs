//! The move applier: mutates a board state and the castling rights by one
//! move, handling capture removal, castling rook relocation and promotion
//! piece substitution.

use vstd::prelude::*;

use crate::board::Move;
use crate::board::Side;
use crate::board::bit;
use crate::board::iabs;
use crate::board::lemma_bit_clear;
use crate::board::lemma_bit_set;
use crate::board::side_offset;
use crate::generate_moves::promo_choice_ok;

verus! {

/// Castling rights after a move whose source square is `from`: moving from
/// a rook or king home square permanently clears the associated right(s).
pub open spec fn rights_after(c: Seq<bool>, from: int) -> Seq<bool> {
    if from == 7 {
        c.update(0, false)
    } else if from == 0 {
        c.update(1, false)
    } else if from == 63 {
        c.update(2, false)
    } else if from == 56 {
        c.update(3, false)
    } else if from == 4 {
        c.update(0, false).update(1, false)
    } else if from == 60 {
        c.update(2, false).update(3, false)
    } else {
        c
    }
}

/// Whether the applier treats `mv` as castling: the mover's king stands on
/// the source square and the move spans exactly two squares sideways.
pub open spec fn is_castle_apply(b: Seq<u64>, side: Side, mv: Move) -> bool {
    bit(b[side_offset(side) + 5], mv.0 as u64) && iabs(mv.1 as int - mv.0 as int) == 2
}

/// Bitboard index that a promotion to `pc` fills, for `side`.
pub open spec fn promo_board_index(side: Side, pc: char) -> int {
    side_offset(side) + (if pc == 'q' {
        4int
    } else if pc == 'r' {
        3int
    } else if pc == 'b' {
        2int
    } else {
        1int
    })
}

/// The board after applying `mv` for `side`.
///
/// Castling relocates the king two squares and moves the corner rook past
/// it; a promotion clears the pawn's source bit and sets the promoted
/// piece's destination bit (it does not clear a captured piece's bit, a
/// known deviation of the applier); any other move relocates the mover's
/// bit and clears the destination bit of every other bitboard, which
/// removes a captured piece.
pub open spec fn boards_next(b: Seq<u64>, side: Side, mv: Move) -> Seq<u64> {
    let o = side_offset(side);
    let fm = 1u64 << mv.0 as u64;
    let tm = 1u64 << mv.1 as u64;
    if is_castle_apply(b, side, mv) {
        let b1 = b.update(o + 5, (b[o + 5] & !fm) | tm);
        if mv.1 > mv.0 {
            if side == Side::White {
                b1.update(o + 3, (b1[o + 3] & !(1u64 << 7)) | (1u64 << 5))
            } else {
                b1.update(o + 3, (b1[o + 3] & !(1u64 << 63)) | (1u64 << 61))
            }
        } else {
            if side == Side::White {
                b1.update(o + 3, (b1[o + 3] & !(1u64 << 0)) | (1u64 << 3))
            } else {
                b1.update(o + 3, (b1[o + 3] & !(1u64 << 56)) | (1u64 << 59))
            }
        }
    } else {
        match mv.2 {
            Some(pc) => {
                let b1 = b.update(o, b[o] & !fm);
                b1.update(promo_board_index(side, pc), b1[promo_board_index(side, pc)] | tm)
            },
            None => Seq::new(
                12,
                |p: int|
                    if bit(b[p], mv.0 as u64) {
                        (b[p] & !fm) | tm
                    } else {
                        b[p] & !tm
                    },
            ),
        }
    }
}

/// Apply `mv` to the board and the castling rights in place: first clear
/// any castling rights forfeited by moving from a home square, then
/// relocate the pieces as `boards_next` describes.
pub fn move_piece(mv: Move, boards: &mut [u64; 12], castling: &mut [bool; 4], side: Side)
    requires
        mv.0 < 64,
        mv.1 < 64,
        mv.2 is Some ==> promo_choice_ok(mv),
    ensures
        final(boards)@ == boards_next(old(boards)@, side, mv),
        final(castling)@ == rights_after(old(castling)@, mv.0 as int),
{
    let (from, to, promotion) = mv;
    let from_mask = 1u64 << (from as u64);
    let to_mask = 1u64 << (to as u64);
    let offset: usize = if side == Side::White {
        0
    } else {
        6
    };

    if from == 7 {
        castling[0] = false;
    } else if from == 0 {
        castling[1] = false;
    } else if from == 63 {
        castling[2] = false;
    } else if from == 56 {
        castling[3] = false;
    } else if from == 4 {
        castling[0] = false;
        castling[1] = false;
    } else if from == 60 {
        castling[2] = false;
        castling[3] = false;
    }
    proof {
        assert(castling@ =~= rights_after(old(castling)@, from as int));
    }

    if boards[5 + offset] & from_mask != 0 {
        let diff = if to >= from {
            to - from
        } else {
            from - to
        };
        if diff == 2 {
            boards[5 + offset] = (boards[5 + offset] & !from_mask) | to_mask;
            if to > from {
                if side == Side::White {
                    boards[3 + offset] = (boards[3 + offset] & !(1u64 << 7)) | (1u64 << 5);
                } else {
                    boards[3 + offset] = (boards[3 + offset] & !(1u64 << 63)) | (1u64 << 61);
                }
            } else {
                if side == Side::White {
                    boards[3 + offset] = (boards[3 + offset] & !(1u64 << 0)) | (1u64 << 3);
                } else {
                    boards[3 + offset] = (boards[3 + offset] & !(1u64 << 56)) | (1u64 << 59);
                }
            }
            proof {
                assert(is_castle_apply(old(boards)@, side, mv));
                assert(boards@ =~= boards_next(old(boards)@, side, mv));
            }
            return ;
        }
    }
    proof {
        assert(!is_castle_apply(old(boards)@, side, mv));
    }

    if let Some(piece) = promotion {
        boards[0 + offset] = boards[0 + offset] & !from_mask;
        let piece_board: usize = if piece == 'q' {
            4 + offset
        } else if piece == 'r' {
            3 + offset
        } else if piece == 'b' {
            2 + offset
        } else {
            1 + offset
        };
        boards[piece_board] = boards[piece_board] | to_mask;
        proof {
            assert(boards@ =~= boards_next(old(boards)@, side, mv));
        }
    } else {
        let mut p: usize = 0;
        while p < 12
            invariant
                p <= 12,
                mv.0 < 64,
                mv.1 < 64,
                mv.2 is None,
                from == mv.0,
                to == mv.1,
                from_mask == 1u64 << mv.0 as u64,
                to_mask == 1u64 << mv.1 as u64,
                !is_castle_apply(old(boards)@, side, mv),
                forall|q: int|
                    0 <= q < p ==> boards@[q] == boards_next(old(boards)@, side, mv)[q],
                forall|q: int| p <= q < 12 ==> boards@[q] == old(boards)@[q],
            decreases 12 - p,
        {
            if boards[p] & from_mask != 0 {
                boards[p] = (boards[p] & !from_mask) | to_mask;
            } else {
                boards[p] = boards[p] & !to_mask;
            }
            p = p + 1;
        }
        proof {
            assert(boards@ =~= boards_next(old(boards)@, side, mv));
        }
    }
}

/// Round trip of an ordinary move (no castling, no promotion): the moved
/// piece's bitboard shows the destination set exactly when its source was
/// set and the source cleared; every bitboard loses its destination bit
/// unless it held the source (so a captured piece's bit is removed), and
/// every other square is untouched.
pub proof fn lemma_apply_round_trip(b: Seq<u64>, side: Side, mv: Move, p: int)
    requires
        b.len() == 12,
        mv.0 < 64,
        mv.1 < 64,
        mv.0 != mv.1,
        mv.2 is None,
        !is_castle_apply(b, side, mv),
        0 <= p < 12,
    ensures
        bit(boards_next(b, side, mv)[p], mv.1 as u64) == bit(b[p], mv.0 as u64),
        !bit(boards_next(b, side, mv)[p], mv.0 as u64),
        forall|sq: u64|
            sq < 64 && sq != mv.0 as u64 && sq != mv.1 as u64 ==> bit(
                #[trigger] boards_next(b, side, mv)[p],
                sq,
            ) == bit(b[p], sq),
{
    let nb = boards_next(b, side, mv)[p];
    if bit(b[p], mv.0 as u64) {
        lemma_bit_clear(b[p], mv.0 as u64, mv.0 as u64);
        lemma_bit_set(b[p] & !(1u64 << mv.0 as u64), mv.1 as u64, mv.1 as u64);
        lemma_bit_set(b[p] & !(1u64 << mv.0 as u64), mv.1 as u64, mv.0 as u64);
        assert forall|sq: u64| sq < 64 && sq != mv.0 as u64 && sq != mv.1 as u64 implies bit(
            nb,
            sq,
        ) == bit(b[p], sq) by {
            lemma_bit_clear(b[p], mv.0 as u64, sq);
            lemma_bit_set(b[p] & !(1u64 << mv.0 as u64), mv.1 as u64, sq);
        }
    } else {
        lemma_bit_clear(b[p], mv.1 as u64, mv.1 as u64);
        lemma_bit_clear(b[p], mv.1 as u64, mv.0 as u64);
        assert forall|sq: u64| sq < 64 && sq != mv.0 as u64 && sq != mv.1 as u64 implies bit(
            nb,
            sq,
        ) == bit(b[p], sq) by {
            lemma_bit_clear(b[p], mv.1 as u64, sq);
        }
    }
}

/// Round trip of a promotion: the pawn's source bit is cleared, the
/// promoted piece's destination bit is set, and every other bitboard is
/// left untouched — in particular a captured piece's destination bit is
/// not cleared, the applier's known deviation.
pub proof fn lemma_apply_promotion(b: Seq<u64>, side: Side, mv: Move, pc: char, p: int)
    requires
        b.len() == 12,
        mv.0 < 64,
        mv.1 < 64,
        mv.2 == Some(pc),
        promo_choice_ok(mv),
        !is_castle_apply(b, side, mv),
        0 <= p < 12,
    ensures
        !bit(boards_next(b, side, mv)[side_offset(side)], mv.0 as u64),
        bit(boards_next(b, side, mv)[promo_board_index(side, pc)], mv.1 as u64),
        p != side_offset(side) && p != promo_board_index(side, pc) ==> boards_next(b, side, mv)[p]
            == b[p],
{
    let o = side_offset(side);
    let pi = promo_board_index(side, pc);
    lemma_bit_clear(b[o], mv.0 as u64, mv.0 as u64);
    lemma_bit_set(b.update(o, b[o] & !(1u64 << mv.0 as u64))[pi], mv.1 as u64, mv.1 as u64);
}

} // verus!
