//! Check detection, legal-move filtering, and fixed-depth minimax search.

use vstd::prelude::*;

use vstd::arithmetic::div_mod::lemma_fundamental_div_mod_converse_div;
use vstd::arithmetic::div_mod::lemma_fundamental_div_mod_converse_mod;

use crate::board::Move;
use crate::board::Side;
use crate::board::bit;
use crate::board::side_offset;
use crate::evaluate::eval_spec;
use crate::evaluate::evaluate;
use crate::evaluate::lemma_eval_upto_bounds;
use crate::generate_moves::generate_moves;
use crate::generate_moves::promo_choice_ok;
use crate::generate_moves::pseudo_legal;
use crate::move_piece::boards_next;
use crate::move_piece::move_piece;
use crate::move_piece::rights_after;

verus! {

/// Index of the lowest set bit of `x` at or above `i`, or 64 if none.
pub open spec fn lowest_set_bit_from(x: u64, i: int) -> int
    decreases 64 - i,
{
    if i < 0 || i >= 64 {
        64
    } else if bit(x, i as u64) {
        i
    } else {
        lowest_set_bit_from(x, i + 1)
    }
}

/// The square `side`'s king stands on: the lowest set bit of its king
/// bitboard, or 64 when that bitboard is empty.
pub open spec fn king_square(b: Seq<u64>, side: Side) -> int {
    lowest_set_bit_from(b[side_offset(side) + 5], 0)
}

/// Whether `side`'s king square is attacked: some pseudo-legal move of the
/// opponent targets it.
pub open spec fn in_check_spec(b: Seq<u64>, c: Seq<bool>, side: Side) -> bool {
    exists|m: Move|
        pseudo_legal(b, c, side.opposite_spec(), m) && m.1 as int == king_square(b, side)
}

/// A legal move: pseudo-legal, and applying it does not leave the mover's
/// own king in check.
pub open spec fn legal_move(b: Seq<u64>, c: Seq<bool>, side: Side, m: Move) -> bool {
    &&& pseudo_legal(b, c, side, m)
    &&& !in_check_spec(boards_next(b, side, m), rights_after(c, m.0 as int), side)
}

/// A pseudo-legal move has in-range squares and one of the four promotion
/// kinds when it promotes, so the applier accepts it.
pub proof fn lemma_pseudo_legal_move_valid(b: Seq<u64>, c: Seq<bool>, side: Side, m: Move)
    requires
        pseudo_legal(b, c, side, m),
    ensures
        m.0 < 64,
        m.1 < 64,
        m.2 is Some ==> promo_choice_ok(m),
{
}

/// Whether `side`'s king is attacked: generate the opponent's pseudo-legal
/// moves and test whether any targets the king's square.
pub fn in_check(boards: &[u64; 12], castling: &[bool; 4], side: Side) -> (r: bool)
    ensures
        r == in_check_spec(boards@, castling@, side),
{
    let ko: usize = if side == Side::White {
        5
    } else {
        11
    };
    let kb = boards[ko];
    let mut i: u8 = 0;
    while i < 64 && kb & (1u64 << (i as u64)) == 0
        invariant
            i <= 64,
            kb == boards@[side_offset(side) + 5],
            lowest_set_bit_from(kb, 0) == lowest_set_bit_from(kb, i as int),
        decreases 64 - i,
    {
        i = i + 1;
    }
    let ksq = i;
    proof {
        assert(ksq as int == king_square(boards@, side));
    }
    let enemy_moves = generate_moves(boards, castling, side.opposite());
    let ghost b = boards@;
    let ghost c = castling@;
    let mut j: usize = 0;
    let mut found = false;
    while j < enemy_moves.len()
        invariant
            j <= enemy_moves@.len(),
            forall|m: Move| #[trigger]
                enemy_moves@.contains(m) <==> pseudo_legal(b, c, side.opposite_spec(), m),
            found == exists|jj: int| 0 <= jj < j && (#[trigger] enemy_moves@[jj]).1 == ksq,
        decreases enemy_moves@.len() - j,
    {
        if enemy_moves[j].1 == ksq {
            found = true;
        }
        j = j + 1;
    }
    proof {
        if found {
            let jj = choose|jj: int| 0 <= jj < enemy_moves@.len() && (#[trigger] enemy_moves@[jj]).1
                == ksq;
            assert(enemy_moves@.contains(enemy_moves@[jj]));
        }
        if in_check_spec(b, c, side) {
            let m = choose|m: Move|
                pseudo_legal(b, c, side.opposite_spec(), m) && m.1 as int == king_square(b, side);
            assert(enemy_moves@.contains(m));
            let jj = choose|jj: int| 0 <= jj < enemy_moves@.len() && enemy_moves@[jj] == m;
            assert((enemy_moves@[jj]).1 == ksq);
        }
    }
    found
}

/// The subset of the pseudo-legal moves that do not leave the mover's own
/// king in check: each is applied to a scratch copy of the position, and
/// kept exactly when the mover is not in check afterwards.
pub fn generate_legal_moves(boards: &[u64; 12], castling: &[bool; 4], side: Side) -> (legal: Vec<
    Move,
>)
    ensures
        forall|m: Move| #[trigger] legal@.contains(m) <==> legal_move(boards@, castling@, side, m),
{
    let all_moves = generate_moves(boards, castling, side);
    let ghost b = boards@;
    let ghost c = castling@;
    let mut legal: Vec<Move> = Vec::new();
    let mut i: usize = 0;
    while i < all_moves.len()
        invariant
            i <= all_moves@.len(),
            forall|m: Move| #[trigger] all_moves@.contains(m) <==> pseudo_legal(b, c, side, m),
            b == boards@,
            c == castling@,
            forall|m: Move| #[trigger]
                legal@.contains(m) <==> (legal_move(b, c, side, m) && exists|jj: int|
                    0 <= jj < i && all_moves@[jj] == m),
        decreases all_moves@.len() - i,
    {
        let mv = all_moves[i];
        proof {
            assert(all_moves@.contains(mv));
            lemma_pseudo_legal_move_valid(b, c, side, mv);
        }
        let mut new_boards = *boards;
        let mut new_castling = *castling;
        move_piece(mv, &mut new_boards, &mut new_castling, side);
        if !in_check(&new_boards, &new_castling, side) {
            let ghost s0 = legal@;
            legal.push(mv);
            proof {
                crate::board::lemma_push_contains(s0, mv);
            }
        }
        i = i + 1;
    }
    proof {
        assert forall|m: Move| #[trigger] legal@.contains(m) <==> legal_move(b, c, side, m) by {
            if legal_move(b, c, side, m) {
                assert(all_moves@.contains(m));
                let jj = choose|jj: int| 0 <= jj < all_moves@.len() && all_moves@[jj] == m;
                assert(exists|k: int| 0 <= k < all_moves@.len() && all_moves@[k] == m);
            }
        }
    }
    legal
}

/// Rank of a promotion choice in the move encoding.
pub open spec fn promo_index(p: Option<char>) -> int {
    match p {
        None => 0,
        Some(c) => if c == 'q' {
            1
        } else if c == 'r' {
            2
        } else if c == 'b' {
            3
        } else if c == 'n' {
            4
        } else {
            5
        },
    }
}

/// Inverse of `promo_index` on the five values a generated move can carry.
pub open spec fn promo_of_index(i: int) -> Option<char> {
    if i == 1 {
        Some('q')
    } else if i == 2 {
        Some('r')
    } else if i == 3 {
        Some('b')
    } else if i == 4 {
        Some('n')
    } else {
        None
    }
}

/// Injective code of a move, below 20480 for any generated move.
pub open spec fn move_code(m: Move) -> int {
    m.0 as int * 320 + m.1 as int * 5 + promo_index(m.2)
}

/// The move a code stands for.
pub open spec fn move_of_code(n: int) -> Move {
    ((n / 320) as u8, ((n / 5) % 64) as u8, promo_of_index(n % 5))
}

/// Decoding inverts encoding on every well-formed move.
pub proof fn lemma_move_code_roundtrip(m: Move)
    requires
        m.0 < 64,
        m.1 < 64,
        promo_index(m.2) < 5,
    ensures
        0 <= move_code(m) < 20480,
        move_of_code(move_code(m)) == m,
{
    let n = move_code(m);
    let a = m.0 as int;
    let bb = m.1 as int;
    let cc = promo_index(m.2);
    lemma_fundamental_div_mod_converse_div(n, 320, a, bb * 5 + cc);
    lemma_fundamental_div_mod_converse_div(n, 5, 64 * a + bb, cc);
    lemma_fundamental_div_mod_converse_mod(n, 5, 64 * a + bb, cc);
    lemma_fundamental_div_mod_converse_mod(64 * a + bb, 64, a, bb);
    assert(n / 320 == a);
    assert((n / 5) % 64 == bb);
    assert(n % 5 == cc);
}

/// The minimax value of the position at the given depth: at depth zero the
/// evaluator's score; otherwise the best (maximum for white, minimum for
/// black) of the values one ply deeper over every legal move, starting from
/// the extreme sentinel, which therefore remains the value when no legal
/// move exists.
pub open spec fn minimax_spec(b: Seq<u64>, c: Seq<bool>, side: Side, depth: nat) -> int
    decreases depth, 20481int,
{
    if depth == 0 {
        eval_spec(b)
    } else {
        best_to_code(b, c, side, depth, 20480)
    }
}

/// Fold of the minimax recursion over every legal move whose code is below
/// `n`, starting from the extreme sentinel value of `side`.
pub open spec fn best_to_code(b: Seq<u64>, c: Seq<bool>, side: Side, depth: nat, n: int) -> int
    decreases depth, n,
{
    if n <= 0 || depth == 0 {
        if side == Side::White {
            i32::MIN as int
        } else {
            i32::MAX as int
        }
    } else {
        let prev = best_to_code(b, c, side, depth, n - 1);
        let m = move_of_code(n - 1);
        if legal_move(b, c, side, m) {
            let v = minimax_spec(
                boards_next(b, side, m),
                rights_after(c, m.0 as int),
                side.opposite_spec(),
                (depth - 1) as nat,
            );
            if side == Side::White {
                if v > prev {
                    v
                } else {
                    prev
                }
            } else {
                if v < prev {
                    v
                } else {
                    prev
                }
            }
        } else {
            prev
        }
    }
}

/// The minimax value of the position one ply after `m`, seen by the mover.
pub open spec fn child_score(b: Seq<u64>, c: Seq<bool>, side: Side, depth: nat, m: Move) -> int
    recommends
        depth >= 1,
{
    minimax_spec(
        boards_next(b, side, m),
        rights_after(c, m.0 as int),
        side.opposite_spec(),
        (depth - 1) as nat,
    )
}

/// The minimax value always lies within the `i32` range.
pub proof fn lemma_minimax_in_range(b: Seq<u64>, c: Seq<bool>, side: Side, depth: nat)
    ensures
        i32::MIN <= minimax_spec(b, c, side, depth) <= i32::MAX,
    decreases depth, 20481int,
{
    if depth == 0 {
        lemma_eval_upto_bounds(b, 6);
    } else {
        lemma_best_in_range(b, c, side, depth, 20480);
    }
}

/// The move fold stays within the `i32` range.
pub proof fn lemma_best_in_range(b: Seq<u64>, c: Seq<bool>, side: Side, depth: nat, n: int)
    requires
        depth >= 1,
    ensures
        i32::MIN <= best_to_code(b, c, side, depth, n) <= i32::MAX,
    decreases depth, n,
{
    if n > 0 {
        lemma_best_in_range(b, c, side, depth, n - 1);
        let m = move_of_code(n - 1);
        if legal_move(b, c, side, m) {
            lemma_minimax_in_range(
                boards_next(b, side, m),
                rights_after(c, m.0 as int),
                side.opposite_spec(),
                (depth - 1) as nat,
            );
        }
    }
}

/// The fold bounds the value of every legal move whose code it has passed:
/// no child of white does better, no child of black does worse.
pub proof fn lemma_best_bound(b: Seq<u64>, c: Seq<bool>, side: Side, depth: nat, n: int, m: Move)
    requires
        depth >= 1,
        legal_move(b, c, side, m),
        0 <= move_code(m) < n,
    ensures
        side == Side::White ==> child_score(b, c, side, depth, m) <= best_to_code(
            b,
            c,
            side,
            depth,
            n,
        ),
        side == Side::Black ==> child_score(b, c, side, depth, m) >= best_to_code(
            b,
            c,
            side,
            depth,
            n,
        ),
    decreases n,
{
    lemma_pseudo_legal_move_valid(b, c, side, m);
    lemma_move_code_roundtrip(m);
    if move_code(m) < n - 1 {
        lemma_best_bound(b, c, side, depth, n - 1, m);
    } else {
        assert(move_of_code(n - 1) == m);
    }
}

/// The fold's value is the sentinel or the value of some legal move.
pub proof fn lemma_best_attained(b: Seq<u64>, c: Seq<bool>, side: Side, depth: nat, n: int)
    requires
        depth >= 1,
    ensures
        best_to_code(b, c, side, depth, n) == (if side == Side::White {
            i32::MIN as int
        } else {
            i32::MAX as int
        }) || exists|m: Move|
            legal_move(b, c, side, m) && best_to_code(b, c, side, depth, n) == child_score(
                b,
                c,
                side,
                depth,
                m,
            ),
    decreases n,
{
    if n > 0 {
        lemma_best_attained(b, c, side, depth, n - 1);
        let m = move_of_code(n - 1);
        if legal_move(b, c, side, m) && best_to_code(b, c, side, depth, n) == child_score(
            b,
            c,
            side,
            depth,
            m,
        ) {
            assert(exists|mm: Move|
                legal_move(b, c, side, mm) && best_to_code(b, c, side, depth, n) == child_score(
                    b,
                    c,
                    side,
                    depth,
                    mm,
                ));
        }
    }
}

/// At depth zero the search returns exactly the evaluator's score.
pub proof fn lemma_search_depth_zero(b: Seq<u64>, c: Seq<bool>, side: Side)
    ensures
        minimax_spec(b, c, side, 0) == eval_spec(b),
{
}

/// Fixed-depth exhaustive minimax. At depth zero, the evaluator's score of
/// the position; otherwise each legal move is applied to a scratch copy and
/// searched one ply deeper with the opponent to move, white keeping the
/// maximum child value and black the minimum. With no legal moves the
/// extreme sentinel of the side to move is returned. The score is a pure
/// function of the arguments, so repeated calls return the same value.
pub fn minimax(boards: &[u64; 12], castling: &[bool; 4], side: Side, depth: u8) -> (score: i32)
    ensures
        score as int == minimax_spec(boards@, castling@, side, depth as nat),
    decreases depth,
{
    if depth == 0 {
        proof {
            lemma_eval_upto_bounds(boards@, 6);
        }
        return evaluate(boards);
    }
    let moves = generate_legal_moves(boards, castling, side);
    let ghost b = boards@;
    let ghost c = castling@;
    let ghost d = depth as nat;
    let mut eval: i32 = if side == Side::White {
        i32::MIN
    } else {
        i32::MAX
    };
    let mut i: usize = 0;
    while i < moves.len()
        invariant
            depth >= 1,
            d == depth as nat,
            b == boards@,
            c == castling@,
            i <= moves@.len(),
            forall|m: Move| #[trigger] moves@.contains(m) <==> legal_move(b, c, side, m),
            side == Side::White ==> forall|j: int|
                0 <= j < i ==> child_score(b, c, side, d, #[trigger] moves@[j]) <= eval as int,
            side == Side::Black ==> forall|j: int|
                0 <= j < i ==> child_score(b, c, side, d, #[trigger] moves@[j]) >= eval as int,
            (eval as int == if side == Side::White {
                i32::MIN as int
            } else {
                i32::MAX as int
            }) || exists|j: int|
                0 <= j < i && eval as int == child_score(b, c, side, d, #[trigger] moves@[j]),
        decreases moves@.len() - i,
    {
        let mv = moves[i];
        proof {
            assert(moves@.contains(mv));
            lemma_pseudo_legal_move_valid(b, c, side, mv);
        }
        let mut new_boards = *boards;
        let mut new_castling = *castling;
        move_piece(mv, &mut new_boards, &mut new_castling, side);
        let new_eval = minimax(&new_boards, &new_castling, side.opposite(), depth - 1);
        proof {
            assert(new_eval as int == child_score(b, c, side, d, mv));
        }
        if side == Side::White {
            if new_eval > eval {
                eval = new_eval;
            }
        } else {
            if new_eval < eval {
                eval = new_eval;
            }
        }
        i = i + 1;
    }
    proof {
        let best = best_to_code(b, c, side, d, 20480);
        lemma_best_attained(b, c, side, d, 20480);
        lemma_best_in_range(b, c, side, d, 20480);
        if side == Side::White {
            if eval as int != i32::MIN as int {
                let j = choose|j: int|
                    0 <= j < moves@.len() && eval as int == child_score(
                        b,
                        c,
                        side,
                        d,
                        #[trigger] moves@[j],
                    );
                assert(moves@.contains(moves@[j]));
                lemma_pseudo_legal_move_valid(b, c, side, moves@[j]);
                lemma_move_code_roundtrip(moves@[j]);
                lemma_best_bound(b, c, side, d, 20480, moves@[j]);
            }
            if best != i32::MIN as int {
                let m = choose|m: Move|
                    legal_move(b, c, side, m) && best == child_score(b, c, side, d, m);
                assert(moves@.contains(m));
                let j = choose|j: int| 0 <= j < moves@.len() && moves@[j] == m;
                assert(child_score(b, c, side, d, moves@[j]) <= eval as int);
            }
        } else {
            if eval as int != i32::MAX as int {
                let j = choose|j: int|
                    0 <= j < moves@.len() && eval as int == child_score(
                        b,
                        c,
                        side,
                        d,
                        #[trigger] moves@[j],
                    );
                assert(moves@.contains(moves@[j]));
                lemma_pseudo_legal_move_valid(b, c, side, moves@[j]);
                lemma_move_code_roundtrip(moves@[j]);
                lemma_best_bound(b, c, side, d, 20480, moves@[j]);
            }
            if best != i32::MAX as int {
                let m = choose|m: Move|
                    legal_move(b, c, side, m) && best == child_score(b, c, side, d, m);
                assert(moves@.contains(m));
                let j = choose|j: int| 0 <= j < moves@.len() && moves@[j] == m;
                assert(child_score(b, c, side, d, moves@[j]) >= eval as int);
            }
        }
        assert(eval as int == best);
    }
    eval
}

} // verus!
