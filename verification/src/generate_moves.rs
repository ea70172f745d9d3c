//! Pseudo-legal move generation: every move that obeys the piece movement
//! rules and cannot land on a friendly-occupied square, without regard to
//! king safety. `pseudo_legal` is the membership predicate; `generate_moves`
//! returns exactly the moves that satisfy it.

use vstd::prelude::*;

use crate::board::Move;
use crate::board::Side;
use crate::board::bit;
use crate::board::file_of;
use crate::board::iabs;
use crate::board::lemma_bit_or;
use crate::board::lemma_push_contains;
use crate::board::lemma_push_count;
use crate::board::rank_of;
use crate::board::side_mask;
use crate::board::side_at;
use crate::board::side_offset;
use crate::board::wf_boards;
use crate::board::lemma_wf_sides_disjoint;

verus! {

/// Square-index increment of one pawn push.
pub open spec fn pawn_forward(side: Side) -> int {
    match side {
        Side::White => 8,
        Side::Black => -8,
    }
}

/// Rank a side's pawns start on (double pushes are allowed only from it).
pub open spec fn pawn_start_rank(side: Side) -> int {
    match side {
        Side::White => 1,
        Side::Black => 6,
    }
}

/// Far rank: a pawn landing there must promote.
pub open spec fn promotion_rank(side: Side) -> int {
    match side {
        Side::White => 7,
        Side::Black => 0,
    }
}

/// The move carries one of the four allowed promotion piece kinds.
pub open spec fn promo_choice_ok(m: Move) -> bool {
    m.2 == Some('q') || m.2 == Some('r') || m.2 == Some('b') || m.2 == Some('n')
}

/// A pseudo-legal move of a pawn of `side` standing on `from`, judged
/// against the friendly mask `f` and the enemy mask `e`: a single push onto
/// an empty square, a double push from the start rank across two empty
/// squares, or a diagonal capture that does not wrap a board edge; landing
/// on the far rank forces a promotion kind, anything else forbids one.
pub open spec fn pawn_move_ok(f: u64, e: u64, side: Side, from: int, m: Move) -> bool {
    let fwd = pawn_forward(side);
    let to = m.1 as int;
    &&& m.0 as int == from
    &&& 0 <= from < 64
    &&& ((to == from + fwd && 0 <= to < 64 && !bit(f | e, to as u64)) || (rank_of(from)
        == pawn_start_rank(side) && to == from + 2 * fwd && 0 <= from + fwd < 64 && !bit(
        f | e,
        (from + fwd) as u64,
    ) && 0 <= to < 64 && !bit(f | e, to as u64)) || (file_of(from) != 0 && to == from + fwd - 1
        && 0 <= to < 64 && bit(e, to as u64)) || (file_of(from) != 7 && to == from + fwd + 1 && 0
        <= to < 64 && bit(e, to as u64)))
    &&& if rank_of(to) == promotion_rank(side) {
        promo_choice_ok(m)
    } else {
        m.2 is None
    }
}

/// A one-step move (knight or king): the target square exists, the file
/// difference stays within `limit` (rejecting edge wraparound), and the
/// target is not friendly-occupied.
pub open spec fn step_move_ok(f: u64, from: int, d: int, limit: int, m: Move) -> bool {
    let to = from + d;
    &&& m.0 as int == from
    &&& m.2 is None
    &&& m.1 as int == to
    &&& 0 <= to < 64
    &&& iabs(file_of(from) - file_of(to)) <= limit
    &&& !bit(f, to as u64)
}

/// A pseudo-legal knight move from `from`: one of the eight fixed offsets,
/// kept only if the file difference is at most two.
pub open spec fn knight_move_ok(f: u64, from: int, m: Move) -> bool {
    ||| step_move_ok(f, from, 6, 2, m)
    ||| step_move_ok(f, from, 15, 2, m)
    ||| step_move_ok(f, from, 17, 2, m)
    ||| step_move_ok(f, from, 10, 2, m)
    ||| step_move_ok(f, from, -10, 2, m)
    ||| step_move_ok(f, from, -17, 2, m)
    ||| step_move_ok(f, from, -15, 2, m)
    ||| step_move_ok(f, from, -6, 2, m)
}

/// A pseudo-legal single king step from `from`: one of the eight
/// surrounding offsets, kept only if the file difference is at most one.
pub open spec fn king_step_ok(f: u64, from: int, m: Move) -> bool {
    ||| step_move_ok(f, from, -9, 1, m)
    ||| step_move_ok(f, from, -8, 1, m)
    ||| step_move_ok(f, from, -7, 1, m)
    ||| step_move_ok(f, from, -1, 1, m)
    ||| step_move_ok(f, from, 1, 1, m)
    ||| step_move_ok(f, from, 7, 1, m)
    ||| step_move_ok(f, from, 8, 1, m)
    ||| step_move_ok(f, from, 9, 1, m)
}

/// Change of file per step along direction `d`.
pub open spec fn file_delta(d: int) -> int {
    if d == -9 || d == -1 || d == 7 {
        -1
    } else if d == -7 || d == 1 || d == 9 {
        1
    } else {
        0
    }
}

/// Change of rank per step along direction `d`.
pub open spec fn rank_delta(d: int) -> int {
    if d == -9 || d == -8 || d == -7 {
        -1
    } else if d == 7 || d == 8 || d == 9 {
        1
    } else {
        0
    }
}

/// One ray step from `pos` along `d` stays on the board and moves to the
/// adjacent file given by `file_delta` (so it never wraps a rank edge).
pub open spec fn ray_step_ok(pos: int, d: int) -> bool {
    &&& 0 <= pos + d < 64
    &&& file_of(pos + d) == file_of(pos) + file_delta(d)
}

/// The ray cast from `pos` along `d` reaches `to`: every step stays on the
/// board without wrapping, every square strictly before `to` is empty, and
/// `to` itself is not friendly-occupied (an enemy piece there is captured).
pub open spec fn ray_reaches(f: u64, e: u64, pos: int, d: int, to: int, fuel: nat) -> bool
    decreases fuel,
{
    fuel > 0 && ray_step_ok(pos, d) && {
        let nxt = pos + d;
        (to == nxt && !bit(f, nxt as u64)) || (!bit(f, nxt as u64) && !bit(e, nxt as u64)
            && ray_reaches(f, e, nxt, d, to, (fuel - 1) as nat))
    }
}

/// A pseudo-legal sliding move from `from` along direction `d`.
pub open spec fn ray_move_ok(f: u64, e: u64, from: int, d: int, m: Move) -> bool {
    &&& m.0 as int == from
    &&& m.2 is None
    &&& m.1 < 64
    &&& ray_reaches(f, e, from, d, m.1 as int, 64)
}

/// Index into the castling-rights array of `side`'s king-side right.
pub open spec fn castle_ks_index(side: Side) -> int {
    match side {
        Side::White => 0,
        Side::Black => 2,
    }
}

/// Index into the castling-rights array of `side`'s queen-side right.
pub open spec fn castle_qs_index(side: Side) -> int {
    match side {
        Side::White => 1,
        Side::Black => 3,
    }
}

/// A pseudo-legal castling move of a king standing on `from`: the
/// corresponding right is still set and the squares between king and corner
/// rook are all empty; the king moves two squares. King safety on the
/// transit squares is not checked here.
pub open spec fn castle_move_ok(all: u64, c: Seq<bool>, side: Side, from: int, m: Move) -> bool {
    &&& m.0 as int == from
    &&& m.2 is None
    &&& 0 <= from < 64
    &&& ((c[castle_ks_index(side)] && from + 2 < 64 && m.1 as int == from + 2 && !bit(
        all,
        (from + 1) as u64,
    ) && !bit(all, (from + 2) as u64)) || (c[castle_qs_index(side)] && from - 3 >= 0 && m.1 as int
        == from - 2 && !bit(all, (from - 1) as u64) && !bit(all, (from - 2) as u64) && !bit(
        all,
        (from - 3) as u64,
    )))
}

/// Membership predicate of the move generator: `m` is a pseudo-legal move
/// for `side` on board `b` with castling rights `c`.
pub open spec fn pseudo_legal(b: Seq<u64>, c: Seq<bool>, side: Side, m: Move) -> bool {
    let o = side_offset(side);
    let f = side_mask(b, side);
    let e = side_mask(b, side.opposite_spec());
    let from = m.0 as int;
    &&& m.0 < 64
    &&& {
    ||| (bit(b[o], m.0 as u64) && pawn_move_ok(f, e, side, from, m))
    ||| (bit(b[o + 1], m.0 as u64) && knight_move_ok(f, from, m))
    ||| (bit(b[o + 2], m.0 as u64) && (ray_move_ok(f, e, from, -9, m) || ray_move_ok(
        f,
        e,
        from,
        -7,
        m,
    ) || ray_move_ok(f, e, from, 7, m) || ray_move_ok(f, e, from, 9, m)))
    ||| (bit(b[o + 3], m.0 as u64) && (ray_move_ok(f, e, from, -8, m) || ray_move_ok(
        f,
        e,
        from,
        -1,
        m,
    ) || ray_move_ok(f, e, from, 1, m) || ray_move_ok(f, e, from, 8, m)))
    ||| (bit(b[o + 4], m.0 as u64) && (ray_move_ok(f, e, from, -9, m) || ray_move_ok(
        f,
        e,
        from,
        -8,
        m,
    ) || ray_move_ok(f, e, from, -7, m) || ray_move_ok(f, e, from, -1, m) || ray_move_ok(
        f,
        e,
        from,
        1,
        m,
    ) || ray_move_ok(f, e, from, 7, m) || ray_move_ok(f, e, from, 8, m) || ray_move_ok(
        f,
        e,
        from,
        9,
        m,
    )))
    ||| (bit(b[o + 5], m.0 as u64) && (king_step_ok(f, from, m) || castle_move_ok(
        f | e,
        c,
        side,
        from,
        m,
    )))
    }
}

/// Push the four promotion variants of the move `from -> to`.
fn push_promotions(res: &mut Vec<Move>, from: u8, to: u8)
    ensures
        forall|m: Move| #[trigger]
            final(res)@.contains(m) <==> (old(res)@.contains(m) || (m.0 == from && m.1 == to
                && promo_choice_ok(m))),
        forall|m: Move| #[trigger]
            final(res)@.to_multiset().count(m) == old(res)@.to_multiset().count(m) + (if m.0
                == from && m.1 == to && promo_choice_ok(m) {
                1nat
            } else {
                0nat
            }),
{
    let ghost s0 = res@;
    res.push((from, to, Some('q')));
    proof {
        lemma_push_contains(s0, (from, to, Some('q')));
                lemma_push_count(s0, (from, to, Some('q')));
    }
    let ghost s1 = res@;
    res.push((from, to, Some('r')));
    proof {
        lemma_push_contains(s1, (from, to, Some('r')));
                lemma_push_count(s1, (from, to, Some('r')));
    }
    let ghost s2 = res@;
    res.push((from, to, Some('b')));
    proof {
        lemma_push_contains(s2, (from, to, Some('b')));
                lemma_push_count(s2, (from, to, Some('b')));
    }
    let ghost s3 = res@;
    res.push((from, to, Some('n')));
    proof {
        lemma_push_contains(s3, (from, to, Some('n')));
                lemma_push_count(s3, (from, to, Some('n')));
    }
}

/// Push the pseudo-legal pawn moves of a pawn of `side` standing on `sq`.
fn push_pawn_moves(res: &mut Vec<Move>, f: u64, e: u64, side: Side, sq: u8)
    requires
        sq < 64,
    ensures
        forall|m: Move| #[trigger]
            final(res)@.contains(m) <==> (old(res)@.contains(m) || pawn_move_ok(
                f,
                e,
                side,
                sq as int,
                m,
            )),
        forall|m: Move| #[trigger]
            final(res)@.to_multiset().count(m) == old(res)@.to_multiset().count(m) + (if
            pawn_move_ok(f, e, side, sq as int, m) {
                1nat
            } else {
                0nat
            }),
{
    let all = f | e;
    let fwd: i32 = if side == Side::White {
        8
    } else {
        -8
    };
    let fto: i32 = sq as i32 + fwd;
    if 0 <= fto && fto < 64 {
        let t = fto as u8;
        if all & (1u64 << (t as u64)) == 0 {
            let promo = if side == Side::White {
                t >= 56
            } else {
                t < 8
            };
            if promo {
                push_promotions(res, sq, t);
            } else {
                let ghost s0 = res@;
                res.push((sq, t, None));
                proof {
                    lemma_push_contains(s0, (sq, t, None));
                lemma_push_count(s0, (sq, t, None));
                }
                let on_start = if side == Side::White {
                    8 <= sq && sq < 16
                } else {
                    48 <= sq && sq < 56
                };
                if on_start {
                    let t2i: i32 = sq as i32 + 2 * fwd;
                    let t2 = t2i as u8;
                    if all & (1u64 << (t2 as u64)) == 0 {
                        let ghost s1 = res@;
                        res.push((sq, t2, None));
                        proof {
                            lemma_push_contains(s1, (sq, t2, None));
                lemma_push_count(s1, (sq, t2, None));
                        }
                    }
                }
            }
        }
    }
    if sq % 8 != 0 {
        let ti: i32 = sq as i32 + fwd - 1;
        if 0 <= ti && ti < 64 {
            let t = ti as u8;
            if e & (1u64 << (t as u64)) != 0 {
                let promo = if side == Side::White {
                    t >= 56
                } else {
                    t < 8
                };
                if promo {
                    push_promotions(res, sq, t);
                } else {
                    let ghost s2 = res@;
                    res.push((sq, t, None));
                    proof {
                        lemma_push_contains(s2, (sq, t, None));
                lemma_push_count(s2, (sq, t, None));
                    }
                }
            }
        }
    }
    if sq % 8 != 7 {
        let ti: i32 = sq as i32 + fwd + 1;
        if 0 <= ti && ti < 64 {
            let t = ti as u8;
            if e & (1u64 << (t as u64)) != 0 {
                let promo = if side == Side::White {
                    t >= 56
                } else {
                    t < 8
                };
                if promo {
                    push_promotions(res, sq, t);
                } else {
                    let ghost s3 = res@;
                    res.push((sq, t, None));
                    proof {
                        lemma_push_contains(s3, (sq, t, None));
                lemma_push_count(s3, (sq, t, None));
                    }
                }
            }
        }
    }
}

/// Push the move `sq -> sq + d` if the target square exists, the file
/// difference stays within `limit`, and the target is not friendly.
fn push_step_move(res: &mut Vec<Move>, f: u64, sq: u8, d: i32, limit: i32)
    requires
        sq < 64,
        -17 <= d <= 17,
        0 <= limit,
    ensures
        forall|m: Move| #[trigger]
            final(res)@.contains(m) <==> (old(res)@.contains(m) || step_move_ok(
                f,
                sq as int,
                d as int,
                limit as int,
                m,
            )),
        forall|m: Move| #[trigger]
            final(res)@.to_multiset().count(m) == old(res)@.to_multiset().count(m) + (if step_move_ok(f, sq as int, d as int, limit as int, m) {
                1nat
            } else {
                0nat
            }),
{
    let ti: i32 = sq as i32 + d;
    if 0 <= ti && ti < 64 {
        let t = ti as u8;
        let sf: i32 = (sq % 8) as i32;
        let tf: i32 = (t % 8) as i32;
        let fd: i32 = if sf >= tf {
            sf - tf
        } else {
            tf - sf
        };
        if fd <= limit && f & (1u64 << (t as u64)) == 0 {
            let ghost s0 = res@;
            res.push((sq, t, None));
            proof {
                lemma_push_contains(s0, (sq, t, None));
                lemma_push_count(s0, (sq, t, None));
            }
        }
    }
}

/// Push the pseudo-legal knight moves of a knight standing on `sq`.
fn push_knight_moves(res: &mut Vec<Move>, f: u64, sq: u8)
    requires
        sq < 64,
    ensures
        forall|m: Move| #[trigger]
            final(res)@.contains(m) <==> (old(res)@.contains(m) || knight_move_ok(
                f,
                sq as int,
                m,
            )),
        forall|m: Move| #[trigger]
            final(res)@.to_multiset().count(m) == old(res)@.to_multiset().count(m) + (if knight_move_ok(f, sq as int, m) {
                1nat
            } else {
                0nat
            }),
{
    push_step_move(res, f, sq, 6, 2);
    push_step_move(res, f, sq, 15, 2);
    push_step_move(res, f, sq, 17, 2);
    push_step_move(res, f, sq, 10, 2);
    push_step_move(res, f, sq, -10, 2);
    push_step_move(res, f, sq, -17, 2);
    push_step_move(res, f, sq, -15, 2);
    push_step_move(res, f, sq, -6, 2);
}

/// Push the pseudo-legal single-step king moves of a king standing on `sq`.
fn push_king_steps(res: &mut Vec<Move>, f: u64, sq: u8)
    requires
        sq < 64,
    ensures
        forall|m: Move| #[trigger]
            final(res)@.contains(m) <==> (old(res)@.contains(m) || king_step_ok(f, sq as int, m)),
        forall|m: Move| #[trigger]
            final(res)@.to_multiset().count(m) == old(res)@.to_multiset().count(m) + (if king_step_ok(f, sq as int, m) {
                1nat
            } else {
                0nat
            }),
{
    push_step_move(res, f, sq, -9, 1);
    push_step_move(res, f, sq, -8, 1);
    push_step_move(res, f, sq, -7, 1);
    push_step_move(res, f, sq, -1, 1);
    push_step_move(res, f, sq, 1, 1);
    push_step_move(res, f, sq, 7, 1);
    push_step_move(res, f, sq, 8, 1);
    push_step_move(res, f, sq, 9, 1);
}

/// Push the castling moves available to a king standing on `sq`.
fn push_castle_moves(res: &mut Vec<Move>, all: u64, castling: &[bool; 4], side: Side, sq: u8)
    requires
        sq < 64,
    ensures
        forall|m: Move| #[trigger]
            final(res)@.contains(m) <==> (old(res)@.contains(m) || castle_move_ok(
                all,
                castling@,
                side,
                sq as int,
                m,
            )),
        forall|m: Move| #[trigger]
            final(res)@.to_multiset().count(m) == old(res)@.to_multiset().count(m) + (if castle_move_ok(all, castling@, side, sq as int, m) {
                1nat
            } else {
                0nat
            }),
{
    let ks = if side == Side::White {
        castling[0]
    } else {
        castling[2]
    };
    let qs = if side == Side::White {
        castling[1]
    } else {
        castling[3]
    };
    if ks && sq < 62 {
        if all & (1u64 << ((sq + 1) as u64)) == 0 && all & (1u64 << ((sq + 2) as u64)) == 0 {
            let ghost s0 = res@;
            res.push((sq, sq + 2, None));
            proof {
                lemma_push_contains(s0, (sq, (sq + 2) as u8, None));
                lemma_push_count(s0, (sq, (sq + 2) as u8, None));
            }
        }
    }
    if qs && sq >= 3 {
        if all & (1u64 << ((sq - 1) as u64)) == 0 && all & (1u64 << ((sq - 2) as u64)) == 0 && all
            & (1u64 << ((sq - 3) as u64)) == 0 {
            let ghost s1 = res@;
            res.push((sq, sq - 2, None));
            proof {
                lemma_push_contains(s1, (sq, (sq - 2) as u8, None));
                lemma_push_count(s1, (sq, (sq - 2) as u8, None));
            }
        }
    }
}

/// Push the sliding moves along the single ray from `sq` in direction `d`:
/// one square at a time, stopping at a board edge or wrap, before a friendly
/// piece, or on an enemy piece (included as a capture).
fn push_ray_moves(res: &mut Vec<Move>, f: u64, e: u64, sq: u8, d: i32)
    requires
        sq < 64,
        d == -9 || d == -8 || d == -7 || d == -1 || d == 1 || d == 7 || d == 8 || d == 9,
    ensures
        forall|m: Move| #[trigger]
            final(res)@.contains(m) <==> (old(res)@.contains(m) || ray_move_ok(
                f,
                e,
                sq as int,
                d as int,
                m,
            )),
        forall|m: Move| #[trigger]
            final(res)@.to_multiset().count(m) == old(res)@.to_multiset().count(m) + (if ray_move_ok(f, e, sq as int, d as int, m) {
                1nat
            } else {
                0nat
            }),
{
    let fd: i32 = if d == -9 || d == -1 || d == 7 {
        -1
    } else if d == -7 || d == 1 || d == 9 {
        1
    } else {
        0
    };
    let mut cur: i32 = sq as i32;
    let mut fuel: u32 = 64;
    loop
        invariant_except_break
            forall|m: Move| #[trigger]
                res@.contains(m) <==> (old(res)@.contains(m) || (ray_move_ok(
                    f,
                    e,
                    sq as int,
                    d as int,
                    m,
                ) && !ray_reaches(f, e, cur as int, d as int, m.1 as int, fuel as nat))),
            forall|m: Move| #[trigger]
                res@.to_multiset().count(m) == old(res)@.to_multiset().count(m) + (if ray_move_ok(
                    f,
                    e,
                    sq as int,
                    d as int,
                    m,
                ) && !ray_reaches(f, e, cur as int, d as int, m.1 as int, fuel as nat) {
                    1nat
                } else {
                    0nat
                }),
        invariant
            sq < 64,
            d == -9 || d == -8 || d == -7 || d == -1 || d == 1 || d == 7 || d == 8 || d == 9,
            fd as int == file_delta(d as int),
            0 <= cur < 64,
            1 <= fuel <= 64,
            d > 0 ==> cur >= sq,
            d < 0 ==> cur <= sq,
            fuel as int >= 64 - iabs(cur - sq as int),
            forall|t: int|
                ray_reaches(f, e, cur as int, d as int, t, fuel as nat) ==> ray_reaches(
                    f,
                    e,
                    sq as int,
                    d as int,
                    t,
                    64,
                ),

        ensures
            forall|m: Move| #[trigger]
                res@.contains(m) <==> (old(res)@.contains(m) || ray_move_ok(
                    f,
                    e,
                    sq as int,
                    d as int,
                    m,
                )),
            forall|m: Move| #[trigger]
                res@.to_multiset().count(m) == old(res)@.to_multiset().count(m) + (if ray_move_ok(
                    f,
                    e,
                    sq as int,
                    d as int,
                    m,
                ) {
                    1nat
                } else {
                    0nat
                }),
        decreases fuel,
    {
        let nxt: i32 = cur + d;
        if !(0 <= nxt && nxt < 64 && nxt % 8 == cur % 8 + fd) {
            proof {
                assert(!ray_step_ok(cur as int, d as int));
            }
            break ;
        }
        let t = nxt as u8;
        if f & (1u64 << (t as u64)) != 0 {
            proof {
                assert forall|to: int| !ray_reaches(
                    f,
                    e,
                    cur as int,
                    d as int,
                    to,
                    fuel as nat,
                ) by {
                    assert(bit(f, (cur + d) as u64));
                }
            }
            break ;
        }
        let ghost s0 = res@;
        res.push((sq, t, None));
        proof {
            lemma_push_contains(s0, (sq, t, None));
                lemma_push_count(s0, (sq, t, None));
            // the move just pushed is reachable from the origin
            assert(ray_reaches(f, e, cur as int, d as int, nxt as int, fuel as nat));
            assert(ray_reaches(f, e, sq as int, d as int, nxt as int, 64));
            if ray_reaches(f, e, nxt as int, d as int, nxt as int, (fuel - 1) as nat) {
                lemma_ray_reaches_span(f, e, nxt as int, d as int, nxt as int, (fuel - 1) as nat);
                assert(false);
            }
        }
        if e & (1u64 << (t as u64)) != 0 {
            proof {
                assert forall|to: int|
                    ray_reaches(f, e, cur as int, d as int, to, fuel as nat) implies to
                    == nxt as int by {
                    assert(bit(e, (cur + d) as u64));
                }
                assert forall|m: Move| #[trigger]
                    res@.contains(m) <==> (old(res)@.contains(m) || ray_move_ok(
                        f,
                        e,
                        sq as int,
                        d as int,
                        m,
                    )) by {
                    if ray_move_ok(f, e, sq as int, d as int, m) && ray_reaches(
                        f,
                        e,
                        cur as int,
                        d as int,
                        m.1 as int,
                        fuel as nat,
                    ) {
                        assert(m.1 == t);
                        assert(m == (sq, t, None::<char>));
                    }
                }
                assert forall|m: Move| #[trigger]
                    res@.to_multiset().count(m) == old(res)@.to_multiset().count(m) + (if
                    ray_move_ok(f, e, sq as int, d as int, m) {
                        1nat
                    } else {
                        0nat
                    }) by {
                    assert(res@.to_multiset().count(m) == s0.to_multiset().count(m) + (if m == (
                        sq,
                        t,
                        None::<char>,
                    ) {
                        1nat
                    } else {
                        0nat
                    }));
                    if ray_move_ok(f, e, sq as int, d as int, m) && ray_reaches(
                        f,
                        e,
                        cur as int,
                        d as int,
                        m.1 as int,
                        fuel as nat,
                    ) {
                        assert(m == (sq, t, None::<char>));
                    }
                }
            }
            break ;
        }
        proof {
            // one step of the ray: what remains reachable from `nxt` is what
            // was reachable from `cur` minus the square just pushed
            assert forall|to: int|
                ray_reaches(f, e, nxt as int, d as int, to, (fuel - 1) as nat) implies ray_reaches(
                f,
                e,
                cur as int,
                d as int,
                to,
                fuel as nat,
            ) by {}
            assert forall|to: int|
                ray_reaches(f, e, cur as int, d as int, to, fuel as nat) && to != nxt as int
                    implies ray_reaches(f, e, nxt as int, d as int, to, (fuel - 1) as nat) by {}
            assert(iabs(nxt - sq as int) >= iabs(cur - sq as int) + 1);
            assert(iabs(nxt - sq as int) <= 63);
            assert(fuel >= 2);
            assert forall|m: Move| #[trigger]
                res@.to_multiset().count(m) == old(res)@.to_multiset().count(m) + (if ray_move_ok(
                    f,
                    e,
                    sq as int,
                    d as int,
                    m,
                ) && !ray_reaches(f, e, nxt as int, d as int, m.1 as int, (fuel - 1) as nat) {
                    1nat
                } else {
                    0nat
                }) by {
                assert(res@.to_multiset().count(m) == s0.to_multiset().count(m) + (if m == (
                    sq,
                    t,
                    None::<char>,
                ) {
                    1nat
                } else {
                    0nat
                }));
                if m == (sq, t, None::<char>) {
                    assert(ray_move_ok(f, e, sq as int, d as int, m));
                    assert(ray_reaches(f, e, cur as int, d as int, m.1 as int, fuel as nat));
                    assert(!ray_reaches(f, e, nxt as int, d as int, m.1 as int, (fuel - 1) as nat));
                } else {
                    if ray_move_ok(f, e, sq as int, d as int, m) {
                        if m.1 as int == nxt as int {
                            assert(m == (sq, t, None::<char>));
                        }
                    }
                }
            }
        }
        cur = nxt;
        fuel = fuel - 1;
    }
}

/// Along a ray, every reachable square lies strictly beyond the start in the
/// direction of travel, within the board, and is not friendly-occupied.
pub proof fn lemma_ray_reaches_span(f: u64, e: u64, pos: int, d: int, to: int, fuel: nat)
    requires
        ray_reaches(f, e, pos, d, to, fuel),
        d != 0,
    ensures
        d > 0 ==> pos + d <= to,
        d < 0 ==> to <= pos + d,
        0 <= to < 64,
        !bit(f, to as u64),
    decreases fuel,
{
    if !(to == pos + d && !bit(f, (pos + d) as u64)) || (!bit(f, (pos + d) as u64) && !bit(
        e,
        (pos + d) as u64,
    ) && ray_reaches(f, e, pos + d, d, to, (fuel - 1) as nat)) {
        if ray_reaches(f, e, pos + d, d, to, (fuel - 1) as nat) && !bit(f, (pos + d) as u64)
            && !bit(e, (pos + d) as u64) {
            lemma_ray_reaches_span(f, e, pos + d, d, to, (fuel - 1) as nat);
        }
    }
}

/// Multiplying by a factor of absolute value at most one, written out.
proof fn lemma_unit_product(k: int, u: int)
    requires
        -1 <= u <= 1,
    ensures
        u == 0 ==> k * u == 0,
        u == 1 ==> k * u == k,
        u == -1 ==> k * u == -k,
{
    assert(u == 0 ==> k * u == 0) by (nonlinear_arith);
    assert(u == 1 ==> k * u == k) by (nonlinear_arith);
    assert(u == -1 ==> k * u == -k) by (nonlinear_arith);
}

/// At most one ray direction from a square fits any given move: the file
/// and rank deltas of a ray determine its direction.
proof fn lemma_at_most_one_ray(f: u64, e: u64, from: int, m: Move)
    requires
        0 <= from < 64,
    ensures
        forall|d1: int, d2: int|
            (d1 == -9 || d1 == -8 || d1 == -7 || d1 == -1 || d1 == 1 || d1 == 7 || d1 == 8 || d1
                == 9) && (d2 == -9 || d2 == -8 || d2 == -7 || d2 == -1 || d2 == 1 || d2 == 7 || d2
                == 8 || d2 == 9) && d1 != d2 ==> !(#[trigger] ray_move_ok(f, e, from, d1, m)
                && #[trigger] ray_move_ok(f, e, from, d2, m)),
{
    assert forall|d1: int, d2: int|
        (d1 == -9 || d1 == -8 || d1 == -7 || d1 == -1 || d1 == 1 || d1 == 7 || d1 == 8 || d1 == 9)
            && (d2 == -9 || d2 == -8 || d2 == -7 || d2 == -1 || d2 == 1 || d2 == 7 || d2 == 8 || d2
            == 9) && d1 != d2 implies !(#[trigger] ray_move_ok(f, e, from, d1, m) && #[trigger]
        ray_move_ok(f, e, from, d2, m)) by {
        if ray_move_ok(f, e, from, d1, m) && ray_move_ok(f, e, from, d2, m) {
            lemma_ray_reaches_line(f, e, from, d1, m.1 as int, 64);
            lemma_ray_reaches_line(f, e, from, d2, m.1 as int, 64);
            let to = m.1 as int;
            let k1: int = choose|k: int|
                1 <= k && to == #[trigger] ray_sq(from, d1, k) && file_of(to) == file_of(from) + k
                    * file_delta(d1) && rank_of(to) == rank_of(from) + k * rank_delta(d1);
            let k2: int = choose|k: int|
                1 <= k && to == #[trigger] ray_sq(from, d2, k) && file_of(to) == file_of(from) + k
                    * file_delta(d2) && rank_of(to) == rank_of(from) + k * rank_delta(d2);
            lemma_unit_product(k1, file_delta(d1));
            lemma_unit_product(k1, rank_delta(d1));
            lemma_unit_product(k2, file_delta(d2));
            lemma_unit_product(k2, rank_delta(d2));
            assert(k1 * file_delta(d1) == k2 * file_delta(d2));
            assert(k1 * rank_delta(d1) == k2 * rank_delta(d2));
            assert(file_delta(d1) == file_delta(d2) && rank_delta(d1) == rank_delta(d2));
            assert(d1 == 8 * rank_delta(d1) + file_delta(d1));
            assert(d2 == 8 * rank_delta(d2) + file_delta(d2));
        }
    }
}

/// Push the sliding moves of a bishop standing on `sq`: its four diagonal rays.
fn push_bishop_moves(res: &mut Vec<Move>, f: u64, e: u64, sq: u8)
    requires
        sq < 64,
    ensures
        forall|m: Move| #[trigger]
            final(res)@.contains(m) <==> (old(res)@.contains(m) || ray_move_ok(f, e, sq as int, -9, m) || ray_move_ok(f, e, sq as int, -7, m) || ray_move_ok(f, e, sq as int, 7, m) || ray_move_ok(f, e, sq as int, 9, m)),
        forall|m: Move| #[trigger]
            final(res)@.to_multiset().count(m) == old(res)@.to_multiset().count(m) + (if ray_move_ok(f, e, sq as int, -9, m) || ray_move_ok(f, e, sq as int, -7, m) || ray_move_ok(f, e, sq as int, 7, m) || ray_move_ok(f, e, sq as int, 9, m) {
                1nat
            } else {
                0nat
            }),
{
    let ghost c0 = res@;
    push_ray_moves(res, f, e, sq, -9);
    let ghost c1 = res@;
    push_ray_moves(res, f, e, sq, -7);
    let ghost c2 = res@;
    push_ray_moves(res, f, e, sq, 7);
    let ghost c3 = res@;
    push_ray_moves(res, f, e, sq, 9);
    proof {
        assert forall|m: Move| #[trigger]
            res@.to_multiset().count(m) == c0.to_multiset().count(m) + (if ray_move_ok(f, e, sq as int, -9, m) || ray_move_ok(f, e, sq as int, -7, m) || ray_move_ok(f, e, sq as int, 7, m) || ray_move_ok(f, e, sq as int, 9, m) {
                1nat
            } else {
                0nat
            }) by {
            lemma_at_most_one_ray(f, e, sq as int, m);
            assert(c1.to_multiset().count(m) == c0.to_multiset().count(m) + (if ray_move_ok(
                f,
                e,
                sq as int,
                -9,
                m,
            ) {
                1nat
            } else {
                0nat
            }));
            assert(c2.to_multiset().count(m) == c1.to_multiset().count(m) + (if ray_move_ok(
                f,
                e,
                sq as int,
                -7,
                m,
            ) {
                1nat
            } else {
                0nat
            }));
            assert(c3.to_multiset().count(m) == c2.to_multiset().count(m) + (if ray_move_ok(
                f,
                e,
                sq as int,
                7,
                m,
            ) {
                1nat
            } else {
                0nat
            }));
            assert(res@.to_multiset().count(m) == c3.to_multiset().count(m) + (if ray_move_ok(
                f,
                e,
                sq as int,
                9,
                m,
            ) {
                1nat
            } else {
                0nat
            }));
        }
    }
}

/// Push the sliding moves of a rook standing on `sq`: its four straight rays.
fn push_rook_moves(res: &mut Vec<Move>, f: u64, e: u64, sq: u8)
    requires
        sq < 64,
    ensures
        forall|m: Move| #[trigger]
            final(res)@.contains(m) <==> (old(res)@.contains(m) || ray_move_ok(f, e, sq as int, -8, m) || ray_move_ok(f, e, sq as int, -1, m) || ray_move_ok(f, e, sq as int, 1, m) || ray_move_ok(f, e, sq as int, 8, m)),
        forall|m: Move| #[trigger]
            final(res)@.to_multiset().count(m) == old(res)@.to_multiset().count(m) + (if ray_move_ok(f, e, sq as int, -8, m) || ray_move_ok(f, e, sq as int, -1, m) || ray_move_ok(f, e, sq as int, 1, m) || ray_move_ok(f, e, sq as int, 8, m) {
                1nat
            } else {
                0nat
            }),
{
    let ghost c0 = res@;
    push_ray_moves(res, f, e, sq, -8);
    let ghost c1 = res@;
    push_ray_moves(res, f, e, sq, -1);
    let ghost c2 = res@;
    push_ray_moves(res, f, e, sq, 1);
    let ghost c3 = res@;
    push_ray_moves(res, f, e, sq, 8);
    proof {
        assert forall|m: Move| #[trigger]
            res@.to_multiset().count(m) == c0.to_multiset().count(m) + (if ray_move_ok(f, e, sq as int, -8, m) || ray_move_ok(f, e, sq as int, -1, m) || ray_move_ok(f, e, sq as int, 1, m) || ray_move_ok(f, e, sq as int, 8, m) {
                1nat
            } else {
                0nat
            }) by {
            lemma_at_most_one_ray(f, e, sq as int, m);
            assert(c1.to_multiset().count(m) == c0.to_multiset().count(m) + (if ray_move_ok(
                f,
                e,
                sq as int,
                -8,
                m,
            ) {
                1nat
            } else {
                0nat
            }));
            assert(c2.to_multiset().count(m) == c1.to_multiset().count(m) + (if ray_move_ok(
                f,
                e,
                sq as int,
                -1,
                m,
            ) {
                1nat
            } else {
                0nat
            }));
            assert(c3.to_multiset().count(m) == c2.to_multiset().count(m) + (if ray_move_ok(
                f,
                e,
                sq as int,
                1,
                m,
            ) {
                1nat
            } else {
                0nat
            }));
            assert(res@.to_multiset().count(m) == c3.to_multiset().count(m) + (if ray_move_ok(
                f,
                e,
                sq as int,
                8,
                m,
            ) {
                1nat
            } else {
                0nat
            }));
        }
    }
}

/// Push the sliding moves of a queen standing on `sq`: all eight rays.
#[verifier::rlimit(30)]
fn push_queen_moves(res: &mut Vec<Move>, f: u64, e: u64, sq: u8)
    requires
        sq < 64,
    ensures
        forall|m: Move| #[trigger]
            final(res)@.contains(m) <==> (old(res)@.contains(m) || ray_move_ok(f, e, sq as int, -9, m) || ray_move_ok(f, e, sq as int, -8, m) || ray_move_ok(f, e, sq as int, -7, m) || ray_move_ok(f, e, sq as int, -1, m) || ray_move_ok(f, e, sq as int, 1, m) || ray_move_ok(f, e, sq as int, 7, m) || ray_move_ok(f, e, sq as int, 8, m) || ray_move_ok(f, e, sq as int, 9, m)),
        forall|m: Move| #[trigger]
            final(res)@.to_multiset().count(m) == old(res)@.to_multiset().count(m) + (if ray_move_ok(f, e, sq as int, -9, m) || ray_move_ok(f, e, sq as int, -8, m) || ray_move_ok(f, e, sq as int, -7, m) || ray_move_ok(f, e, sq as int, -1, m) || ray_move_ok(f, e, sq as int, 1, m) || ray_move_ok(f, e, sq as int, 7, m) || ray_move_ok(f, e, sq as int, 8, m) || ray_move_ok(f, e, sq as int, 9, m) {
                1nat
            } else {
                0nat
            }),
{
    let ghost c0 = res@;
    push_ray_moves(res, f, e, sq, -9);
    let ghost c1 = res@;
    push_ray_moves(res, f, e, sq, -8);
    let ghost c2 = res@;
    push_ray_moves(res, f, e, sq, -7);
    let ghost c3 = res@;
    push_ray_moves(res, f, e, sq, -1);
    let ghost c4 = res@;
    push_ray_moves(res, f, e, sq, 1);
    let ghost c5 = res@;
    push_ray_moves(res, f, e, sq, 7);
    let ghost c6 = res@;
    push_ray_moves(res, f, e, sq, 8);
    let ghost c7 = res@;
    push_ray_moves(res, f, e, sq, 9);
    proof {
        assert forall|m: Move| #[trigger]
            res@.to_multiset().count(m) == c0.to_multiset().count(m) + (if ray_move_ok(f, e, sq as int, -9, m) || ray_move_ok(f, e, sq as int, -8, m) || ray_move_ok(f, e, sq as int, -7, m) || ray_move_ok(f, e, sq as int, -1, m) || ray_move_ok(f, e, sq as int, 1, m) || ray_move_ok(f, e, sq as int, 7, m) || ray_move_ok(f, e, sq as int, 8, m) || ray_move_ok(f, e, sq as int, 9, m) {
                1nat
            } else {
                0nat
            }) by {
            lemma_at_most_one_ray(f, e, sq as int, m);
            assert(c1.to_multiset().count(m) == c0.to_multiset().count(m) + (if ray_move_ok(
                f,
                e,
                sq as int,
                -9,
                m,
            ) {
                1nat
            } else {
                0nat
            }));
            assert(c2.to_multiset().count(m) == c1.to_multiset().count(m) + (if ray_move_ok(
                f,
                e,
                sq as int,
                -8,
                m,
            ) {
                1nat
            } else {
                0nat
            }));
            assert(c3.to_multiset().count(m) == c2.to_multiset().count(m) + (if ray_move_ok(
                f,
                e,
                sq as int,
                -7,
                m,
            ) {
                1nat
            } else {
                0nat
            }));
            assert(c4.to_multiset().count(m) == c3.to_multiset().count(m) + (if ray_move_ok(
                f,
                e,
                sq as int,
                -1,
                m,
            ) {
                1nat
            } else {
                0nat
            }));
            assert(c5.to_multiset().count(m) == c4.to_multiset().count(m) + (if ray_move_ok(
                f,
                e,
                sq as int,
                1,
                m,
            ) {
                1nat
            } else {
                0nat
            }));
            assert(c6.to_multiset().count(m) == c5.to_multiset().count(m) + (if ray_move_ok(
                f,
                e,
                sq as int,
                7,
                m,
            ) {
                1nat
            } else {
                0nat
            }));
            assert(c7.to_multiset().count(m) == c6.to_multiset().count(m) + (if ray_move_ok(
                f,
                e,
                sq as int,
                8,
                m,
            ) {
                1nat
            } else {
                0nat
            }));
            assert(res@.to_multiset().count(m) == c7.to_multiset().count(m) + (if ray_move_ok(
                f,
                e,
                sq as int,
                9,
                m,
            ) {
                1nat
            } else {
                0nat
            }));
        }
    }
}

/// Generate every pseudo-legal move for `side`: for each square holding one
/// of the side's pieces, the moves that piece kind allows from there.
pub fn generate_moves(boards: &[u64; 12], castling: &[bool; 4], side: Side) -> (moves: Vec<Move>)
    ensures
        forall|m: Move| #[trigger]
            moves@.contains(m) <==> pseudo_legal(boards@, castling@, side, m),
        forall|m: Move|
            m.2 is Some ==> #[trigger] moves@.to_multiset().count(m) == (if pseudo_legal(
                boards@,
                castling@,
                side,
                m,
            ) {
                1nat
            } else {
                0nat
            }),
        wf_boards(boards@) ==> forall|m: Move| #[trigger]
            moves@.to_multiset().count(m) == (if pseudo_legal(boards@, castling@, side, m) {
                1nat
            } else {
                0nat
            }),
{
    let o: usize = if side == Side::White {
        0
    } else {
        6
    };
    let eo: usize = 6 - o;
    let f = boards[o] | boards[o + 1] | boards[o + 2] | boards[o + 3] | boards[o + 4] | boards[o
        + 5];
    let e = boards[eo] | boards[eo + 1] | boards[eo + 2] | boards[eo + 3] | boards[eo + 4]
        | boards[eo + 5];
    proof {
        assert(f == side_mask(boards@, side));
        assert(e == side_mask(boards@, side.opposite_spec()));
    }
    let all = f | e;
    let mut moves: Vec<Move> = Vec::new();
    proof {
        moves@.to_multiset_ensures();
        assert(forall|m: Move| #[trigger] moves@.to_multiset().count(m) == 0nat);
    }
    let mut sq: u8 = 0;
    while sq < 64
        invariant
            sq <= 64,
            o == side_offset(side),
            f == side_mask(boards@, side),
            e == side_mask(boards@, side.opposite_spec()),
            all == f | e,
            forall|m: Move| #[trigger]
                moves@.contains(m) <==> (pseudo_legal(boards@, castling@, side, m) && (
                m.0 as int) < sq as int),
            forall|m: Move|
                m.2 is Some ==> #[trigger] moves@.to_multiset().count(m) == (if pseudo_legal(
                    boards@,
                    castling@,
                    side,
                    m,
                ) && (m.0 as int) < sq as int {
                    1nat
                } else {
                    0nat
                }),
            wf_boards(boards@) ==> forall|m: Move| #[trigger]
                moves@.to_multiset().count(m) == (if pseudo_legal(boards@, castling@, side, m) && (
                m.0 as int) < sq as int {
                    1nat
                } else {
                    0nat
                }),
        decreases 64 - sq,
    {
        let mask = 1u64 << (sq as u64);
        if boards[o] & mask != 0 {
            push_pawn_moves(&mut moves, f, e, side, sq);
        }
        if boards[o + 1] & mask != 0 {
            push_knight_moves(&mut moves, f, sq);
        }
        if boards[o + 2] & mask != 0 {
            push_bishop_moves(&mut moves, f, e, sq);
        }
        if boards[o + 3] & mask != 0 {
            push_rook_moves(&mut moves, f, e, sq);
        }
        if boards[o + 4] & mask != 0 {
            push_queen_moves(&mut moves, f, e, sq);
        }
        if boards[o + 5] & mask != 0 {
            push_king_steps(&mut moves, f, sq);
            push_castle_moves(&mut moves, all, castling, side, sq);
        }
        proof {
            if wf_boards(boards@) {
                assert forall|p: int, q: int| 0 <= p < q < 12 implies !(bit(
                    boards@[p],
                    sq as u64,
                ) && bit(boards@[q], sq as u64)) by {}
            }
        }
        sq = sq + 1;
    }
    moves
}

/// No generated move lands on a friendly-occupied square: on a well-formed
/// board, every pseudo-legal move's destination is free of the mover's own
/// pieces.
pub proof fn lemma_no_friendly_destination(b: Seq<u64>, c: Seq<bool>, side: Side, m: Move)
    requires
        wf_boards(b),
        pseudo_legal(b, c, side, m),
    ensures
        m.1 < 64,
        !side_at(b, side, m.1 as u64),
{
    let f = side_mask(b, side);
    let e = side_mask(b, side.opposite_spec());
    let from = m.0 as int;
    let to = m.1 as u64;
    lemma_bit_or(f, e, to);
    if bit(e, to) {
        lemma_wf_sides_disjoint(b, to);
    }
    if ray_move_ok(f, e, from, -9, m) {
        lemma_ray_reaches_span(f, e, from, -9, m.1 as int, 64);
    }
    if ray_move_ok(f, e, from, -8, m) {
        lemma_ray_reaches_span(f, e, from, -8, m.1 as int, 64);
    }
    if ray_move_ok(f, e, from, -7, m) {
        lemma_ray_reaches_span(f, e, from, -7, m.1 as int, 64);
    }
    if ray_move_ok(f, e, from, -1, m) {
        lemma_ray_reaches_span(f, e, from, -1, m.1 as int, 64);
    }
    if ray_move_ok(f, e, from, 1, m) {
        lemma_ray_reaches_span(f, e, from, 1, m.1 as int, 64);
    }
    if ray_move_ok(f, e, from, 7, m) {
        lemma_ray_reaches_span(f, e, from, 7, m.1 as int, 64);
    }
    if ray_move_ok(f, e, from, 8, m) {
        lemma_ray_reaches_span(f, e, from, 8, m.1 as int, 64);
    }
    if ray_move_ok(f, e, from, 9, m) {
        lemma_ray_reaches_span(f, e, from, 9, m.1 as int, 64);
    }
}

/// The square `k` steps along direction `d` from `pos`.
pub open spec fn ray_sq(pos: int, d: int, k: int) -> int {
    pos + k * d
}

/// Every square a ray reaches lies on the straight line through its origin:
/// after `k` steps the file has moved `k` file-deltas and the rank `k`
/// rank-deltas, so a ray can never jump across a board edge.
pub proof fn lemma_ray_reaches_line(f: u64, e: u64, pos: int, d: int, to: int, fuel: nat)
    requires
        ray_reaches(f, e, pos, d, to, fuel),
        d == -9 || d == -8 || d == -7 || d == -1 || d == 1 || d == 7 || d == 8 || d == 9,
        0 <= pos < 64,
    ensures
        exists|k: int|
            1 <= k && to == #[trigger] ray_sq(pos, d, k) && file_of(to) == file_of(pos) + k
                * file_delta(d) && rank_of(to) == rank_of(pos) + k * rank_delta(d),
    decreases fuel,
{
    let nxt = pos + d;
    assert(d == 8 * rank_delta(d) + file_delta(d));
    assert(pos == 8 * rank_of(pos) + file_of(pos)) by {
        vstd::arithmetic::div_mod::lemma_fundamental_div_mod(pos, 8);
    }
    assert(nxt == 8 * rank_of(nxt) + file_of(nxt)) by {
        vstd::arithmetic::div_mod::lemma_fundamental_div_mod(nxt, 8);
    }
    assert(rank_of(nxt) == rank_of(pos) + rank_delta(d));
    if !bit(f, nxt as u64) && !bit(e, nxt as u64) && ray_reaches(f, e, nxt, d, to, (fuel - 1) as nat) {
        lemma_ray_reaches_line(f, e, nxt, d, to, (fuel - 1) as nat);
        let k0: int = choose|k0: int|
            1 <= k0 && to == #[trigger] ray_sq(nxt, d, k0) && file_of(to) == file_of(nxt) + k0
                * file_delta(d) && rank_of(to) == rank_of(nxt) + k0 * rank_delta(d);
        assert((k0 + 1) * d == k0 * d + d) by (nonlinear_arith);
        assert((k0 + 1) * file_delta(d) == k0 * file_delta(d) + file_delta(d)) by (nonlinear_arith);
        assert((k0 + 1) * rank_delta(d) == k0 * rank_delta(d) + rank_delta(d)) by (nonlinear_arith);
        assert(1 <= k0 + 1 && to == ray_sq(pos, d, k0 + 1) && file_of(to) == file_of(pos) + (k0
            + 1) * file_delta(d) && rank_of(to) == rank_of(pos) + (k0 + 1) * rank_delta(d));
    } else {
        assert(to == nxt);
        assert(1 * d == d && 1 * file_delta(d) == file_delta(d) && 1 * rank_delta(d) == rank_delta(
            d,
        ));
        assert(1 <= 1 && to == ray_sq(pos, d, 1) && file_of(to) == file_of(pos) + 1 * file_delta(
            d,
        ) && rank_of(to) == rank_of(pos) + 1 * rank_delta(d));
    }
}

/// A generated sliding move keeps to its piece's lines: a bishop's move is
/// strictly diagonal, a rook's strictly straight, a queen's one or the
/// other — so no sliding move ever wraps from one rank edge to the other.
pub proof fn lemma_slider_moves_on_line(b: Seq<u64>, c: Seq<bool>, side: Side, m: Move)
    requires
        wf_boards(b),
        pseudo_legal(b, c, side, m),
    ensures
        bit(b[side_offset(side) + 2], m.0 as u64) ==> (iabs(
            file_of(m.1 as int) - file_of(m.0 as int),
        ) == iabs(rank_of(m.1 as int) - rank_of(m.0 as int)) && m.0 != m.1),
        bit(b[side_offset(side) + 3], m.0 as u64) ==> ((file_of(m.1 as int) == file_of(m.0 as int)
            || rank_of(m.1 as int) == rank_of(m.0 as int)) && m.0 != m.1),
        bit(b[side_offset(side) + 4], m.0 as u64) ==> ((iabs(
            file_of(m.1 as int) - file_of(m.0 as int),
        ) == iabs(rank_of(m.1 as int) - rank_of(m.0 as int)) || file_of(m.1 as int) == file_of(
            m.0 as int,
        ) || rank_of(m.1 as int) == rank_of(m.0 as int)) && m.0 != m.1),
{
    let o = side_offset(side);
    let f = side_mask(b, side);
    let e = side_mask(b, side.opposite_spec());
    let from = m.0 as int;
    let sq = m.0 as u64;
    if bit(b[o + 2], sq) || bit(b[o + 3], sq) || bit(b[o + 4], sq) {
        // the piece on the source square is unique, so only its own
        // disjunct of `pseudo_legal` can hold
        if bit(b[o], sq) && bit(b[o + 2], sq) {
            assert(false);
        }
        if bit(b[o], sq) && bit(b[o + 3], sq) {
            assert(false);
        }
        if bit(b[o], sq) && bit(b[o + 4], sq) {
            assert(false);
        }
        if bit(b[o + 1], sq) && bit(b[o + 2], sq) {
            assert(false);
        }
        if bit(b[o + 1], sq) && bit(b[o + 3], sq) {
            assert(false);
        }
        if bit(b[o + 1], sq) && bit(b[o + 4], sq) {
            assert(false);
        }
        if bit(b[o + 5], sq) && bit(b[o + 2], sq) {
            assert(false);
        }
        if bit(b[o + 5], sq) && bit(b[o + 3], sq) {
            assert(false);
        }
        if bit(b[o + 5], sq) && bit(b[o + 4], sq) {
            assert(false);
        }
        if bit(b[o + 2], sq) && bit(b[o + 3], sq) {
            assert(false);
        }
        if bit(b[o + 2], sq) && bit(b[o + 4], sq) {
            assert(false);
        }
        if bit(b[o + 3], sq) && bit(b[o + 4], sq) {
            assert(false);
        }
        if ray_move_ok(f, e, from, -9, m) {
            lemma_ray_reaches_line(f, e, from, -9, m.1 as int, 64);
        }
        if ray_move_ok(f, e, from, -8, m) {
            lemma_ray_reaches_line(f, e, from, -8, m.1 as int, 64);
        }
        if ray_move_ok(f, e, from, -7, m) {
            lemma_ray_reaches_line(f, e, from, -7, m.1 as int, 64);
        }
        if ray_move_ok(f, e, from, -1, m) {
            lemma_ray_reaches_line(f, e, from, -1, m.1 as int, 64);
        }
        if ray_move_ok(f, e, from, 1, m) {
            lemma_ray_reaches_line(f, e, from, 1, m.1 as int, 64);
        }
        if ray_move_ok(f, e, from, 7, m) {
            lemma_ray_reaches_line(f, e, from, 7, m.1 as int, 64);
        }
        if ray_move_ok(f, e, from, 8, m) {
            lemma_ray_reaches_line(f, e, from, 8, m.1 as int, 64);
        }
        if ray_move_ok(f, e, from, 9, m) {
            lemma_ray_reaches_line(f, e, from, 9, m.1 as int, 64);
        }
    }
}

/// A pawn move onto the far rank exists with one promotion kind exactly
/// when it exists with each of the other three, and never as a plain move:
/// the generator emits it once per kind {queen, rook, bishop, knight}.
pub proof fn lemma_promotion_emitted_four_ways(
    b: Seq<u64>,
    c: Seq<bool>,
    side: Side,
    from: u8,
    to: u8,
)
    requires
        wf_boards(b),
        from < 64,
        to < 64,
        bit(b[side_offset(side)], from as u64),
        rank_of(to as int) == promotion_rank(side),
    ensures
        pseudo_legal(b, c, side, (from, to, Some('q'))) == pseudo_legal(
            b,
            c,
            side,
            (from, to, Some('r')),
        ),
        pseudo_legal(b, c, side, (from, to, Some('q'))) == pseudo_legal(
            b,
            c,
            side,
            (from, to, Some('b')),
        ),
        pseudo_legal(b, c, side, (from, to, Some('q'))) == pseudo_legal(
            b,
            c,
            side,
            (from, to, Some('n')),
        ),
        !pseudo_legal(b, c, side, (from, to, None)),
{
    let o = side_offset(side);
    let sq = from as u64;
    // the pawn on `from` excludes every other piece from that square
    if bit(b[o + 1], sq) {
        assert(false);
    }
    if bit(b[o + 2], sq) {
        assert(false);
    }
    if bit(b[o + 3], sq) {
        assert(false);
    }
    if bit(b[o + 4], sq) {
        assert(false);
    }
    if bit(b[o + 5], sq) {
        assert(false);
    }
}

} // verus!
