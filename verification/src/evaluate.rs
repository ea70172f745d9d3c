//! The material evaluator: a weighted piece count, positive favoring white.

use vstd::prelude::*;

use crate::board::bit;

verus! {

/// Number of set bits among the lowest `n` bits of `x`.
pub open spec fn pop_upto(x: u64, n: int) -> int
    decreases n,
{
    if n <= 0 {
        0
    } else {
        pop_upto(x, n - 1) + if bit(x, (n - 1) as u64) {
            1int
        } else {
            0int
        }
    }
}

/// Number of set bits of a mask.
pub open spec fn popcount(x: u64) -> int {
    pop_upto(x, 64)
}

/// Material weight of piece kind `i` (pawn, knight, bishop, rook, queen, king).
pub open spec fn piece_value(i: int) -> int {
    if i == 0 {
        1
    } else if i == 1 || i == 2 {
        3
    } else if i == 3 {
        5
    } else if i == 4 {
        9
    } else {
        0
    }
}

/// Weighted material balance over the first `n` piece kinds.
pub open spec fn eval_upto(b: Seq<u64>, n: int) -> int
    decreases n,
{
    if n <= 0 {
        0
    } else {
        eval_upto(b, n - 1) + piece_value(n - 1) * (popcount(b[n - 1]) - popcount(b[n - 1 + 6]))
    }
}

/// The board's material score: for each piece kind, its weight times the
/// difference between white's and black's piece counts.
pub open spec fn eval_spec(b: Seq<u64>) -> int {
    eval_upto(b, 6)
}

/// `pop_upto` is bounded by the number of bits counted.
pub proof fn lemma_pop_upto_bounds(x: u64, n: int)
    requires
        n >= 0,
    ensures
        0 <= pop_upto(x, n) <= n,
    decreases n,
{
    if n > 0 {
        lemma_pop_upto_bounds(x, n - 1);
    }
}

/// The material balance lies within plus or minus 1344, the weight sum 21
/// times the 64 squares.
pub proof fn lemma_eval_upto_bounds(b: Seq<u64>, n: int)
    requires
        0 <= n <= 6,
    ensures
        -1344 <= eval_upto(b, n) <= 1344,
        crate::board::iabs(eval_upto(b, n)) <= 64 * (if n <= 0 {
            0int
        } else if n == 1 {
            1int
        } else if n == 2 {
            4int
        } else if n == 3 {
            7int
        } else if n == 4 {
            12int
        } else {
            21int
        }),
    decreases n,
{
    if n > 0 {
        lemma_eval_upto_bounds(b, n - 1);
        lemma_pop_upto_bounds(b[n - 1], 64);
        lemma_pop_upto_bounds(b[n - 1 + 6], 64);
        let dv = popcount(b[n - 1]) - popcount(b[n - 1 + 6]);
        assert(-64 <= dv && dv <= 64);
        if n == 1 {
            assert(eval_upto(b, 1) == eval_upto(b, 0) + 1 * dv);
        } else if n == 2 {
            assert(eval_upto(b, 2) == eval_upto(b, 1) + 3 * dv);
        } else if n == 3 {
            assert(eval_upto(b, 3) == eval_upto(b, 2) + 3 * dv);
        } else if n == 4 {
            assert(eval_upto(b, 4) == eval_upto(b, 3) + 5 * dv);
        } else if n == 5 {
            assert(eval_upto(b, 5) == eval_upto(b, 4) + 9 * dv);
        } else {
            assert(eval_upto(b, 6) == eval_upto(b, 5) + 0 * dv);
        }
    }
}

/// Count the set bits of a mask.
fn count_bits(x: u64) -> (c: u32)
    ensures
        c as int == popcount(x),
{
    let mut c: u32 = 0;
    let mut i: u64 = 0;
    while i < 64
        invariant
            i <= 64,
            c as int == pop_upto(x, i as int),
        decreases 64 - i,
    {
        proof {
            lemma_pop_upto_bounds(x, i as int);
        }
        if x & (1u64 << i) != 0 {
            c = c + 1;
        }
        i = i + 1;
    }
    c
}

/// Score a board by material: each piece kind's weight times the difference
/// between the white and black piece counts, summed over all six kinds.
pub fn evaluate(boards: &[u64; 12]) -> (score: i32)
    ensures
        score as int == eval_spec(boards@),
        -1344 <= score <= 1344,
{
    let mut score: i32 = 0;
    let mut i: usize = 0;
    while i < 6
        invariant
            i <= 6,
            score as int == eval_upto(boards@, i as int),
            -1344 <= score <= 1344,
        decreases 6 - i,
    {
        proof {
            lemma_eval_upto_bounds(boards@, i as int);
            lemma_eval_upto_bounds(boards@, i as int + 1);
            lemma_pop_upto_bounds(boards@[i as int], 64);
            lemma_pop_upto_bounds(boards@[i as int + 6], 64);
        }
        let white_pieces = count_bits(boards[i]) as i32;
        let black_pieces = count_bits(boards[i + 6]) as i32;
        let value: i32 = if i == 0 {
            1
        } else if i == 1 || i == 2 {
            3
        } else if i == 3 {
            5
        } else if i == 4 {
            9
        } else {
            0
        };
        score = score + value * (white_pieces - black_pieces);
        i = i + 1;
    }
    score
}

} // verus!
