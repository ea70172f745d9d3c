//! The data model: squares, sides, moves, bitboards and their invariant.
//!
//! A board state is twelve 64-bit occupancy masks, one bit per square
//! (index 0 = a1 .. 63 = h8, file-major within rank). Masks 0..5 hold the
//! white {pawns, knights, bishops, rooks, queens, king}; masks 6..11 hold
//! the black pieces in the same order.

use vstd::prelude::*;

verus! {

/// The two players.
#[derive(Clone, Copy, PartialEq, Eq, Structural, Debug)]
pub enum Side {
    White,
    Black,
}

/// A move: source square, destination square, and an optional promotion
/// piece kind ('q', 'r', 'b' or 'n').
pub type Move = (u8, u8, Option<char>);

impl Side {
    /// The opposing side.
    pub open spec fn opposite_spec(self) -> Side {
        match self {
            Side::White => Side::Black,
            Side::Black => Side::White,
        }
    }

    /// The opposing side.
    pub fn opposite(self) -> (r: Side)
        ensures
            r == self.opposite_spec(),
    {
        match self {
            Side::White => Side::Black,
            Side::Black => Side::White,
        }
    }
}

/// Index of a side's first bitboard among the twelve.
pub open spec fn side_offset(side: Side) -> int {
    match side {
        Side::White => 0,
        Side::Black => 6,
    }
}

/// Whether square `sq` is set in mask `b`.
pub open spec fn bit(b: u64, sq: u64) -> bool
    recommends
        sq < 64,
{
    b & (1u64 << sq) != 0
}

/// File (column) of a square index: 0 = file a .. 7 = file h.
pub open spec fn file_of(sq: int) -> int {
    sq % 8
}

/// Rank (row) of a square index: 0 = rank 1 .. 7 = rank 8.
pub open spec fn rank_of(sq: int) -> int {
    sq / 8
}

/// Absolute value.
pub open spec fn iabs(x: int) -> int {
    if x < 0 {
        -x
    } else {
        x
    }
}

/// All squares holding a piece of `side`, as one mask.
pub open spec fn side_mask(b: Seq<u64>, side: Side) -> u64 {
    let o: int = side_offset(side);
    b[o] | b[o + 1] | b[o + 2] | b[o + 3] | b[o + 4] | b[o + 5]
}

/// Whether a piece of `side` stands on `sq`.
pub open spec fn side_at(b: Seq<u64>, side: Side, sq: u64) -> bool {
    bit(side_mask(b, side), sq)
}

/// Board invariant: twelve masks, and no square set in two of them.
pub open spec fn wf_boards(b: Seq<u64>) -> bool {
    &&& b.len() == 12
    &&& forall|p: int, q: int, sq: u64|
        0 <= p < q < 12 && sq < 64 ==> !(#[trigger] bit(b[p], sq) && #[trigger] bit(b[q], sq))
}

/// A set bit of `x | y` is a set bit of `x` or of `y`.
pub proof fn lemma_bit_or(x: u64, y: u64, sq: u64)
    requires
        sq < 64,
    ensures
        bit(x | y, sq) == (bit(x, sq) || bit(y, sq)),
{
    assert(((x | y) & (1u64 << sq) != 0) == (x & (1u64 << sq) != 0 || y & (1u64 << sq) != 0))
        by (bit_vector);
}

/// Clearing bit `i` leaves every other bit as it was and bit `i` unset.
pub proof fn lemma_bit_clear(x: u64, i: u64, sq: u64)
    requires
        i < 64,
        sq < 64,
    ensures
        bit(x & !(1u64 << i), sq) == (sq != i && bit(x, sq)),
{
    assert(((x & !(1u64 << i)) & (1u64 << sq) != 0) == (sq != i && x & (1u64 << sq) != 0))
        by (bit_vector)
        requires
            i < 64,
            sq < 64,
    ;
}

/// Setting bit `i` leaves every other bit as it was and bit `i` set.
pub proof fn lemma_bit_set(x: u64, i: u64, sq: u64)
    requires
        i < 64,
        sq < 64,
    ensures
        bit(x | (1u64 << i), sq) == (sq == i || bit(x, sq)),
{
    assert(((x | (1u64 << i)) & (1u64 << sq) != 0) == (sq == i || x & (1u64 << sq) != 0))
        by (bit_vector)
        requires
            i < 64,
            sq < 64,
    ;
}

/// A side's mask has a square set exactly when one of its six piece masks
/// has it set.
pub proof fn lemma_side_at_piece(b: Seq<u64>, side: Side, sq: u64)
    requires
        b.len() == 12,
        sq < 64,
    ensures
        side_at(b, side, sq) == exists|p: int|
            side_offset(side) <= p < side_offset(side) + 6 && bit(#[trigger] b[p], sq),
{
    let o: int = side_offset(side);
    lemma_bit_or(b[o], b[o + 1], sq);
    lemma_bit_or(b[o] | b[o + 1], b[o + 2], sq);
    lemma_bit_or(b[o] | b[o + 1] | b[o + 2], b[o + 3], sq);
    lemma_bit_or(b[o] | b[o + 1] | b[o + 2] | b[o + 3], b[o + 4], sq);
    lemma_bit_or(b[o] | b[o + 1] | b[o + 2] | b[o + 3] | b[o + 4], b[o + 5], sq);
    if side_at(b, side, sq) {
        assert(bit(b[o], sq) || bit(b[o + 1], sq) || bit(b[o + 2], sq) || bit(b[o + 3], sq)
            || bit(b[o + 4], sq) || bit(b[o + 5], sq));
    }
}

/// On a well-formed board no square holds pieces of both sides.
pub proof fn lemma_wf_sides_disjoint(b: Seq<u64>, sq: u64)
    requires
        wf_boards(b),
        sq < 64,
    ensures
        !(side_at(b, Side::White, sq) && side_at(b, Side::Black, sq)),
{
    lemma_side_at_piece(b, Side::White, sq);
    lemma_side_at_piece(b, Side::Black, sq);
    if side_at(b, Side::White, sq) && side_at(b, Side::Black, sq) {
        let p: int = choose|p: int| 0 <= p < 6 && bit(#[trigger] b[p], sq);
        let q: int = choose|q: int| 6 <= q < 12 && bit(#[trigger] b[q], sq);
        assert(!(bit(b[p], sq) && bit(b[q], sq)));
    }
}

/// Appending to a sequence adds exactly the appended element.
pub proof fn lemma_push_contains<A>(s: Seq<A>, v: A)
    ensures
        forall|m: A| #[trigger] s.push(v).contains(m) <==> (s.contains(m) || m == v),
{
    assert forall|m: A| #[trigger] s.push(v).contains(m) implies (s.contains(m) || m == v) by {
        let i: int = choose|i: int| 0 <= i < s.push(v).len() && s.push(v)[i] == m;
        if i < s.len() {
            assert(s[i] == m);
        }
    }
    assert forall|m: A| (s.contains(m) || m == v) implies #[trigger] s.push(v).contains(m) by {
        if s.contains(m) {
            let i: int = choose|i: int| 0 <= i < s.len() && s[i] == m;
            assert(s.push(v)[i] == m);
        } else {
            assert(s.push(v)[s.len() as int] == m);
        }
    }
}

/// Appending to a sequence raises the appended element's multiplicity by
/// one and leaves every other multiplicity unchanged.
pub proof fn lemma_push_count<A>(s: Seq<A>, v: A)
    ensures
        forall|m: A| #[trigger]
            s.push(v).to_multiset().count(m) == s.to_multiset().count(m) + (if m == v {
                1nat
            } else {
                0nat
            }),
{
    broadcast use vstd::multiset::group_multiset_axioms;

    s.to_multiset_ensures();
    assert(s.push(v).to_multiset() =~= s.to_multiset().insert(v));
}

} // verus!
