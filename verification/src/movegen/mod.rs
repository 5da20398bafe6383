pub mod classical;
pub mod lookups;
pub mod magic;
pub mod pawns;
pub mod pext;
pub mod slideys;

use crate::movegen::classical::{bishop_reach, lance_reach, rook_reach};
use crate::movegen::lookups::{
    get_gold_attacks_internal, get_king_attacks_internal, get_knight_attacks_internal,
    get_silver_attacks_internal, gold_reach, king_reach, knight_reach, silver_reach,
};
use crate::types::bitboard::Bitboard;
use crate::types::square::Square;
use vstd::prelude::*;

verus! {

/// The squares that a rook on `sq` attacks when the squares of `occ` are taken.
pub fn get_rook_attacks(sq: Square, occ: Bitboard) -> (r: Bitboard)
    requires
        sq.valid(),
    ensures
        forall|t: int| #[trigger] r.contains(t) == rook_reach(sq@, occ, t),
{
    slideys::get_rook_attacks(sq, occ)
}

/// The squares that a bishop on `sq` attacks when the squares of `occ` are taken.
pub fn get_bishop_attacks(sq: Square, occ: Bitboard) -> (r: Bitboard)
    requires
        sq.valid(),
    ensures
        forall|t: int| #[trigger] r.contains(t) == bishop_reach(sq@, occ, t),
{
    slideys::get_bishop_attacks(sq, occ)
}

/// The squares that a lance of `stm` on `sq` attacks when the squares of `occ` are taken.
pub fn get_lance_attacks(sq: Square, occ: Bitboard, stm: u8) -> (r: Bitboard)
    requires
        sq.valid(),
    ensures
        forall|t: int| #[trigger] r.contains(t) == lance_reach(stm as int, sq@, occ, t),
{
    slideys::get_lance_attacks(sq, occ, stm)
}

/// The squares that a king on `sq` attacks.
pub fn get_king_attacks(sq: Square) -> (r: Bitboard)
    requires
        sq.valid(),
    ensures
        forall|t: int| #[trigger] r.contains(t) == king_reach(sq@, t),
{
    get_king_attacks_internal(sq)
}

/// The squares that a knight of `stm` on `sq` attacks.
pub fn get_knight_attacks(sq: Square, stm: u8) -> (r: Bitboard)
    requires
        sq.valid(),
        stm < 2,
    ensures
        forall|t: int| #[trigger] r.contains(t) == knight_reach(stm as int, sq@, t),
{
    get_knight_attacks_internal(sq, stm)
}

/// The squares that a silver of `stm` on `sq` attacks.
pub fn get_silver_attacks(sq: Square, stm: u8) -> (r: Bitboard)
    requires
        sq.valid(),
        stm < 2,
    ensures
        forall|t: int| #[trigger] r.contains(t) == silver_reach(stm as int, sq@, t),
{
    get_silver_attacks_internal(sq, stm)
}

/// The squares that a gold of `stm` on `sq`, or a piece that moves like one, attacks.
pub fn get_gold_attacks(sq: Square, stm: u8) -> (r: Bitboard)
    requires
        sq.valid(),
        stm < 2,
    ensures
        forall|t: int| #[trigger] r.contains(t) == gold_reach(stm as int, sq@, t),
{
    get_gold_attacks_internal(sq, stm)
}

/// Every pawn of the set moved one rank ahead at once: up for the first player, down for
/// the second. A pawn on the last rank of the board leaves it.
pub fn setwise_pawns(our_pawns: Bitboard, stm: u8) -> (r: Bitboard)
    ensures
        stm == 0 ==> forall|t: int|
            #[trigger] r.contains(t) == (9 <= t < 128 && our_pawns.contains(t - 9)),
        stm != 0 ==> forall|t: int| #[trigger] r.contains(t) == (0 <= t && our_pawns.contains(t + 9)),
{
    if stm == 0 {
        our_pawns.shl(9)
    } else {
        our_pawns.shr(9)
    }
}

} // verus!
