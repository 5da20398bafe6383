
use crate::movegen::classical::{
    bishop_reach, get_bishop_attacks_internal, get_lance_attacks_internal,
    get_rook_attacks_internal, lance_reach, rook_reach,
};
use crate::types::bitboard::Bitboard;
use crate::types::square::Square;
use vstd::prelude::*;

verus! {

/// The squares that a rook on `sq` attacks, from the ray-scanning backend.
pub fn get_rook_attacks(sq: Square, occ: Bitboard) -> (r: Bitboard)
    requires
        sq.valid(),
    ensures
        forall|t: int| #[trigger] r.contains(t) == rook_reach(sq@, occ, t),
{
    get_rook_attacks_internal(sq, occ)
}

/// The squares that a bishop on `sq` attacks, from the ray-scanning backend.
pub fn get_bishop_attacks(sq: Square, occ: Bitboard) -> (r: Bitboard)
    requires
        sq.valid(),
    ensures
        forall|t: int| #[trigger] r.contains(t) == bishop_reach(sq@, occ, t),
{
    get_bishop_attacks_internal(sq, occ)
}

/// The squares that a lance of `stm` on `sq` attacks, from the ray-scanning backend.
pub fn get_lance_attacks(sq: Square, occ: Bitboard, stm: u8) -> (r: Bitboard)
    requires
        sq.valid(),
    ensures
        forall|t: int| #[trigger] r.contains(t) == lance_reach(stm as int, sq@, occ, t),
{
    get_lance_attacks_internal(sq, occ, stm)
}

} // verus!
