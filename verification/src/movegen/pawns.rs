use crate::types::bitboard::Bitboard;
use vstd::prelude::*;

verus! {

/// Every pawn of the set moved one rank ahead at once, without the squares that the
/// mover's own pieces take.
pub fn setwise_pawns(our_pawns: Bitboard, us: Bitboard, stm: u8) -> (r: Bitboard)
    ensures
        stm == 0 ==> forall|t: int|
            #[trigger] r.contains(t) == (9 <= t < 128 && our_pawns.contains(t - 9) && !us.contains(
                t,
            )),
        stm != 0 ==> forall|t: int|
            #[trigger] r.contains(t) == (0 <= t < 128 && our_pawns.contains(t + 9) && !us.contains(
                t,
            )),
{
    if stm == 0 {
        our_pawns.shl(9).bitand(us.not())
    } else {
        our_pawns.shr(9).bitand(us.not())
    }
}

} // verus!
