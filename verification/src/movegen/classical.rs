use crate::movegen::lookups::{on_ray, ray_mask};
use crate::types::bitboard::Bitboard;
use crate::types::square::Square;
use vstd::prelude::*;

verus! {

/// Whether a slider on `sq` attacks `t` along direction `dir` when the squares of `occ`
/// are taken: `t` lies on the ray, and no square of the ray before `t` is taken. The
/// square `t` itself may be taken: the slider attacks the first piece in its way.
pub open spec fn slide_hits(dir: int, sq: int, occ: Bitboard, t: int) -> bool {
    &&& on_ray(dir, sq, t)
    &&& forall|b: int|
        on_ray(dir, sq, b) && on_ray(dir, b, t) ==> !#[trigger] occ.contains(b)
}

/// Whether a rook on `sq` attacks `t`.
pub open spec fn rook_reach(sq: int, occ: Bitboard, t: int) -> bool {
    slide_hits(0, sq, occ, t) || slide_hits(1, sq, occ, t) || slide_hits(2, sq, occ, t)
        || slide_hits(3, sq, occ, t)
}

/// Whether a bishop on `sq` attacks `t`.
pub open spec fn bishop_reach(sq: int, occ: Bitboard, t: int) -> bool {
    slide_hits(4, sq, occ, t) || slide_hits(5, sq, occ, t) || slide_hits(6, sq, occ, t)
        || slide_hits(7, sq, occ, t)
}

/// Whether a lance of `side` on `sq` attacks `t`: it slides straight ahead.
pub open spec fn lance_reach(side: int, sq: int, occ: Bitboard, t: int) -> bool {
    if side == 0 {
        slide_hits(0, sq, occ, t)
    } else {
        slide_hits(1, sq, occ, t)
    }
}

/// The squares that a slider on `sq` attacks in one direction: the ray to the edge of the
/// board, cut behind the nearest taken square.
pub fn slide_attacks(dir: u8, sq: Square, occ: Bitboard) -> (r: Bitboard)
    requires
        sq.valid(),
        dir < 8,
    ensures
        forall|t: int| #[trigger] r.contains(t) == slide_hits(dir as int, sq@, occ, t),
{
    let ray = ray_mask(dir, sq);
    let blockers = ray.bitand(occ);
    if blockers.is_not_empty() {
        let nearest: u8 = if dir == 0 || dir == 3 || dir == 4 || dir == 6 {
            blockers.lsb()
        } else {
            blockers.msb()
        };
        let tail = ray_mask(dir, Square(nearest));
        let out = ray.bitxor(tail);
        proof {
            let d = dir as int;
            let n = nearest as int;
            assert forall|t: int| #[trigger] out.contains(t) == slide_hits(d, sq@, occ, t) by {
                if on_ray(d, sq@, t) && !on_ray(d, n, t) {
                    assert forall|b: int| on_ray(d, sq@, b) && on_ray(d, b, t) implies !occ.contains(
                        b,
                    ) by {
                        if occ.contains(b) {
                            assert(blockers.contains(b));
                        }
                    }
                }
            }
        }
        out
    } else {
        proof {
            assert forall|t: int| #[trigger] ray.contains(t) == slide_hits(dir as int, sq@, occ, t) by {
                if on_ray(dir as int, sq@, t) {
                    assert forall|b: int| on_ray(dir as int, sq@, b) implies !occ.contains(b) by {
                        assert(!blockers.contains(b));
                    }
                }
            }
        }
        ray
    }
}

/// The squares that a rook on `sq` attacks, by scanning its four rays.
pub fn get_rook_attacks_internal(sq: Square, occ: Bitboard) -> (r: Bitboard)
    requires
        sq.valid(),
    ensures
        forall|t: int| #[trigger] r.contains(t) == rook_reach(sq@, occ, t),
{
    let mut total_attacks = Bitboard(0);
    let mut dir: u8 = 0;
    proof {
        crate::bits::lemma_set_zero();
    }
    while dir < 4
        invariant
            sq.valid(),
            dir <= 4,
            forall|t: int| #[trigger]
                total_attacks.contains(t) == ((dir > 0 && slide_hits(0, sq@, occ, t)) || (dir > 1
                    && slide_hits(1, sq@, occ, t)) || (dir > 2 && slide_hits(2, sq@, occ, t)) || (
                dir > 3 && slide_hits(3, sq@, occ, t))),
        decreases 4 - dir,
    {
        let adjusted_attack = slide_attacks(dir, sq, occ);
        total_attacks = total_attacks.bitor(adjusted_attack);
        dir += 1;
    }
    total_attacks
}

/// The squares that a bishop on `sq` attacks, by scanning its four rays.
pub fn get_bishop_attacks_internal(sq: Square, occ: Bitboard) -> (r: Bitboard)
    requires
        sq.valid(),
    ensures
        forall|t: int| #[trigger] r.contains(t) == bishop_reach(sq@, occ, t),
{
    let mut total_attacks = Bitboard(0);
    let mut dir: u8 = 4;
    proof {
        crate::bits::lemma_set_zero();
    }
    while dir < 8
        invariant
            sq.valid(),
            4 <= dir <= 8,
            forall|t: int| #[trigger]
                total_attacks.contains(t) == ((dir > 4 && slide_hits(4, sq@, occ, t)) || (dir > 5
                    && slide_hits(5, sq@, occ, t)) || (dir > 6 && slide_hits(6, sq@, occ, t)) || (
                dir > 7 && slide_hits(7, sq@, occ, t))),
        decreases 8 - dir,
    {
        let adjusted_attack = slide_attacks(dir, sq, occ);
        total_attacks = total_attacks.bitor(adjusted_attack);
        dir += 1;
    }
    total_attacks
}

/// The squares that a lance of `stm` on `sq` attacks, by scanning its one ray.
pub fn get_lance_attacks_internal(sq: Square, occ: Bitboard, stm: u8) -> (r: Bitboard)
    requires
        sq.valid(),
    ensures
        forall|t: int| #[trigger] r.contains(t) == lance_reach(stm as int, sq@, occ, t),
{
    let dir: u8 = if stm == 0 {
        0
    } else {
        1
    };
    slide_attacks(dir, sq, occ)
}

} // verus!
