use crate::types::bitboard::Bitboard;
use crate::types::square::{file_of, on_board, rank_of, rf_on_board, Square};
use vstd::prelude::*;

verus! {

/// The rank step of one of the eight directions: up, down, left, right, up-right,
/// down-right, up-left, down-left, in this order. "Up" is towards rank 8.
pub open spec fn dir_dr(dir: int) -> int {
    if dir == 0 || dir == 4 || dir == 6 {
        1
    } else if dir == 1 || dir == 5 || dir == 7 {
        -1
    } else {
        0
    }
}

/// The file step of one of the eight directions. "Right" is towards file 8.
pub open spec fn dir_df(dir: int) -> int {
    if dir == 3 || dir == 4 || dir == 5 {
        1
    } else if dir == 2 || dir == 6 || dir == 7 {
        -1
    } else {
        0
    }
}

/// `k` steps of size `d`, for a step of -1, 0 or 1.
pub open spec fn scale(k: int, d: int) -> int {
    if d == 1 {
        k
    } else if d == -1 {
        -k
    } else {
        0
    }
}

/// The number of steps in direction `dir` that would lead from `sq` to `t`, if any does.
pub open spec fn steps(dir: int, sq: int, t: int) -> int {
    if dir_dr(dir) != 0 {
        scale(rank_of(t) - rank_of(sq), dir_dr(dir))
    } else {
        scale(file_of(t) - file_of(sq), dir_df(dir))
    }
}

/// Whether `t` lies on the board in direction `dir` from `sq`, one step away or more.
pub open spec fn on_ray(dir: int, sq: int, t: int) -> bool {
    &&& 0 <= dir < 8
    &&& on_board(sq)
    &&& on_board(t)
    &&& steps(dir, sq, t) >= 1
    &&& rank_of(t) == rank_of(sq) + scale(steps(dir, sq, t), dir_dr(dir))
    &&& file_of(t) == file_of(sq) + scale(steps(dir, sq, t), dir_df(dir))
}

/// Whether `t` is the square one step from `sq` in direction `dir`.
pub open spec fn one_step(dir: int, sq: int, t: int) -> bool {
    on_ray(dir, sq, t) && steps(dir, sq, t) == 1
}

/// Whether `t` lies in direction `dir` from `sq` and is not the last square of the board
/// in that direction.
pub open spec fn on_inner_ray(dir: int, sq: int, t: int) -> bool {
    on_ray(dir, sq, t) && rf_on_board(rank_of(t) + dir_dr(dir), file_of(t) + dir_df(dir))
}

/// The rank step of the side's forward direction: the first player moves up.
pub open spec fn forward(side: int) -> int {
    if side == 0 {
        1
    } else {
        -1
    }
}

/// Whether a king on `sq` attacks `t`: the eight squares next to it.
pub open spec fn king_reach(sq: int, t: int) -> bool {
    &&& on_board(sq)
    &&& on_board(t)
    &&& t != sq
    &&& -1 <= rank_of(t) - rank_of(sq) <= 1
    &&& -1 <= file_of(t) - file_of(sq) <= 1
}

/// Whether a gold of `side` on `sq` attacks `t`: the squares next to it but the two
/// diagonally behind.
pub open spec fn gold_reach(side: int, sq: int, t: int) -> bool {
    king_reach(sq, t) && !(rank_of(t) - rank_of(sq) == -forward(side) && file_of(t) != file_of(
        sq,
    ))
}

/// Whether a silver of `side` on `sq` attacks `t`: the square ahead and the four
/// diagonal ones.
pub open spec fn silver_reach(side: int, sq: int, t: int) -> bool {
    king_reach(sq, t) && (if file_of(t) == file_of(sq) {
        rank_of(t) - rank_of(sq) == forward(side)
    } else {
        rank_of(t) != rank_of(sq)
    })
}

/// Whether a knight of `side` on `sq` attacks `t`: two ranks ahead, one file aside.
pub open spec fn knight_reach(side: int, sq: int, t: int) -> bool {
    &&& on_board(sq)
    &&& on_board(t)
    &&& rank_of(t) - rank_of(sq) == 2 * forward(side)
    &&& (file_of(t) - file_of(sq) == 1 || file_of(t) - file_of(sq) == -1)
}

/// Whether a pawn of `side` on `sq` attacks `t`: the square ahead.
pub open spec fn pawn_reach(side: int, sq: int, t: int) -> bool {
    &&& on_board(sq)
    &&& on_board(t)
    &&& rank_of(t) - rank_of(sq) == forward(side)
    &&& file_of(t) == file_of(sq)
}

/// Rays compose: what lies beyond a square of a ray lies on the ray.
pub proof fn lemma_ray_transitive(dir: int, a: int, b: int, c: int)
    requires
        on_ray(dir, a, b),
        on_ray(dir, b, c),
    ensures
        on_ray(dir, a, c),
        steps(dir, a, c) == steps(dir, a, b) + steps(dir, b, c),
{
}

/// Of two squares of one ray, the farther lies on the ray of the nearer.
pub proof fn lemma_ray_linear(dir: int, a: int, b: int, c: int)
    requires
        on_ray(dir, a, b),
        on_ray(dir, a, c),
    ensures
        steps(dir, a, b) < steps(dir, a, c) ==> on_ray(dir, b, c),
        steps(dir, a, b) == steps(dir, a, c) ==> b == c,
{
}

/// The rank and file steps of a direction.
pub fn dir_step(dir: u8) -> (r: (i8, i8))
    requires
        dir < 8,
    ensures
        r.0 == dir_dr(dir as int),
        r.1 == dir_df(dir as int),
{
    let dr: i8 = if dir == 0 || dir == 4 || dir == 6 {
        1
    } else if dir == 1 || dir == 5 || dir == 7 {
        -1
    } else {
        0
    };
    let df: i8 = if dir == 3 || dir == 4 || dir == 5 {
        1
    } else if dir == 2 || dir == 6 || dir == 7 {
        -1
    } else {
        0
    };
    (dr, df)
}

/// The square one step from `sq` in direction `dir`, or nothing where the board ends.
pub fn step_mask(sq: Square, dir: u8) -> (r: Bitboard)
    requires
        sq.valid(),
        dir < 8,
    ensures
        forall|t: int| #[trigger] r.contains(t) == one_step(dir as int, sq@, t),
{
    let (dr, df) = dir_step(dir);
    let rank: i8 = sq.rank() as i8 + dr;
    let file: i8 = sq.file() as i8 + df;
    if 0 <= rank && rank < 9 && 0 <= file && file < 9 {
        Bitboard::from_square(Square((rank * 9 + file) as u8))
    } else {
        proof {
            crate::bits::lemma_set_zero();
        }
        Bitboard(0)
    }
}

/// The squares from `sq` to the edge of the board in direction `dir`, `sq` left out.
pub fn ray_mask(dir: u8, sq: Square) -> (r: Bitboard)
    requires
        sq.valid(),
        dir < 8,
    ensures
        forall|t: int| #[trigger] r.contains(t) == on_ray(dir as int, sq@, t),
{
    let (dr, df) = dir_step(dir);
    let mut out = Bitboard(0);
    let mut rank: i8 = sq.rank() as i8 + dr;
    let mut file: i8 = sq.file() as i8 + df;
    let mut k: i8 = 1;
    proof {
        crate::bits::lemma_set_zero();
    }
    while 0 <= rank && rank < 9 && 0 <= file && file < 9
        invariant
            sq.valid(),
            dir < 8,
            dr == dir_dr(dir as int),
            df == dir_df(dir as int),
            1 <= k <= 10,
            rank == rank_of(sq@) + scale(k as int, dr as int),
            file == file_of(sq@) + scale(k as int, df as int),
            forall|t: int| #[trigger]
                out.contains(t) == (on_ray(dir as int, sq@, t) && steps(dir as int, sq@, t) < k),
        decreases 10 - k,
    {
        let here = Bitboard::from_square(Square((rank * 9 + file) as u8));
        out = out.bitor(here);
        rank = rank + dr;
        file = file + df;
        k = k + 1;
    }
    out
}

/// The ray from `sq` in direction `dir` without its last square: the squares on which a
/// piece can stand in the way of a slider and hide a square behind it.
pub fn inner_ray_mask(dir: u8, sq: Square) -> (r: Bitboard)
    requires
        sq.valid(),
        dir < 8,
    ensures
        forall|t: int| #[trigger] r.contains(t) == on_inner_ray(dir as int, sq@, t),
{
    let (dr, df) = dir_step(dir);
    let mut out = Bitboard(0);
    let mut rank: i8 = sq.rank() as i8 + dr;
    let mut file: i8 = sq.file() as i8 + df;
    let mut k: i8 = 1;
    proof {
        crate::bits::lemma_set_zero();
    }
    while 0 <= rank + dr && rank + dr < 9 && 0 <= file + df && file + df < 9 && 0 <= rank && rank
        < 9 && 0 <= file && file < 9
        invariant
            sq.valid(),
            dir < 8,
            dr == dir_dr(dir as int),
            df == dir_df(dir as int),
            1 <= k <= 10,
            rank == rank_of(sq@) + scale(k as int, dr as int),
            file == file_of(sq@) + scale(k as int, df as int),
            forall|t: int| #[trigger]
                out.contains(t) == (on_inner_ray(dir as int, sq@, t) && steps(
                    dir as int,
                    sq@,
                    t,
                ) < k),
        decreases 10 - k,
    {
        let here = Bitboard::from_square(Square((rank * 9 + file) as u8));
        out = out.bitor(here);
        rank = rank + dr;
        file = file + df;
        k = k + 1;
    }
    out
}

/// The squares that a king on `sq` attacks.
pub fn get_king_attacks_internal(sq: Square) -> (r: Bitboard)
    requires
        sq.valid(),
    ensures
        forall|t: int| #[trigger] r.contains(t) == king_reach(sq@, t),
{
    let mut out = Bitboard(0);
    let mut dir: u8 = 0;
    proof {
        crate::bits::lemma_set_zero();
    }
    while dir < 8
        invariant
            sq.valid(),
            dir <= 8,
            forall|t: int| #[trigger]
                out.contains(t) == exists|d: int| 0 <= d < dir && one_step(d, sq@, t),
        decreases 8 - dir,
    {
        out = out.bitor(step_mask(sq, dir));
        dir = dir + 1;
    }
    proof {
        assert forall|t: int| #[trigger] out.contains(t) == king_reach(sq@, t) by {
            lemma_king_steps(sq@, t);
        }
    }
    out
}

/// A king reaches exactly the squares one step away in one of the eight directions.
pub proof fn lemma_king_steps(sq: int, t: int)
    ensures
        king_reach(sq, t) == exists|d: int| 0 <= d < 8 && one_step(d, sq, t),
{
    if king_reach(sq, t) {
        let dr = rank_of(t) - rank_of(sq);
        let df = file_of(t) - file_of(sq);
        let d: int = if df == 0 {
            if dr == 1 {
                0
            } else {
                1
            }
        } else if dr == 0 {
            if df == 1 {
                3
            } else {
                2
            }
        } else if dr == 1 {
            if df == 1 {
                4
            } else {
                6
            }
        } else {
            if df == 1 {
                5
            } else {
                7
            }
        };
        assert(one_step(d, sq, t));
    }
}

/// The squares that a gold of `stm`, or a piece that moves like one, attacks from `sq`.
pub fn get_gold_attacks_internal(sq: Square, stm: u8) -> (r: Bitboard)
    requires
        sq.valid(),
        stm < 2,
    ensures
        forall|t: int| #[trigger] r.contains(t) == gold_reach(stm as int, sq@, t),
{
    let straight = step_mask(sq, 0).bitor(step_mask(sq, 1)).bitor(step_mask(sq, 2)).bitor(
        step_mask(sq, 3),
    );
    let ahead = if stm == 0 {
        step_mask(sq, 4).bitor(step_mask(sq, 6))
    } else {
        step_mask(sq, 5).bitor(step_mask(sq, 7))
    };
    straight.bitor(ahead)
}

/// The squares that a silver of `stm` attacks from `sq`.
pub fn get_silver_attacks_internal(sq: Square, stm: u8) -> (r: Bitboard)
    requires
        sq.valid(),
        stm < 2,
    ensures
        forall|t: int| #[trigger] r.contains(t) == silver_reach(stm as int, sq@, t),
{
    let diagonal = step_mask(sq, 4).bitor(step_mask(sq, 5)).bitor(step_mask(sq, 6)).bitor(
        step_mask(sq, 7),
    );
    let ahead = if stm == 0 {
        step_mask(sq, 0)
    } else {
        step_mask(sq, 1)
    };
    diagonal.bitor(ahead)
}

/// The squares that a knight of `stm` attacks from `sq`.
pub fn get_knight_attacks_internal(sq: Square, stm: u8) -> (r: Bitboard)
    requires
        sq.valid(),
        stm < 2,
    ensures
        forall|t: int| #[trigger] r.contains(t) == knight_reach(stm as int, sq@, t),
{
    proof {
        crate::bits::lemma_set_zero();
    }
    if stm == 0 {
        if sq.0 < 63 {
            let ahead = Square(sq.0 + 9);
            step_mask(ahead, 4).bitor(step_mask(ahead, 6))
        } else {
            Bitboard(0)
        }
    } else {
        if sq.0 > 17 {
            let ahead = Square(sq.0 - 9);
            step_mask(ahead, 5).bitor(step_mask(ahead, 7))
        } else {
            Bitboard(0)
        }
    }
}

/// The blocker mask of a slider on `sq`: for `kind` 0 the inner ray upwards and for 1 the
/// one downwards (the two lances), for 2 the four diagonal inner rays (bishop), for 3 the
/// four straight ones (rook).
pub fn blocker_mask(kind: u8, sq: Square) -> (r: Bitboard)
    requires
        sq.valid(),
        kind < 4,
    ensures
        forall|t: int| #[trigger] r.contains(t) == is_blocker_square(kind as int, sq@, t),
{
    if kind == 0 {
        inner_ray_mask(0, sq)
    } else if kind == 1 {
        inner_ray_mask(1, sq)
    } else if kind == 2 {
        inner_ray_mask(4, sq).bitor(inner_ray_mask(5, sq)).bitor(inner_ray_mask(6, sq)).bitor(
            inner_ray_mask(7, sq),
        )
    } else {
        inner_ray_mask(0, sq).bitor(inner_ray_mask(1, sq)).bitor(inner_ray_mask(2, sq)).bitor(
            inner_ray_mask(3, sq),
        )
    }
}

/// Whether `t` is a square of the blocker mask of kind `kind` for a slider on `sq`.
pub open spec fn is_blocker_square(kind: int, sq: int, t: int) -> bool {
    if kind == 0 {
        on_inner_ray(0, sq, t)
    } else if kind == 1 {
        on_inner_ray(1, sq, t)
    } else if kind == 2 {
        on_inner_ray(4, sq, t) || on_inner_ray(5, sq, t) || on_inner_ray(6, sq, t)
            || on_inner_ray(7, sq, t)
    } else {
        on_inner_ray(0, sq, t) || on_inner_ray(1, sq, t) || on_inner_ray(2, sq, t)
            || on_inner_ray(3, sq, t)
    }
}

} // verus!
