use crate::bits::lemma_set_zero;
use crate::movegen::classical::{
    bishop_reach, get_bishop_attacks_internal, get_rook_attacks_internal, rook_reach, slide_hits,
};
use crate::movegen::lookups::{lemma_ray_linear, lemma_ray_transitive, on_ray};
use crate::types::bitboard::Bitboard;
use crate::types::square::Square;
use vstd::prelude::*;

verus! {

/// Whether `t` lies strictly between `a` and `b` on a rank, a file or a diagonal.
pub open spec fn between(a: int, b: int, t: int) -> bool {
    exists|d: int| 0 <= d < 8 && on_ray(d, a, t) && on_ray(d, t, b)
}

/// Whether `a` and `b` are two squares of one rank, file or diagonal, and `t` lies on
/// the line through them, from edge to edge of the board.
pub open spec fn on_line(a: int, b: int, t: int) -> bool {
    exists|d: int| 0 <= d < 8 && on_ray(d, a, b) && (t == a || on_ray(d, a, t) || on_ray(d, t, a))
}

/// The direction opposite to `d`.
pub open spec fn opposite(d: int) -> int {
    if d == 0 {
        1
    } else if d == 1 {
        0
    } else if d == 2 {
        3
    } else if d == 3 {
        2
    } else if d == 4 {
        7
    } else if d == 7 {
        4
    } else if d == 5 {
        6
    } else {
        5
    }
}

/// A ray read backwards is the ray in the opposite direction.
pub proof fn lemma_opposite(d: int, a: int, b: int)
    requires
        0 <= d < 8,
    ensures
        on_ray(d, a, b) == on_ray(opposite(d), b, a),
        0 <= opposite(d) < 8,
        (d < 4) == (opposite(d) < 4),
{
}

/// The squares strictly between `a` and `b`, where the two lie on one rank, file or
/// diagonal; no square otherwise.
#[must_use]
pub fn ray_between(a: Square, b: Square) -> (r: Bitboard)
    requires
        a.valid(),
        b.valid(),
    ensures
        forall|t: int| #[trigger] r.contains(t) == between(a@, b@, t),
{
    proof {
        lemma_set_zero();
    }
    let empty = Bitboard(0);
    if a.0 == b.0 {
        assert forall|t: int| !between(a@, b@, t) by {
            if between(a@, b@, t) {
                let d = choose|d: int| 0 <= d < 8 && on_ray(d, a@, t) && on_ray(d, t, b@);
                lemma_ray_transitive(d, a@, t, b@);
            }
        }
        return empty;
    }
    let src_mask = Bitboard::from_square(a);
    let dst_mask = Bitboard::from_square(b);
    let rook_attacks = get_rook_attacks_internal(a, empty);
    let bishop_attacks = get_bishop_attacks_internal(a, empty);
    let on_straight = rook_attacks.bitand(dst_mask);
    let on_diagonal = bishop_attacks.bitand(dst_mask);
    if on_straight.is_not_empty() {
        let out = get_rook_attacks_internal(a, dst_mask).bitand(
            get_rook_attacks_internal(b, src_mask),
        );
        proof {
            assert(on_straight.contains(b@));
            assert forall|t: int| #[trigger] out.contains(t) == between(a@, b@, t) by {
                lemma_between(a@, b@, t, src_mask, dst_mask, 0);
            }
        }
        out
    } else if on_diagonal.is_not_empty() {
        let out = get_bishop_attacks_internal(a, dst_mask).bitand(
            get_bishop_attacks_internal(b, src_mask),
        );
        proof {
            assert(on_diagonal.contains(b@));
            assert forall|t: int| #[trigger] out.contains(t) == between(a@, b@, t) by {
                lemma_between(a@, b@, t, src_mask, dst_mask, 4);
            }
        }
        out
    } else {
        proof {
            assert(!on_straight.contains(b@));
            assert(!on_diagonal.contains(b@));
            assert forall|t: int| !between(a@, b@, t) by {
                if between(a@, b@, t) {
                    let d = choose|d: int| 0 <= d < 8 && on_ray(d, a@, t) && on_ray(d, t, b@);
                    lemma_ray_transitive(d, a@, t, b@);
                    lemma_open_ray(d, a@, b@, empty);
                }
            }
        }
        empty
    }
}

/// On an empty board a slider attacks every square of its rays.
pub proof fn lemma_open_ray(d: int, a: int, b: int, empty: Bitboard)
    requires
        forall|i: int| !empty.contains(i),
        on_ray(d, a, b),
    ensures
        slide_hits(d, a, empty, b),
{
}

/// With `a` and `b` on one line of the group of directions that starts at `base` (0 for
/// ranks and files, 4 for diagonals), the squares that a slider of that group on `a`
/// attacks with only `b` taken, and that one on `b` attacks with only `a` taken, are the
/// squares strictly between the two.
pub proof fn lemma_between(a: int, b: int, t: int, only_a: Bitboard, only_b: Bitboard, base: int)
    requires
        base == 0 || base == 4,
        a != b,
        forall|i: int| only_a.contains(i) == (i == a),
        forall|i: int| only_b.contains(i) == (i == b),
        exists|d: int| base <= d < base + 4 && on_ray(d, a, b),
    ensures
        ((exists|d: int| base <= d < base + 4 && slide_hits(d, a, only_b, t)) && (exists|d: int|
            base <= d < base + 4 && slide_hits(d, b, only_a, t))) == between(a, b, t),
        base == 0 ==> (rook_reach(a, only_b, t) && rook_reach(b, only_a, t)) == between(a, b, t),
        base == 4 ==> (bishop_reach(a, only_b, t) && bishop_reach(b, only_a, t)) == between(
            a,
            b,
            t,
        ),
{
    let d0 = choose|d: int| base <= d < base + 4 && on_ray(d, a, b);
    lemma_opposite(d0, a, b);
    let back = opposite(d0);
    if between(a, b, t) {
        let d = choose|d: int| 0 <= d < 8 && on_ray(d, a, t) && on_ray(d, t, b);
        lemma_ray_transitive(d, a, t, b);
        assert(d == d0);
        lemma_opposite(d0, t, b);
        assert(slide_hits(d0, a, only_b, t)) by {
            assert forall|x: int| on_ray(d0, a, x) && on_ray(d0, x, t) implies !only_b.contains(
                x,
            ) by {
                lemma_ray_transitive(d0, a, x, t);
            }
        }
        assert(slide_hits(back, b, only_a, t)) by {
            assert forall|x: int| on_ray(back, b, x) && on_ray(back, x, t) implies !only_a.contains(
                x,
            ) by {
                lemma_ray_transitive(back, b, x, t);
            }
        }
        assert(base <= back < base + 4);
    }
    if (exists|d: int| base <= d < base + 4 && slide_hits(d, a, only_b, t)) && (exists|d: int|
        base <= d < base + 4 && slide_hits(d, b, only_a, t)) {
        let d1 = choose|d: int| base <= d < base + 4 && slide_hits(d, a, only_b, t);
        let d2 = choose|d: int| base <= d < base + 4 && slide_hits(d, b, only_a, t);
        assert(!only_b.contains(b) || !(on_ray(d1, a, b) && on_ray(d1, b, t)));
        assert(!only_a.contains(a) || !(on_ray(d2, b, a) && on_ray(d2, a, t)));
        lemma_opposite(d1, a, t);
        lemma_opposite(d2, b, t);
        assert(on_ray(d0, a, t) && on_ray(d0, t, b));
    }
}

/// The line through `a` and `b` from edge to edge of the board, both squares included,
/// where the two lie on one rank, file or diagonal; no square otherwise.
#[must_use]
pub fn ray_intersecting(a: Square, b: Square) -> (r: Bitboard)
    requires
        a.valid(),
        b.valid(),
    ensures
        forall|t: int| #[trigger] r.contains(t) == on_line(a@, b@, t),
{
    proof {
        lemma_set_zero();
    }
    let empty = Bitboard(0);
    if a.0 == b.0 {
        return empty;
    }
    let src_mask = Bitboard::from_square(a);
    let dst_mask = Bitboard::from_square(b);
    let rook_attacks = get_rook_attacks_internal(a, empty);
    let bishop_attacks = get_bishop_attacks_internal(a, empty);
    let on_straight = rook_attacks.bitand(dst_mask);
    let on_diagonal = bishop_attacks.bitand(dst_mask);
    if on_straight.is_not_empty() {
        let out = src_mask.bitor(
            get_rook_attacks_internal(a, empty).bitand(
                dst_mask.bitor(get_rook_attacks_internal(b, empty)),
            ),
        );
        proof {
            assert(on_straight.contains(b@));
            assert forall|t: int| #[trigger] out.contains(t) == on_line(a@, b@, t) by {
                lemma_line(a@, b@, t, empty, 0);
            }
        }
        out
    } else if on_diagonal.is_not_empty() {
        let out = src_mask.bitor(
            get_bishop_attacks_internal(a, empty).bitand(
                dst_mask.bitor(get_bishop_attacks_internal(b, empty)),
            ),
        );
        proof {
            assert(on_diagonal.contains(b@));
            assert forall|t: int| #[trigger] out.contains(t) == on_line(a@, b@, t) by {
                lemma_line(a@, b@, t, empty, 4);
            }
        }
        out
    } else {
        proof {
            assert(!on_straight.contains(b@));
            assert(!on_diagonal.contains(b@));
            assert forall|t: int| !on_line(a@, b@, t) by {
                if on_line(a@, b@, t) {
                    let d = choose|d: int|
                        0 <= d < 8 && on_ray(d, a@, b@) && (t == a@ || on_ray(d, a@, t) || on_ray(
                            d,
                            t,
                            a@,
                        ));
                    lemma_open_ray(d, a@, b@, empty);
                }
            }
        }
        empty
    }
}

/// With `a` and `b` on one line of the group of directions that starts at `base`, the
/// square `a` and the squares that a slider of that group reaches on an empty board both
/// from `a` and from `b` (or that are `b`) make up the line through the two.
pub proof fn lemma_line(a: int, b: int, t: int, empty: Bitboard, base: int)
    requires
        base == 0 || base == 4,
        a != b,
        forall|i: int| !empty.contains(i),
        exists|d: int| base <= d < base + 4 && on_ray(d, a, b),
    ensures
        (t == a || ((exists|d: int| base <= d < base + 4 && slide_hits(d, a, empty, t)) && (t == b
            || exists|d: int| base <= d < base + 4 && slide_hits(d, b, empty, t)))) == on_line(
            a,
            b,
            t,
        ),
        base == 0 ==> (t == a || (rook_reach(a, empty, t) && (t == b || rook_reach(b, empty, t))))
            == on_line(a, b, t),
        base == 4 ==> (t == a || (bishop_reach(a, empty, t) && (t == b || bishop_reach(
            b,
            empty,
            t,
        )))) == on_line(a, b, t),
{
    let d0 = choose|d: int| base <= d < base + 4 && on_ray(d, a, b);
    lemma_opposite(d0, a, b);
    let back = opposite(d0);
    if on_line(a, b, t) {
        let d = choose|d: int|
            0 <= d < 8 && on_ray(d, a, b) && (t == a || on_ray(d, a, t) || on_ray(d, t, a));
        assert(d == d0);
        if t != a {
            if on_ray(d0, a, t) {
                lemma_open_ray(d0, a, t, empty);
                if t != b {
                    lemma_ray_linear(d0, a, b, t);
                    lemma_ray_linear(d0, a, t, b);
                    if on_ray(d0, b, t) {
                        lemma_open_ray(d0, b, t, empty);
                    } else {
                        lemma_opposite(d0, t, b);
                        lemma_open_ray(back, b, t, empty);
                    }
                }
            } else {
                lemma_opposite(d0, t, a);
                lemma_open_ray(back, a, t, empty);
                lemma_ray_transitive(d0, t, a, b);
                lemma_opposite(d0, t, b);
                lemma_open_ray(back, b, t, empty);
            }
        }
    }
    if t != a && (exists|d: int| base <= d < base + 4 && slide_hits(d, a, empty, t)) && (t == b
        || exists|d: int| base <= d < base + 4 && slide_hits(d, b, empty, t)) {
        let d1 = choose|d: int| base <= d < base + 4 && slide_hits(d, a, empty, t);
        if t != b {
            let d2 = choose|d: int| base <= d < base + 4 && slide_hits(d, b, empty, t);
            lemma_opposite(d1, a, t);
            lemma_opposite(d2, b, t);
            assert(on_ray(d0, a, t) || on_ray(d0, t, a));
        }
        assert(0 <= d0 < 8 && on_ray(d0, a, b) && (t == a || on_ray(d0, a, t) || on_ray(d0, t, a)));
    }
    if t == a {
        assert(0 <= d0 < 8 && on_ray(d0, a, b) && (t == a || on_ray(d0, a, t) || on_ray(d0, t, a)));
    }
}

/// The table of the squares between any two squares: entry `[a][b]` holds what
/// `ray_between` gives for the two.
pub fn generate_between_rays() -> (r: Vec<Vec<Bitboard>>)
    ensures
        r@.len() == 81,
        forall|a: int| 0 <= a < 81 ==> (#[trigger] r@[a])@.len() == 81,
        forall|a: int, b: int, t: int|
            0 <= a < 81 && 0 <= b < 81 ==> #[trigger] r@[a]@[b].contains(t) == between(a, b, t),
{
    let mut table: Vec<Vec<Bitboard>> = Vec::new();
    let mut src_idx: u8 = 0;
    while src_idx < 81
        invariant
            src_idx <= 81,
            table@.len() == src_idx,
            forall|a: int| 0 <= a < src_idx ==> (#[trigger] table@[a])@.len() == 81,
            forall|a: int, b: int, t: int|
                0 <= a < src_idx && 0 <= b < 81 ==> #[trigger] table@[a]@[b].contains(t)
                    == between(a, b, t),
        decreases 81 - src_idx,
    {
        let mut row: Vec<Bitboard> = Vec::new();
        let mut dst_idx: u8 = 0;
        while dst_idx < 81
            invariant
                src_idx < 81,
                dst_idx <= 81,
                row@.len() == dst_idx,
                forall|b: int, t: int|
                    0 <= b < dst_idx ==> #[trigger] row@[b].contains(t) == between(
                        src_idx as int,
                        b,
                        t,
                    ),
            decreases 81 - dst_idx,
        {
            row.push(ray_between(Square(src_idx), Square(dst_idx)));
            dst_idx += 1;
        }
        table.push(row);
        src_idx += 1;
    }
    table
}

/// The table of the lines through any two squares: entry `[a][b]` holds what
/// `ray_intersecting` gives for the two.
pub fn generate_intersecting_rays() -> (r: Vec<Vec<Bitboard>>)
    ensures
        r@.len() == 81,
        forall|a: int| 0 <= a < 81 ==> (#[trigger] r@[a])@.len() == 81,
        forall|a: int, b: int, t: int|
            0 <= a < 81 && 0 <= b < 81 ==> #[trigger] r@[a]@[b].contains(t) == on_line(a, b, t),
{
    let mut table: Vec<Vec<Bitboard>> = Vec::new();
    let mut src_idx: u8 = 0;
    while src_idx < 81
        invariant
            src_idx <= 81,
            table@.len() == src_idx,
            forall|a: int| 0 <= a < src_idx ==> (#[trigger] table@[a])@.len() == 81,
            forall|a: int, b: int, t: int|
                0 <= a < src_idx && 0 <= b < 81 ==> #[trigger] table@[a]@[b].contains(t)
                    == on_line(a, b, t),
        decreases 81 - src_idx,
    {
        let mut row: Vec<Bitboard> = Vec::new();
        let mut dst_idx: u8 = 0;
        while dst_idx < 81
            invariant
                src_idx < 81,
                dst_idx <= 81,
                row@.len() == dst_idx,
                forall|b: int, t: int|
                    0 <= b < dst_idx ==> #[trigger] row@[b].contains(t) == on_line(
                        src_idx as int,
                        b,
                        t,
                    ),
            decreases 81 - dst_idx,
        {
            row.push(ray_intersecting(Square(src_idx), Square(dst_idx)));
            dst_idx += 1;
        }
        table.push(row);
        src_idx += 1;
    }
    table
}

} // verus!
