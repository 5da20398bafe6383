use shogi_core::rays::{
    generate_between_rays, generate_intersecting_rays, ray_between, ray_intersecting,
};
use shogi_core::types::bitboard::Bitboard;
use shogi_core::types::square::Square;

fn bb(squares: &[u8]) -> Bitboard {
    let mut word: u128 = 0;
    for sq in squares {
        word |= 1u128 << *sq;
    }
    Bitboard(word)
}

#[test]
fn squares_between_two_squares() {
    assert_eq!(ray_between(Square(0), Square(4)), bb(&[1, 2, 3]));
    assert_eq!(ray_between(Square(4), Square(0)), bb(&[1, 2, 3]));
    assert_eq!(ray_between(Square(0), Square(40)), bb(&[10, 20, 30]));
    assert_eq!(ray_between(Square(8), Square(72)), bb(&[16, 24, 32, 40, 48, 56, 64]));
    assert_eq!(ray_between(Square(4), Square(76)), bb(&[13, 22, 31, 40, 49, 58, 67]));
    assert_eq!(ray_between(Square(0), Square(1)), Bitboard(0));
    assert_eq!(ray_between(Square(0), Square(13)), Bitboard(0));
    assert_eq!(ray_between(Square(8), Square(9)), Bitboard(0));
    assert_eq!(ray_between(Square(5), Square(5)), Bitboard(0));
}

#[test]
fn lines_through_two_squares() {
    assert_eq!(ray_intersecting(Square(0), Square(4)), bb(&[0, 1, 2, 3, 4, 5, 6, 7, 8]));
    assert_eq!(ray_intersecting(Square(4), Square(0)), bb(&[0, 1, 2, 3, 4, 5, 6, 7, 8]));
    assert_eq!(ray_intersecting(Square(40), Square(50)), bb(&[0, 10, 20, 30, 40, 50, 60, 70, 80]));
    assert_eq!(ray_intersecting(Square(16), Square(8)), bb(&[8, 16, 24, 32, 40, 48, 56, 64, 72]));
    assert_eq!(ray_intersecting(Square(13), Square(22)), bb(&[4, 13, 22, 31, 40, 49, 58, 67, 76]));
    assert_eq!(ray_intersecting(Square(1), Square(9)), bb(&[1, 9]));
    assert_eq!(ray_intersecting(Square(0), Square(13)), Bitboard(0));
    assert_eq!(ray_intersecting(Square(5), Square(5)), Bitboard(0));
}

#[test]
fn ray_tables_hold_what_the_functions_give() {
    let between = generate_between_rays();
    let lines = generate_intersecting_rays();
    assert_eq!(between.len(), 81);
    assert_eq!(lines.len(), 81);
    for a in 0..81u8 {
        assert_eq!(between[a as usize].len(), 81);
        assert_eq!(lines[a as usize].len(), 81);
        for b in 0..81u8 {
            assert_eq!(between[a as usize][b as usize], ray_between(Square(a), Square(b)));
            assert_eq!(lines[a as usize][b as usize], ray_intersecting(Square(a), Square(b)));
            assert_eq!(between[a as usize][b as usize], between[b as usize][a as usize]);
        }
    }
}
