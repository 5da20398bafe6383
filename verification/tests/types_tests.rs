use shogi_core::types::action::Action;
use shogi_core::types::bitboard::{Bitboard, FILEMASK, FULLMASK, RANKMASK};
use shogi_core::types::hand::Hand;
use shogi_core::types::piece::Piece;
use shogi_core::types::square::Square;

fn bb(squares: &[u8]) -> Bitboard {
    let mut word: u128 = 0;
    for sq in squares {
        word |= 1u128 << *sq;
    }
    Bitboard(word)
}

#[test]
fn square_rank_and_file() {
    let sq = Square::from_rf(2, 3);
    assert_eq!(sq, Square(21));
    assert_eq!(sq.rank(), 2);
    assert_eq!(sq.file(), 3);
    assert_eq!(sq.as_usize(), 21);
    assert_eq!(sq.as_u16(), 21);
    assert_eq!(Square(80).rank(), 8);
    assert_eq!(Square(80).file(), 8);
    assert_eq!(Square::INVALID, 81);
}

#[test]
fn piece_packing() {
    let rook = Piece::new_unchecked(Piece::ROOK, Piece::GOTE);
    assert_eq!(rook.raw(), 21);
    assert_eq!(rook.side(), 1);
    assert_eq!(rook.piece(), Piece(5));
    assert_eq!(rook.as_usize(), 21);
    assert_eq!(Piece(Piece::SILVER).as_stm(1), Piece(19));
    assert_eq!(Piece(Piece::SILVER).as_stm(0), Piece(3));
    assert_eq!(Piece::default(), Piece(Piece::NONE));
}

#[test]
fn piece_promotion_adds_eight() {
    let mut pawn = Piece(Piece::PAWN);
    pawn.promote();
    assert_eq!(pawn, Piece(Piece::PROMO_PAWN));
    assert_eq!(Piece(21).promoted(), Piece(29));
    assert_eq!(Piece(29).unpromote(), Piece(21));
    assert_eq!(Piece(21).unpromote(), Piece(21));
    assert_eq!(Piece(Piece::NONE).unpromote(), Piece(Piece::NONE));
    assert_eq!(Piece(Piece::GOLD).unpromote(), Piece(Piece::GOLD));
}

#[test]
fn piece_text() {
    assert_eq!(Piece(0).to_string(), "P");
    assert_eq!(Piece(16).to_string(), "p");
    assert_eq!(Piece(8).to_string(), "+P");
    assert_eq!(Piece(27).to_string(), "+s");
    assert_eq!(Piece(11).to_string(), "+S");
    assert_eq!(Piece(7).to_string(), "K");
    assert_eq!(Piece(22).to_string(), "g");
    assert_eq!(Piece(4).to_string(), "B");
    assert_eq!(Piece(29).to_string(), "+r");
    assert_eq!(Piece(14).to_string(), " ");
}

#[test]
fn hand_set_then_num_round_trip() {
    let tops = [31u32, 7, 7, 7, 3, 3, 3];
    for kind in 0..7u8 {
        for count in 0..=tops[kind as usize] {
            let mut hand = Hand(0xFFFF_FFFF);
            hand.set(Piece(kind), count);
            assert_eq!(hand.num(Piece(kind)) as u32, count);
            for other in 0..7u8 {
                if other != kind {
                    assert_eq!(hand.num(Piece(other)) as u32, tops[other as usize]);
                }
            }
        }
    }
}

#[test]
fn hand_inc_and_dec_are_inverses() {
    let tops = [31u8, 7, 7, 7, 3, 3, 3];
    for kind in 0..7u8 {
        let mut hand = Hand::default();
        for count in 0..tops[kind as usize] {
            let before = hand;
            hand.inc(Piece(kind));
            assert_eq!(hand.num(Piece(kind)), count + 1);
            let mut back = hand;
            back.dec(Piece(kind));
            assert_eq!(back, before);
            let mut again = back;
            again.inc(Piece(kind));
            assert_eq!(again, hand);
        }
    }
}

#[test]
fn hand_layout() {
    let mut hand = Hand::default();
    hand.set(Piece(Piece::PAWN), 18);
    assert_eq!(hand.0, 18);
    hand.set(Piece(Piece::ROOK), 2);
    assert_eq!(hand.0, 18 + (2 << 7));
    hand.set(Piece(Piece::BISHOP), 1);
    hand.set(Piece(Piece::LANCE), 4);
    hand.set(Piece(Piece::KNIGHT), 3);
    hand.set(Piece(Piece::SILVER), 2);
    hand.set(Piece(Piece::GOLD), 3);
    assert_eq!(hand.0, 18 + (3 << 5) + (2 << 7) + (4 << 9) + (3 << 12) + (2 << 15) + (1 << 18));
    assert_eq!(hand.num(Piece(Piece::GOLD + 16)), 3);
    assert_eq!(hand.to_string(), "18P 4L 3N 2S 1B 2R 3G ");
    assert_eq!(Hand::default().to_string(), "0P 0L 0N 0S 0B 0R 0G ");
    assert_eq!(Hand::EMPTY, 0);
}

#[test]
fn action_packs_a_move() {
    let action = Action::new_move(Square(20), Square(29), true);
    assert_eq!(action.0, 29 + (20 << 7) + (1 << 15));
    assert_eq!(action.to(), Square(29));
    assert_eq!(action.from(), Square(20));
    assert!(action.is_promo());
    assert!(!action.is_drop());
    let plain = Action::new_move(Square(80), Square(0), false);
    assert_eq!(plain.0, 80 << 7);
    assert_eq!(plain.from(), Square(80));
    assert_eq!(plain.to(), Square(0));
    assert!(!plain.is_promo());
}

#[test]
fn action_packs_a_drop() {
    let action = Action::new_drop(Piece(Piece::GOLD).as_stm(1), Square(40));
    assert_eq!(action.0, 40 + (22 << 7) + (1 << 14));
    assert!(action.is_drop());
    assert!(!action.is_promo());
    assert_eq!(action.piece(), Piece(22));
    assert_eq!(action.to(), Square(40));
}

#[test]
fn action_text() {
    assert_eq!(Action::new_move(Square(20), Square(29), false).to_usi(), "7g7f");
    assert_eq!(Action::new_move(Square(20), Square(29), true).to_usi(), "7g7f+");
    assert_eq!(Action::new_move(Square(0), Square(80), false).to_usi(), "9i1a");
    assert_eq!(Action::new_drop(Piece(0), Square(40)).to_usi(), "P*5e");
    assert_eq!(Action::new_drop(Piece(21), Square(8)).to_usi(), "r*1i");
    assert_eq!(Action::new_move(Square(20), Square(29), true).to_string(), "7g7f+");
}

#[test]
fn bitboard_masks() {
    assert_eq!(Bitboard::from_square(Square(5)).0, 32);
    assert_eq!(Bitboard::from_idx(80).0, 1u128 << 80);
    assert_eq!(Bitboard::from_rank(0).0, RANKMASK);
    assert_eq!(Bitboard::from_rank(8), bb(&[72, 73, 74, 75, 76, 77, 78, 79, 80]));
    assert_eq!(Bitboard::from_file(0).0, FILEMASK);
    assert_eq!(Bitboard::from_file(3), bb(&[3, 12, 21, 30, 39, 48, 57, 66, 75]));
    assert_eq!(Bitboard::FULL, FULLMASK);
    assert_eq!(FULLMASK, (1u128 << 81) - 1);
    assert_eq!(Bitboard::EMPTY, 0);
    assert_eq!(Bitboard::default(), Bitboard(0));
}

#[test]
fn bitboard_lowest_and_highest() {
    let set = bb(&[7, 40, 80]);
    assert_eq!(set.lsb(), 7);
    assert_eq!(set.msb(), 80);
    assert_eq!(Bitboard(0b1010).msb(), 3);
    assert_eq!(Bitboard(0b1010).lsb(), 1);
    assert_eq!(Bitboard(1).lsb(), 0);
    assert_eq!(Bitboard(1).msb(), 0);
    assert_eq!(Bitboard(1u128 << 127).lsb(), 127);
    assert_eq!(Bitboard(1u128 << 127).msb(), 127);
    for i in 0..128u8 {
        assert_eq!(Bitboard(1u128 << i).lsb(), i);
        assert_eq!(Bitboard(1u128 << i).msb(), i);
        assert_eq!(Bitboard(u128::MAX << i).lsb(), i);
        assert_eq!(Bitboard(u128::MAX >> i).msb(), 127 - i);
    }
    let mut rest = set;
    assert_eq!(rest.pop_lsb(), 7);
    assert_eq!(rest, bb(&[40, 80]));
    assert_eq!(rest.pop_lsb(), 40);
    assert_eq!(rest.pop_lsb(), 80);
    assert!(rest.is_empty());
}

#[test]
fn bitboard_counts() {
    assert_eq!(Bitboard(0).popcount(), 0);
    assert_eq!(Bitboard(FULLMASK).popcount(), 81);
    assert_eq!(Bitboard(u128::MAX).popcount(), 128);
    assert_eq!(bb(&[1, 2, 4]).popcount(), 3);
    assert!(Bitboard(0).is_empty());
    assert!(!Bitboard(0).is_not_empty());
    assert!(!Bitboard(0).has_bits());
    assert!(bb(&[9]).is_not_empty());
    assert!(bb(&[9]).has_bits());
    assert_eq!(bb(&[9]).raw(), 512);
    assert!(!Bitboard(0).contains_multiple());
    assert!(!Bitboard(0).contains_one());
    assert!(!bb(&[9]).contains_multiple());
    assert!(bb(&[9]).contains_one());
    assert!(bb(&[9, 80]).contains_multiple());
    assert!(!bb(&[9, 80]).contains_one());
}

#[test]
fn bitboard_set_operations() {
    let a = bb(&[1, 2, 3]);
    let b = bb(&[3, 4]);
    assert_eq!(a.bitor(b), bb(&[1, 2, 3, 4]));
    assert_eq!(a.bitand(b), bb(&[3]));
    assert_eq!(a.bitxor(b), bb(&[1, 2, 4]));
    assert_eq!(a.not().0, !a.0);
    assert_eq!(a.shl(9), bb(&[10, 11, 12]));
    assert_eq!(a.shr(1), bb(&[0, 1, 2]));
    assert_eq!(bb(&[127]).shl(1), Bitboard(0));
}

#[test]
fn bitboard_squares_rise() {
    assert_eq!(bb(&[4, 1, 2]).squares(), vec![Square(1), Square(2), Square(4)]);
    assert_eq!(Bitboard(0).squares(), Vec::<Square>::new());
    assert_eq!(bb(&[127, 0]).squares(), vec![Square(0), Square(127)]);
    assert_eq!(Bitboard(FULLMASK).squares().len(), 81);
}

#[test]
fn bitboard_file_fill() {
    assert_eq!(bb(&[13]).file_fill(), Bitboard::from_file(4));
    assert_eq!(bb(&[0, 80]).file_fill(), Bitboard::from_file(0).bitor(Bitboard::from_file(8)));
    assert_eq!(Bitboard(0).file_fill(), Bitboard(0));
    assert_eq!(bb(&[100]).file_fill(), Bitboard(0));
}

#[test]
fn bitboard_text() {
    let text = bb(&[0, 80]).to_string();
    let lines: Vec<&str> = text.split('\n').collect();
    assert_eq!(lines.len(), 10);
    assert_eq!(lines[0], "000000001");
    assert_eq!(lines[8], "100000000");
    assert_eq!(lines[4], "000000000");
    assert_eq!(lines[9], "");
}
