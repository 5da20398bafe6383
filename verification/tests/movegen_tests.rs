use shogi_core::movegen::classical;
use shogi_core::movegen::lookups::{blocker_mask, inner_ray_mask, ray_mask, step_mask};
use shogi_core::movegen::magic::{find_magic, magic_attacks, try_magic, Generator};
use shogi_core::movegen::pawns;
use shogi_core::movegen::pext::{
    get_lance_attacks_internal, init_lance, init_square, pdep, pext128, pext_attacks,
};
use shogi_core::movegen::slideys;
use shogi_core::movegen::{
    get_bishop_attacks, get_gold_attacks, get_king_attacks, get_knight_attacks,
    get_lance_attacks, get_rook_attacks, get_silver_attacks, setwise_pawns,
};
use shogi_core::types::bitboard::{Bitboard, FULLMASK};
use shogi_core::types::square::Square;

fn bb(squares: &[u8]) -> Bitboard {
    let mut word: u128 = 0;
    for sq in squares {
        word |= 1u128 << *sq;
    }
    Bitboard(word)
}

fn occupancies() -> Vec<Bitboard> {
    let mut out = vec![Bitboard(0), Bitboard(FULLMASK), Bitboard(u128::MAX)];
    let mut state: u128 = 0x9E37_79B9_7F4A_7C15_F39C_C060_5CED_C834;
    for _ in 0..200 {
        state = state.wrapping_mul(0x2360_ED05_1FC6_5DA4_4385_DF64_9FCC_F645).wrapping_add(1);
        let sparse = state & state.rotate_left(29);
        out.push(Bitboard(state & FULLMASK));
        out.push(Bitboard(sparse & FULLMASK));
    }
    out
}

#[test]
fn king_attacks_the_squares_next_to_it() {
    assert_eq!(get_king_attacks(Square(40)), bb(&[30, 31, 32, 39, 41, 48, 49, 50]));
    assert_eq!(get_king_attacks(Square(0)), bb(&[1, 9, 10]));
    assert_eq!(get_king_attacks(Square(80)), bb(&[70, 71, 79]));
    assert_eq!(get_king_attacks(Square(8)), bb(&[7, 16, 17]));
    assert_eq!(get_king_attacks(Square(36)), bb(&[27, 28, 37, 45, 46]));
}

#[test]
fn knight_jumps_ahead() {
    assert_eq!(get_knight_attacks(Square(40), 0), bb(&[57, 59]));
    assert_eq!(get_knight_attacks(Square(40), 1), bb(&[21, 23]));
    assert_eq!(get_knight_attacks(Square(0), 0), bb(&[19]));
    assert_eq!(get_knight_attacks(Square(8), 0), bb(&[25]));
    assert_eq!(get_knight_attacks(Square(62), 0), bb(&[79]));
    assert_eq!(get_knight_attacks(Square(63), 0), Bitboard(0));
    assert_eq!(get_knight_attacks(Square(17), 1), Bitboard(0));
    assert_eq!(get_knight_attacks(Square(18), 1), bb(&[1]));
}

#[test]
fn silver_and_gold_depend_on_the_side() {
    assert_eq!(get_silver_attacks(Square(40), 0), bb(&[30, 32, 48, 49, 50]));
    assert_eq!(get_silver_attacks(Square(40), 1), bb(&[30, 31, 32, 48, 50]));
    assert_eq!(get_gold_attacks(Square(40), 0), bb(&[31, 39, 41, 48, 49, 50]));
    assert_eq!(get_gold_attacks(Square(40), 1), bb(&[30, 31, 32, 39, 41, 49]));
    assert_eq!(get_gold_attacks(Square(0), 0), bb(&[1, 9, 10]));
    assert_eq!(get_gold_attacks(Square(0), 1), bb(&[1, 9]));
    assert_eq!(get_silver_attacks(Square(80), 0), bb(&[70]));
    assert_eq!(get_silver_attacks(Square(80), 1), bb(&[70, 71]));
}

#[test]
fn rays_stop_at_the_edge() {
    assert_eq!(ray_mask(0, Square(40)), bb(&[49, 58, 67, 76]));
    assert_eq!(ray_mask(1, Square(40)), bb(&[31, 22, 13, 4]));
    assert_eq!(ray_mask(2, Square(40)), bb(&[39, 38, 37, 36]));
    assert_eq!(ray_mask(3, Square(40)), bb(&[41, 42, 43, 44]));
    assert_eq!(ray_mask(4, Square(40)), bb(&[50, 60, 70, 80]));
    assert_eq!(ray_mask(5, Square(40)), bb(&[32, 24, 16, 8]));
    assert_eq!(ray_mask(6, Square(40)), bb(&[48, 56, 64, 72]));
    assert_eq!(ray_mask(7, Square(40)), bb(&[30, 20, 10, 0]));
    assert_eq!(ray_mask(3, Square(8)), Bitboard(0));
    assert_eq!(ray_mask(2, Square(9)), Bitboard(0));
    assert_eq!(ray_mask(4, Square(17)), Bitboard(0));
    assert_eq!(ray_mask(6, Square(7)), bb(&[15, 23, 31, 39, 47, 55, 63]));
    assert_eq!(inner_ray_mask(0, Square(40)), bb(&[49, 58, 67]));
    assert_eq!(inner_ray_mask(0, Square(67)), Bitboard(0));
    assert_eq!(step_mask(Square(8), 3), Bitboard(0));
    assert_eq!(step_mask(Square(8), 0), bb(&[17]));
}

#[test]
fn blocker_masks_leave_the_edges_out() {
    assert_eq!(blocker_mask(0, Square(4)), bb(&[13, 22, 31, 40, 49, 58, 67]));
    assert_eq!(blocker_mask(1, Square(76)), bb(&[67, 58, 49, 40, 31, 22, 13]));
    assert_eq!(blocker_mask(2, Square(40)), bb(&[50, 60, 70, 32, 24, 16, 48, 56, 64, 30, 20, 10]));
    assert_eq!(blocker_mask(3, Square(40)), bb(&[49, 58, 67, 31, 22, 13, 39, 38, 37, 41, 42, 43]));
    assert_eq!(blocker_mask(3, Square(0)).popcount(), 14);
    assert_eq!(blocker_mask(2, Square(0)), bb(&[10, 20, 30, 40, 50, 60, 70]));
}

#[test]
fn rook_slides_to_the_first_piece() {
    let open = bb(&[4, 13, 22, 31, 49, 58, 67, 76, 36, 37, 38, 39, 41, 42, 43, 44]);
    assert_eq!(get_rook_attacks(Square(40), Bitboard(0)), open);
    let blocked = bb(&[41, 42, 39, 38, 37, 36, 49, 58, 67, 76, 31, 22]);
    assert_eq!(get_rook_attacks(Square(40), bb(&[42, 22, 40])), blocked);
    assert_eq!(classical::get_rook_attacks_internal(Square(40), bb(&[42, 22, 40])), blocked);
    assert_eq!(slideys::get_rook_attacks(Square(40), bb(&[42, 22, 40])), blocked);
    assert_eq!(get_rook_attacks(Square(0), bb(&[1, 9])), bb(&[1, 9]));
}

#[test]
fn bishop_slides_to_the_first_piece() {
    let open = bb(&[50, 60, 70, 80, 48, 56, 64, 72, 32, 24, 16, 8, 30, 20, 10, 0]);
    assert_eq!(get_bishop_attacks(Square(40), Bitboard(0)), open);
    let blocked = bb(&[50, 60, 48, 56, 64, 72, 32, 24, 30, 20, 10, 0]);
    assert_eq!(get_bishop_attacks(Square(40), bb(&[60, 24])), blocked);
    assert_eq!(classical::get_bishop_attacks_internal(Square(40), bb(&[60, 24])), blocked);
    assert_eq!(slideys::get_bishop_attacks(Square(40), bb(&[60, 24])), blocked);
}

#[test]
fn lance_slides_ahead() {
    assert_eq!(get_lance_attacks(Square(4), bb(&[22]), 0), bb(&[13, 22]));
    assert_eq!(get_lance_attacks(Square(76), bb(&[58]), 1), bb(&[67, 58]));
    assert_eq!(get_lance_attacks(Square(4), Bitboard(0), 1), Bitboard(0));
    assert_eq!(get_lance_attacks(Square(76), Bitboard(0), 0), Bitboard(0));
    assert_eq!(classical::get_lance_attacks_internal(Square(4), bb(&[22]), 0), bb(&[13, 22]));
    assert_eq!(slideys::get_lance_attacks(Square(4), bb(&[22]), 0), bb(&[13, 22]));
}

#[test]
fn pawns_step_all_at_once() {
    let pawns = bb(&[18, 19, 20, 26]);
    assert_eq!(setwise_pawns(pawns, 0), bb(&[27, 28, 29, 35]));
    assert_eq!(setwise_pawns(pawns, 1), bb(&[9, 10, 11, 17]));
    assert_eq!(pawns::setwise_pawns(pawns, bb(&[28, 18]), 0), bb(&[27, 29, 35]));
    assert_eq!(pawns::setwise_pawns(pawns, bb(&[10]), 1), bb(&[9, 11, 17]));
}

#[test]
fn extract_and_deposit() {
    let mask = bb(&[1, 4, 9, 80]);
    assert_eq!(pext128(bb(&[4, 80, 7]), mask), 0b1010);
    assert_eq!(pext128(Bitboard(u128::MAX), mask), 0b1111);
    assert_eq!(pext128(Bitboard(0), mask), 0);
    assert_eq!(pdep(Bitboard(0b1010), mask), bb(&[4, 80]));
    assert_eq!(pdep(Bitboard(0b0101), mask), bb(&[1, 9]));
    assert_eq!(pdep(Bitboard(u128::MAX), mask), mask);
    assert_eq!(pext128(Bitboard(u128::MAX), Bitboard(u128::MAX)), u128::MAX);
    for occ in occupancies() {
        assert_eq!(pdep(Bitboard(pext128(occ, mask)), mask), occ.bitand(mask));
    }
}

#[test]
fn extraction_tables_agree_with_the_ray_scan() {
    for sq in [0u8, 8, 40, 44, 72, 80] {
        let rook = init_square(3, Square(sq));
        let bishop = init_square(2, Square(sq));
        let up = init_square(0, Square(sq));
        let down = init_square(1, Square(sq));
        assert_eq!(rook.len() as u32, 1 << blocker_mask(3, Square(sq)).popcount());
        assert_eq!(bishop.len() as u32, 1 << blocker_mask(2, Square(sq)).popcount());
        for occ in occupancies() {
            assert_eq!(
                pext_attacks(3, &rook, Square(sq), occ),
                classical::get_rook_attacks_internal(Square(sq), occ)
            );
            assert_eq!(
                pext_attacks(2, &bishop, Square(sq), occ),
                classical::get_bishop_attacks_internal(Square(sq), occ)
            );
            assert_eq!(
                pext_attacks(0, &up, Square(sq), occ),
                classical::get_lance_attacks_internal(Square(sq), occ, 0)
            );
            assert_eq!(
                pext_attacks(1, &down, Square(sq), occ),
                classical::get_lance_attacks_internal(Square(sq), occ, 1)
            );
        }
    }
}

#[test]
fn lance_tables_cover_every_square() {
    let (sente, gote) = init_lance();
    assert_eq!(sente.len(), 81);
    assert_eq!(gote.len(), 81);
    assert_eq!(sente[4].len(), 128);
    assert_eq!(sente[76].len(), 1);
    assert_eq!(gote[76].len(), 128);
    for sq in 0..81u8 {
        for occ in occupancies() {
            assert_eq!(
                pext_attacks(0, &sente[sq as usize], Square(sq), occ),
                classical::get_lance_attacks_internal(Square(sq), occ, 0)
            );
            assert_eq!(
                pext_attacks(1, &gote[sq as usize], Square(sq), occ),
                classical::get_lance_attacks_internal(Square(sq), occ, 1)
            );
        }
    }
}

#[test]
fn generator_is_seeded_by_fifteen_steps() {
    let mut gen = Generator::new(0x7a57e1e55ca5cade);
    assert_eq!(gen.a, 134120760735379012273127043849820753815);
    assert_eq!(gen.b, 86961893770408252790217834769757863116);
    assert_eq!(gen.c, 78590400680708024110445125113776269909);
    assert_eq!(gen.d, 318748638146838943847317015909837837395);
    assert_eq!(gen.next(), 147004406213999116728812853733967021350);
    assert_eq!(gen.next(), 317601482768591900013352129013915859633);
    let mut other = Generator::new(1);
    assert_eq!(other.next(), 82970451422556800271962371232834817821);
    let mut again = Generator::new(1);
    let first = again.next();
    let second = again.next();
    let mut fresh = Generator::new(1);
    assert_eq!(fresh.next_candidate(), first & second & FULLMASK);
}

#[test]
fn a_multiplier_of_zero_collides() {
    assert!(try_magic(3, Square(40), 0).is_none());
    assert!(try_magic(0, Square(4), 0).is_none());
    let lone = try_magic(0, Square(76), 0);
    assert!(lone.is_some());
    assert_eq!(lone.unwrap().len(), 128);
}

#[test]
fn multiplier_tables_agree_with_the_ray_scan() {
    let mut gen = Generator::new(0x7a57e1e55ca5cade);
    for (kind, sq) in [(0u8, 4u8), (0, 40), (1, 76), (1, 40), (3, 40), (2, 0)] {
        let found = find_magic(&mut gen, kind, Square(sq), 200000);
        assert!(found.is_some());
        let (magic, table) = found.unwrap();
        assert_eq!(magic & !FULLMASK, 0);
        let again = try_magic(kind, Square(sq), magic);
        assert_eq!(again, Some(table.clone()));
        for occ in occupancies() {
            let scanned = if kind == 0 {
                classical::get_lance_attacks_internal(Square(sq), occ, 0)
            } else if kind == 1 {
                classical::get_lance_attacks_internal(Square(sq), occ, 1)
            } else if kind == 2 {
                classical::get_bishop_attacks_internal(Square(sq), occ)
            } else {
                classical::get_rook_attacks_internal(Square(sq), occ)
            };
            assert_eq!(magic_attacks(kind, magic, &table, Square(sq), occ), scanned);
        }
    }
}

#[test]
fn a_search_without_tries_finds_nothing() {
    let mut gen = Generator::new(5);
    let before = (gen.a, gen.b, gen.c, gen.d);
    assert!(find_magic(&mut gen, 0, Square(4), 0).is_none());
    assert_eq!((gen.a, gen.b, gen.c, gen.d), before);
}

#[test]
fn table_lookup_through_all_tables_of_a_lance() {
    let (lance_sente, lance_gote) = init_lance();
    let tables = shogi_core::movegen::pext::PextTables {
        lance_sente,
        lance_gote,
        bishop: (0..81).map(|sq| init_square(2, Square(sq))).collect(),
        rook: (0..81).map(|_| Vec::new()).collect(),
    };
    assert_eq!(get_lance_attacks_internal(&tables, Square(4), bb(&[22]), 0), bb(&[13, 22]));
    assert_eq!(get_lance_attacks_internal(&tables, Square(76), bb(&[58]), 1), bb(&[67, 58]));
    assert_eq!(
        shogi_core::movegen::pext::get_bishop_attacks_internal(&tables, Square(40), bb(&[60, 24])),
        bb(&[50, 60, 48, 56, 64, 72, 32, 24, 30, 20, 10, 0])
    );
}

#[test]
fn multiplier_tables_for_every_square_of_a_lance() {
    let mut gen = Generator::new(0x7a57e1e55ca5cade);
    let tables = shogi_core::movegen::magic::init_lance(&mut gen, 1000000).unwrap();
    assert_eq!(tables.0.magics.len(), 81);
    assert_eq!(tables.1.tables.len(), 81);
    for sq in 0..81u8 {
        for occ in occupancies() {
            for stm in 0..2u8 {
                assert_eq!(
                    shogi_core::movegen::magic::get_lance_attacks_internal(
                        &tables,
                        Square(sq),
                        occ,
                        stm
                    ),
                    classical::get_lance_attacks_internal(Square(sq), occ, stm)
                );
            }
        }
    }
    let mut none = Generator::new(3);
    assert!(shogi_core::movegen::magic::init_rook(&mut none, 0).is_none());
}

#[test]
fn all_extraction_tables_can_be_built() {
    let tables = shogi_core::movegen::pext::PextTables::new();
    assert_eq!(tables.rook.len(), 81);
    assert_eq!(tables.bishop.len(), 81);
    assert_eq!(tables.rook[0].len(), 1 << 14);
    assert_eq!(tables.rook[40].len(), 1 << 12);
    assert_eq!(tables.bishop[40].len(), 1 << 12);
    assert_eq!(tables.bishop[0].len(), 1 << 7);
    for sq in 0..81u8 {
        for occ in occupancies() {
            assert_eq!(
                shogi_core::movegen::pext::get_rook_attacks_internal(&tables, Square(sq), occ),
                classical::get_rook_attacks_internal(Square(sq), occ)
            );
            assert_eq!(
                shogi_core::movegen::pext::get_bishop_attacks_internal(&tables, Square(sq), occ),
                classical::get_bishop_attacks_internal(Square(sq), occ)
            );
        }
    }
    assert_eq!(shogi_core::movegen::pext::init_rook().len(), 81);
    assert_eq!(shogi_core::movegen::pext::init_bishop()[80].len(), 1 << 7);
}
