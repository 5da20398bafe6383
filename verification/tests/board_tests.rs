use shogi_core::board::{Board, Position};
use shogi_core::perft::{is_king_safe, perft_internal};
use shogi_core::sfen::parse_sfen;
use shogi_core::types::action::Action;
use shogi_core::types::bitboard::Bitboard;
use shogi_core::types::hand::Hand;
use shogi_core::types::piece::Piece;
use shogi_core::types::square::Square;

const STARTPOS: &str = "lnsgkgsnl/1r5b1/ppppppppp/9/9/9/PPPPPPPPP/1B5R1/LNSGKGSNL b - 1";

fn bb(squares: &[u8]) -> Bitboard {
    let mut word: u128 = 0;
    for sq in squares {
        word |= 1u128 << *sq;
    }
    Bitboard(word)
}

fn loaded(fen: &str) -> Board {
    let mut board = Board::default();
    assert!(board.try_load_fen(fen));
    board
}

fn consistent(position: &Position) -> bool {
    let mut ok = true;
    for sq in 0..81usize {
        let piece = position.mailbox[sq];
        let bit = 1u128 << sq;
        ok &= (position.occupied().0 & bit != 0) == (piece != Piece(Piece::NONE));
        for side in 0..2usize {
            let there = position.sides[side].0 & bit != 0;
            ok &= there == (piece != Piece(Piece::NONE) && piece.side() as usize == side);
        }
        for kind in 0..14usize {
            let there = position.pieces[kind].0 & bit != 0;
            ok &= there == (piece != Piece(Piece::NONE) && piece.piece().0 as usize == kind);
        }
    }
    for side in 0..2 {
        ok &= position.sides[side].0 >> 81 == 0;
    }
    ok
}

#[test]
fn startpos_loads() {
    let board = loaded(STARTPOS);
    assert_eq!(board.stm, 0);
    assert_eq!(board.ply, 1);
    assert_eq!(board.states.len(), 257);
    assert!(!board.in_check());
    assert_eq!(board.current_state().checkers, Bitboard(0));
    assert_eq!(board.current_state().hands, [Hand(0), Hand(0)]);
    assert_eq!(board.piece_on_square(Square(4)), Piece(Piece::KING));
    assert_eq!(board.piece_on_square(Square(76)), Piece(Piece::KING + 16));
    assert_eq!(board.piece_on_square(Square(10)), Piece(Piece::BISHOP));
    assert_eq!(board.piece_on_square(Square(16)), Piece(Piece::ROOK));
    assert_eq!(board.piece_on_square(Square(64)), Piece(Piece::ROOK + 16));
    assert_eq!(board.piece_on_square(Square(70)), Piece(Piece::BISHOP + 16));
    assert_eq!(board.piece_on_square(Square(40)), Piece(Piece::NONE));
    assert_eq!(board.king_sq(), Square(4));
    assert!(board.king_on_board());
    assert!(consistent(board.current_state()));
    assert_eq!(board.current_state().occupied().popcount(), 40);
    assert_eq!(board.current_state().sided_piece(Piece::PAWN, 0), bb(&[18, 19, 20, 21, 22, 23, 24, 25, 26]));
    assert_eq!(board.current_state().sided_piece(Piece::GOLD, 1), bb(&[75, 77]));
}

#[test]
fn startpos_has_thirty_actions() {
    let board = loaded(STARTPOS);
    let actions = board.get_actions();
    assert_eq!(actions.len(), 30);
    assert!(!actions.is_empty());
    for action in actions.iter() {
        assert!(!action.is_drop());
        assert!(!action.is_promo());
    }
    let expected = [
        (0u8, 9u8), (2, 11), (2, 12), (3, 11), (3, 12), (3, 13), (4, 12), (4, 13), (4, 14),
        (5, 13), (5, 14), (5, 15), (6, 14), (6, 15), (8, 17), (16, 11), (16, 12), (16, 13),
        (16, 14), (16, 15), (16, 17), (18, 27), (19, 28), (20, 29), (21, 30), (22, 31),
        (23, 32), (24, 33), (25, 34), (26, 35),
    ];
    for (i, (from, to)) in expected.iter().enumerate() {
        assert_eq!(actions[i], Action::new_move(Square(*from), Square(*to), false));
    }
    assert_eq!(board.generate_actions(), actions.to_vec());
    assert_eq!(board.try_get_actions().unwrap(), actions);
}

#[test]
fn perft_of_the_starting_position() {
    let mut board = loaded(STARTPOS);
    let before = board.clone();
    assert_eq!(perft_internal(&mut board, 0), 1);
    assert_eq!(perft_internal(&mut board, 1), 30);
    assert_eq!(perft_internal(&mut board, 2), 900);
    assert_eq!(board, before);
}

#[test]
fn perft_three_of_the_starting_position() {
    let mut board = loaded(STARTPOS);
    let before = board.clone();
    assert_eq!(perft_internal(&mut board, 3), 25470);
    assert_eq!(board, before);
}

#[test]
fn perft_four_of_the_starting_position() {
    let mut board = loaded(STARTPOS);
    assert_eq!(perft_internal(&mut board, 4), 719731);
}

#[test]
fn perform_then_undo_restores_the_board() {
    for fen in [
        STARTPOS,
        "4k4/9/9/4+p4/4R4/9/9/9/4K4 b - 1",
        "4k4/9/9/9/9/9/9/9/4K4 b 2P 1",
        "4k4/4P4/9/9/9/9/9/4p4/4K4 w 3p2G 7",
        "ln1g1g1nl/1ks2r3/1pppp1bpp/p3spp2/9/P1P1P4/1P1PSPPPP/1BK1GR3/LNSG3NL b - 17",
    ] {
        let mut board = loaded(fen);
        let before = board.clone();
        let actions = board.get_actions();
        assert!(!actions.is_empty());
        for action in actions.iter() {
            if !board.is_performable(*action) {
                continue;
            }
            board.perform_action(*action);
            assert_eq!(board.stm, 1 - before.stm);
            assert_eq!(board.ply, before.ply + 1);
            assert_eq!(board.states.len(), before.states.len() + 1);
            assert!(consistent(board.current_state()));
            board.undo_action();
            assert_eq!(board, before);
        }
    }
}

#[test]
fn a_capture_goes_into_the_hand_unpromoted() {
    let mut board = loaded("4k4/9/9/4+p4/4R4/9/9/9/4K4 b - 1");
    assert_eq!(board.piece_on_square(Square(49)), Piece(Piece::PROMO_PAWN + 16));
    let capture = Action::new_move(Square(40), Square(49), false);
    assert!(board.get_actions().contains(&capture));
    assert!(!board.get_actions().contains(&Action::new_move(Square(40), Square(49), true)));
    assert!(board.is_performable(capture));
    board.perform_action(capture);
    assert_eq!(board.piece_on_square(Square(49)), Piece(Piece::ROOK));
    assert_eq!(board.piece_on_square(Square(40)), Piece(Piece::NONE));
    assert_eq!(board.current_state().hands[0].num(Piece(Piece::PAWN)), 1);
    assert_eq!(board.current_state().hands[1], Hand(0));
    assert_eq!(board.stm, 1);
    assert_eq!(board.ply, 2);
    assert!(consistent(board.current_state()));
}

#[test]
fn a_promoting_move_places_the_promoted_piece() {
    let mut board = loaded("4k4/9/9/4R4/9/9/9/9/4K4 b - 1");
    let promo = Action::new_move(Square(49), Square(58), true);
    let plain = Action::new_move(Square(49), Square(58), false);
    let actions = board.get_actions();
    let at = actions.iter().position(|a| *a == promo).unwrap();
    assert_eq!(actions[at + 1], plain);
    board.perform_action(promo);
    assert_eq!(board.piece_on_square(Square(58)), Piece(Piece::PROMO_ROOK));
    assert!(consistent(board.current_state()));
    assert_eq!(board.current_state().sided_piece(Piece::PROMO_ROOK, 0), bb(&[58]));
}

#[test]
fn pieces_that_would_be_stuck_have_to_promote() {
    let board = loaded("4k4/1P5L1/2N6/9/9/9/9/9/4K4 b - 1");
    let actions = board.get_actions();
    assert!(actions.contains(&Action::new_move(Square(64), Square(73), true)));
    assert!(!actions.contains(&Action::new_move(Square(64), Square(73), false)));
    assert!(actions.contains(&Action::new_move(Square(70), Square(79), true)));
    assert!(!actions.contains(&Action::new_move(Square(70), Square(79), false)));
    assert!(actions.contains(&Action::new_move(Square(56), Square(73), true)));
    assert!(!actions.contains(&Action::new_move(Square(56), Square(73), false)));
    assert!(actions.contains(&Action::new_move(Square(56), Square(75), true)));
    assert!(!actions.contains(&Action::new_move(Square(56), Square(75), false)));
}

#[test]
fn drops_come_after_the_moves() {
    let mut board = loaded("4k4/9/9/9/9/9/9/9/4K4 b 2P 1");
    let actions = board.get_actions();
    assert_eq!(actions.len(), 5 + 71);
    for (i, action) in actions.iter().enumerate() {
        assert_eq!(action.is_drop(), i >= 5);
        if action.is_drop() {
            assert_eq!(action.piece(), Piece(Piece::PAWN));
            assert!(action.to().0 < 72);
        }
    }
    assert_eq!(actions[5], Action::new_drop(Piece(0), Square(0)));
    let drop = Action::new_drop(Piece(0), Square(40));
    assert!(actions.contains(&drop));
    board.perform_action(drop);
    assert_eq!(board.piece_on_square(Square(40)), Piece(Piece::PAWN));
    assert_eq!(board.current_state().hands[0].num(Piece(Piece::PAWN)), 1);
    assert!(consistent(board.current_state()));
}

#[test]
fn drops_of_the_second_player() {
    let board = loaded("4k4/9/9/9/9/9/9/9/4K4 w n2l 1");
    let actions = board.get_actions();
    let drops: Vec<&Action> = actions.iter().filter(|a| a.is_drop()).collect();
    assert_eq!(drops.len(), (81 - 9 - 1) + (81 - 18 - 1));
    assert_eq!(*drops[0], Action::new_drop(Piece(Piece::LANCE + 16), Square(9)));
    assert_eq!(*drops[70], Action::new_drop(Piece(Piece::LANCE + 16), Square(80)));
    assert_eq!(*drops[71], Action::new_drop(Piece(Piece::KNIGHT + 16), Square(18)));
}

#[test]
fn no_second_pawn_on_a_file() {
    let board = loaded("4k4/9/9/9/9/9/3P5/9/4K4 b P 1");
    let actions = board.get_actions();
    let drops: Vec<&Action> = actions.iter().filter(|a| a.is_drop()).collect();
    assert_eq!(drops.len(), 63);
    assert_eq!(actions.len(), 63 + 6);
    for drop in drops {
        assert_ne!(drop.to().file(), 3);
    }
}

#[test]
fn no_pawn_drop_on_a_file_full_of_pawns() {
    for hand in ["P", "3P", "18P"] {
        let fen = format!("3P4k/3P5/3P5/3P5/3P5/3P5/3P5/3P5/K2P5 b {} 1", hand);
        let board = loaded(&fen);
        let actions = board.get_actions();
        let drops: Vec<&Action> = actions.iter().filter(|a| a.is_drop()).collect();
        assert_eq!(drops.len(), 64 - 1);
        for drop in drops {
            assert_eq!(drop.piece(), Piece(Piece::PAWN));
            assert_ne!(drop.to().file(), 3);
        }
    }
}

#[test]
fn check_is_found() {
    let board = loaded("4k4/9/9/9/4r4/9/9/9/4K4 b - 1");
    assert!(board.in_check());
    assert_eq!(board.current_state().checkers, bb(&[40]));
    assert_eq!(board.get_attackers(Square(4)), bb(&[40]));
    assert_eq!(board.get_attackers(Square(3)), Bitboard(0));
    let occ = board.current_state().occupied();
    assert!(board.square_attacked(Square(4), occ));
    assert!(!board.square_attacked(Square(3), occ));
    assert!(!board.square_attacked(Square(4), occ.bitor(bb(&[22]))));
    assert!(board.square_attacked(Square(36), occ));
    assert!(!is_king_safe(&board, 0));
    assert!(is_king_safe(&board, 1));
}

#[test]
fn every_kind_of_attacker_is_found() {
    let board = loaded("4k4/9/9/9/7b1/5n3/3sp4/3gK4/9 b - 1");
    assert_eq!(board.king_sq(), Square(13));
    assert_eq!(board.get_attackers(Square(13)), bb(&[12, 21, 22, 32, 43]));
    assert_eq!(board.current_state().checkers, bb(&[12, 21, 22, 32, 43]));
    let other = loaded("4k4/4l4/9/9/9/9/9/9/R3K4 w - 1");
    assert_eq!(other.get_attackers(Square(76)), Bitboard(0));
    let lance = loaded("K3k4/9/9/9/9/9/9/4L4/9 w - 1");
    assert_eq!(lance.get_attackers(Square(76)), bb(&[13]));
    assert!(lance.in_check());
}

#[test]
fn checkers_follow_an_update() {
    let mut board = loaded("4k4/9/9/9/9/9/9/4R4/K8 b - 1");
    assert!(!board.in_check());
    board.perform_action(Action::new_move(Square(0), Square(1), false));
    assert_eq!(board.stm, 1);
    board.update_checkers();
    assert!(board.in_check());
    assert_eq!(board.current_state().checkers, bb(&[13]));
    board.update_pins_and_checkers();
    assert_eq!(board.current_state().checkers, bb(&[13]));
}

#[test]
fn a_king_cannot_be_taken() {
    let board = loaded("4k4/4R4/9/9/9/9/9/9/4K4 b - 1");
    let take = Action::new_move(Square(67), Square(76), false);
    assert!(board.get_actions().contains(&take));
    assert!(!board.is_performable(take));
    assert!(!board.is_performable(Action::new_move(Square(40), Square(41), false)));
    assert!(!board.is_performable(Action::new_move(Square(67), Square(67), false)));
    assert!(!board.is_performable(Action::new_drop(Piece(0), Square(40))));
    assert!(!board.is_performable(Action::new_move(Square(4), Square(5), true)));
    assert!(board.is_performable(Action::new_move(Square(4), Square(5), false)));
}

#[test]
fn a_move_into_check_is_not_counted() {
    let mut board = loaded("4k4/9/9/9/9/9/9/5r3/4K4 b - 1");
    assert_eq!(board.get_actions().len(), 5);
    assert_eq!(perft_internal(&mut board, 1), 2);
}

#[test]
fn position_primitives_keep_the_board_in_step() {
    let mut position = Position::default();
    assert!(consistent(&position));
    position.add_piece(Square(40), Piece(Piece::ROOK));
    position.add_piece(Square(49), Piece(Piece::PAWN + 16));
    assert!(consistent(&position));
    assert_eq!(position.piece_on_square(Square(40)), Piece(Piece::ROOK));
    assert_eq!(position.occupied(), bb(&[40, 49]));
    assert_eq!(position.sided_piece(Piece::ROOK, 0), bb(&[40]));
    assert_eq!(position.sided_piece(Piece::ROOK, 1), Bitboard(0));
    position.move_piece(Square(40), Piece(Piece::ROOK), Square(49), Piece(Piece::PAWN + 16));
    assert!(consistent(&position));
    assert_eq!(position.occupied(), bb(&[49]));
    assert_eq!(position.piece_on_square(Square(49)), Piece(Piece::ROOK));
    position.move_piece(Square(49), Piece(Piece::ROOK), Square(0), Piece(Piece::NONE));
    assert_eq!(position.occupied(), bb(&[0]));
    position.remove_piece(Square(0), Piece(Piece::ROOK));
    assert_eq!(position, Position::default());
    position.add_piece(Square(1), Piece(Piece::PROMO_SILVER + 16));
    position.add_piece(Square(2), Piece(Piece::GOLD + 16));
    position.add_piece(Square(3), Piece(Piece::GOLD));
    assert_eq!(position.get_gold_movers(1), bb(&[1, 2]));
    assert_eq!(position.get_gold_movers(0), bb(&[3]));
}

#[test]
fn a_new_board_is_empty() {
    let board = Board::default();
    assert_eq!(board.states.len(), 256);
    assert!(board.states.iter().all(|state| *state == Position::default()));
    assert_eq!(board.stm, 0);
    assert_eq!(board.ply, 0);
    assert_eq!(*board.current_state(), Position::default());
    assert!(!board.king_on_board());
    assert_eq!(board.generate_actions(), Vec::<Action>::new());
}

#[test]
fn promotion_zones_and_bounds() {
    let mut board = Board::default();
    assert!(board.is_in_promotion_zone(Square(54)));
    assert!(!board.is_in_promotion_zone(Square(53)));
    assert!(board.is_promotable(Piece(Piece::ROOK), Square(53), Square(54)));
    assert!(board.is_promotable(Piece(Piece::PAWN), Square(60), Square(10)));
    assert!(!board.is_promotable(Piece(Piece::GOLD), Square(60), Square(70)));
    assert!(!board.is_promotable(Piece(Piece::KING), Square(60), Square(70)));
    assert!(!board.is_promotable(Piece(Piece::PROMO_PAWN), Square(60), Square(70)));
    assert!(board.is_out_of_lance_bounds(Square(72)));
    assert!(!board.is_out_of_lance_bounds(Square(71)));
    assert!(board.is_out_of_knight_bounds(Square(63)));
    assert!(!board.is_out_of_knight_bounds(Square(62)));
    assert!(board.is_out_of_bounds(Piece(Piece::LANCE), Square(72)));
    assert!(board.is_out_of_bounds(Piece(Piece::KNIGHT), Square(63)));
    assert!(!board.is_out_of_bounds(Piece(Piece::LANCE), Square(63)));
    assert!(!board.is_out_of_bounds(Piece(Piece::SILVER), Square(80)));
    board.stm = 1;
    assert!(board.is_in_promotion_zone(Square(26)));
    assert!(!board.is_in_promotion_zone(Square(27)));
    assert!(board.is_out_of_lance_bounds(Square(8)));
    assert!(!board.is_out_of_lance_bounds(Square(9)));
    assert!(board.is_out_of_knight_bounds(Square(17)));
    assert!(!board.is_out_of_knight_bounds(Square(18)));
}

#[test]
fn fields_of_a_position_string() {
    let read = parse_sfen(b"  4k4/9/9/9/9/9/9/9/4K4 \t w   2P3p18P4lS  -12  rest").unwrap();
    assert_eq!(read.stm, 1);
    assert_eq!(read.ply, Some(-12));
    assert_eq!(read.position.hands[0].num(Piece(Piece::PAWN)), 18);
    assert_eq!(read.position.hands[1].num(Piece(Piece::PAWN)), 3);
    assert_eq!(read.position.hands[1].num(Piece(Piece::LANCE)), 4);
    assert_eq!(read.position.hands[0].num(Piece(Piece::SILVER)), 1);
    assert_eq!(read.position.checkers, Bitboard(0));
    assert_eq!(parse_sfen(b"4k4/9/9/9/9/9/9/9/4K4 b -").unwrap().ply, None);
    assert_eq!(parse_sfen(b"4k4/9/9/9/9/9/9/9/4K4 x - +7").unwrap().ply, Some(7));
    assert_eq!(parse_sfen(b"4k4/9/9/9/9/9/9/9/4K4 x - +7").unwrap().stm, 0);
    assert_eq!(parse_sfen(b"4k4/9/9/9/9/9/9/9/4K4 ww - 1").unwrap().stm, 0);
    assert_eq!(parse_sfen(b"9 b - 32767").unwrap().ply, Some(32767));
    assert_eq!(parse_sfen(b"9 b - -32768").unwrap().ply, Some(-32768));
    let promoted = parse_sfen(b"+P+l2+3r b - 1").unwrap();
    assert_eq!(promoted.position.mailbox[0], Piece(Piece::PROMO_PAWN));
    assert_eq!(promoted.position.mailbox[1], Piece(Piece::PROMO_LANCE + 16));
    assert_eq!(promoted.position.mailbox[7], Piece(Piece::PROMO_ROOK + 16));
    let ranks = parse_sfen(b"K/g+/2S b - 1").unwrap();
    assert_eq!(ranks.position.mailbox[2], Piece(Piece::SILVER));
    assert_eq!(ranks.position.mailbox[3], Piece(Piece::GOLD + 16));
    assert_eq!(ranks.position.mailbox[4], Piece(Piece::KING));
    assert!(consistent(&ranks.position));
}

#[test]
fn malformed_position_strings_are_refused() {
    for fen in [
        "",
        "   ",
        "lnsgkgsnl/1r5b1/ppppppppp/9/9/9/PPPPPPPPP/1B5R1/LNSGKGSNL",
        "lnsgkgsnl/1r5b1/ppppppppp/9/9/9/PPPPPPPPP/1B5R1/LNSGKGSNL b",
        "lnsgkgsnl/1r5b1/ppppppppp/9/9/9/PPPPPPPPP/1B5R1/LNSGKGSNX b - 1",
        "lnsgkgsnl/1r5b1/ppppppppp/9/9/9/PPPPPPPPP/1B5R1/LNS+GKGSNL b - 1",
        "lnsgkgsnl/1r5b1/ppppppppp/9/9/9/PPPPPPPPP/1B5R1/LNSG+KGSNL b - 1",
        "lnsgkgsnl/1r5b1/ppppppppp/9/9/9/9/PPPPPPPPP/1B5R1/LNSGKGSNL b - 1",
        "9/9/9/9/9/9/9/9/9/K b - 1",
        "9/9/9/9/9/9/9/9/9/1 b - 1",
        "4k4/9/9/9/9/9/9/9/4K4 b 32P 1",
        "4k4/9/9/9/9/9/9/9/4K4 b 8L 1",
        "4k4/9/9/9/9/9/9/9/4K4 b 4G 1",
        "4k4/9/9/9/9/9/9/9/4K4 b P2 1",
        "4k4/9/9/9/9/9/9/9/4K4 b K 1",
        "4k4/9/9/9/9/9/9/9/4K4 b +P 1",
        "4k4/9/9/9/9/9/9/9/4K4 b -- 1",
        "4k4/9/9/9/9/9/9/9/4K4 b - abc",
        "4k4/9/9/9/9/9/9/9/4K4 b - 1x",
        "4k4/9/9/9/9/9/9/9/4K4 b - -",
        "4k4/9/9/9/9/9/9/9/4K4 b - 32768",
        "4k4/9/9/9/9/9/9/9/4K4 b - -32769",
        "4k4/9/9/9/9/9/9/9/4K4 b - 99999999999999999999999999",
        "9/9/9/9/9/9/9/9/9 b - 1",
        "4k4/9/9/9/9/9/9/9/9 b - 1",
        "9/9/9/9/9/9/9/9/4K4 w - 1",
    ] {
        let mut board = Board::default();
        let before = board.clone();
        assert!(!board.try_load_fen(fen), "{}", fen);
        assert_eq!(board, before);
    }
    assert!(parse_sfen(b"9/9/9/9/9/9/9/9/9 b - 1").is_some());
    assert!(parse_sfen(b"4k4/9/9/9/9/9/9/9/4K4 b P2 1").is_none());
}

#[test]
fn loading_pushes_on_the_history() {
    let mut board = loaded(STARTPOS);
    board.load_fen("4k4/9/9/9/9/9/9/9/4K4 w 2p");
    assert_eq!(board.states.len(), 258);
    assert_eq!(board.stm, 1);
    assert_eq!(board.ply, 1);
    assert!(board.try_load_bytes(b"4k4/9/9/9/9/9/9/9/4K4 b - 30"));
    assert_eq!(board.states.len(), 259);
    assert_eq!(board.ply, 30);
    assert_eq!(board.base, 259);
    assert_eq!(board.base_ply, 30);
}

#[test]
fn only_an_action_can_be_taken_back() {
    let mut board = Board::default();
    assert_eq!(board.base, 256);
    assert_eq!(board.base_ply, 0);
    assert!(!board.can_undo());
    assert!(board.try_load_fen(STARTPOS));
    assert_eq!(board.base, 257);
    assert_eq!(board.base_ply, 1);
    assert!(!board.can_undo());
    let loaded = board.clone();
    let actions = board.get_actions();
    board.perform_action(actions[0]);
    assert!(board.can_undo());
    let once = board.clone();
    let replies = board.get_actions();
    board.perform_action(replies[3]);
    assert!(board.can_undo());
    assert_eq!(board.ply, 3);
    assert_eq!(board.base, 257);
    board.undo_action();
    assert_eq!(board, once);
    assert!(board.can_undo());
    board.undo_action();
    assert_eq!(board, loaded);
    assert!(!board.can_undo());
    assert_eq!(board.ply, board.base_ply);
    assert_eq!(board.states.len(), 257);
    assert!(!board.try_load_fen("not a position"));
    assert_eq!(board, loaded);
}

#[test]
fn the_state_is_rendered_as_a_grid() {
    let board = loaded("4k4/9/9/4+p4/4R4/9/9/9/4K4 w 2P3p 12");
    let text = board.render_state();
    let lines: Vec<&str> = text.split('\n').collect();
    assert_eq!(lines.len(), 25);
    assert_eq!(lines[0], "┌───┬───┬───┬───┬───┬───┬───┬───┬───┐");
    assert_eq!(lines[1], "│   │   │   │   │ k │   │   │   │   │");
    assert_eq!(lines[2], "├───┼───┼───┼───┼───┼───┼───┼───┼───┤");
    assert_eq!(lines[7], "│   │   │   │   │+p │   │   │   │   │");
    assert_eq!(lines[9], "│   │   │   │   │ R │   │   │   │   │");
    assert_eq!(lines[17], "│   │   │   │   │ K │   │   │   │   │");
    assert_eq!(lines[18], "└───┴───┴───┴───┴───┴───┴───┴───┴───┘");
    assert_eq!(lines[19], "");
    assert_eq!(lines[20], "stm: gote");
    assert_eq!(lines[21], "sente hand: 2P 0L 0N 0S 0B 0R 0G ");
    assert_eq!(lines[22], "gote hand: 3p 0l 0n 0s 0b 0r 0g ");
    assert_eq!(lines[23], "ply count: 12");
    assert_eq!(lines[24], "");
    assert!(loaded(STARTPOS).render_state().contains("stm: sente\n"));
    assert!(loaded("4k4/9/9/9/9/9/9/9/4K4 b - -120").render_state().ends_with("ply count: -120\n"));
}

#[test]
fn split_counts_add_up() {
    let mut board = loaded(STARTPOS);
    let before = board.clone();
    let split = shogi_core::perft::split_perft_counts(&mut board, 2);
    assert_eq!(split.len(), 30);
    assert_eq!(split[0], (Action::new_move(Square(0), Square(9), false), 30));
    assert_eq!(split.iter().map(|(_, n)| n).sum::<u64>(), 900);
    assert_eq!(board, before);
    let one = shogi_core::perft::split_perft_counts(&mut board, 1);
    assert!(one.iter().all(|(_, n)| *n == 1));
    assert_eq!(one.len(), 30);
}

#[test]
fn the_current_position_can_be_changed_in_place() {
    let mut board = loaded("4k4/9/9/9/9/9/9/9/4K4 b - 1");
    board.current_state_mut().add_piece(Square(40), Piece(Piece::GOLD));
    assert_eq!(board.piece_on_square(Square(40)), Piece(Piece::GOLD));
    assert_eq!(board.states.len(), 257);
    assert!(consistent(board.current_state()));
}

#[test]
fn no_action_is_listed_twice() {
    for fen in [
        STARTPOS,
        "4k4/9/9/4+p4/4R4/9/9/9/4K4 b 2P3L 1",
        "4k4/4P4/9/9/9/9/9/4p4/4K4 w 3p2gbr 7",
        "ln1g1g1nl/1ks2r3/1pppp1bpp/p3spp2/9/P1P1P4/1P1PSPPPP/1BK1GR3/LNSG3NL b - 17",
    ] {
        let board = loaded(fen);
        let actions = board.get_actions();
        for i in 0..actions.len() {
            for j in 0..i {
                assert_ne!(actions[i], actions[j]);
            }
        }
    }
}

#[test]
fn pawn_drops_do_not_depend_on_the_count() {
    let mut expected: Vec<Square> = Vec::new();
    for sq in 0..72u8 {
        if sq % 9 != 3 && sq != 4 {
            expected.push(Square(sq));
        }
    }
    assert_eq!(expected.len(), 63);
    for hand in ["P", "2P", "7P", "18P", "31P", "2P3L"] {
        let fen = format!("4k4/9/9/9/9/9/3P5/9/4K4 b {} 1", hand);
        let board = loaded(&fen);
        let squares: Vec<Square> = board
            .get_actions()
            .iter()
            .filter(|a| a.is_drop() && a.piece() == Piece(Piece::PAWN))
            .map(|a| a.to())
            .collect();
        assert_eq!(squares, expected);
    }
    let second = loaded("4k4/9/3p5/9/9/9/9/9/4K4 w 2p 1");
    let squares: Vec<Square> = second
        .get_actions()
        .iter()
        .filter(|a| a.is_drop() && a.piece() == Piece(Piece::PAWN + 16))
        .map(|a| a.to())
        .collect();
    let mut expected: Vec<Square> = Vec::new();
    for sq in 9..81u8 {
        if sq % 9 != 3 && sq != 76 {
            expected.push(Square(sq));
        }
    }
    assert_eq!(squares, expected);
    let none = loaded("4k4/9/9/9/9/9/3P5/9/4K4 b L 1");
    assert!(none.get_actions().iter().all(|a| !a.is_drop() || a.piece() != Piece(Piece::PAWN)));
}
