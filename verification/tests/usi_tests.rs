use shogi_core::board::Board;
use shogi_core::types::piece::Piece;
use shogi_core::types::square::Square;
use shogi_core::usi::{Reply, UsiManager, STARTPOS};

#[test]
fn position_startpos_loads_the_starting_array() {
    let mut manager = UsiManager::default();
    assert_eq!(manager.board, Board::default());
    assert_eq!(manager.interpret_command("position startpos"), Reply::Done);
    let mut board = Board::default();
    board.load_fen(STARTPOS);
    assert_eq!(manager.board, board);
    assert_eq!(manager.interpret_command("position   startpos moves 7g7f"), Reply::Done);
    assert_eq!(manager.board, board);
}

#[test]
fn position_with_a_string() {
    let mut manager = UsiManager::default();
    manager.position("position 4k4/9/9/9/9/9/9/9/4K4 w 2P 5 moves 7g7f");
    assert_eq!(manager.board.stm, 1);
    assert_eq!(manager.board.ply, 5);
    assert_eq!(manager.board.states.len(), 257);
    assert_eq!(manager.board.current_state().hands[0].num(Piece(Piece::PAWN)), 2);
    assert!(manager.try_position("position 4k4/9/9/9/9/9/9/9/4K4 b - moves 5i5h"));
    assert_eq!(manager.board.stm, 0);
    assert_eq!(manager.board.ply, 0);
    assert_eq!(manager.board.states.len(), 257);
    assert!(manager.try_position("position 4k4/9/9/9/9/9/9/9/4K4 b -"));
}

#[test]
fn a_position_that_cannot_be_loaded_is_refused() {
    let mut manager = UsiManager::default();
    assert_eq!(manager.interpret_command("position startpos"), Reply::Done);
    let before = manager.board.clone();
    for command in [
        "position",
        "position 4k4/9/9/9/9/9/9/9/4K4",
        "position 4k4/9/9/9/9/9/9/9/4K4 b",
        "position 4k4/9/9/9/9/9/9/9/4X4 b - 1",
        "position 9/9/9/9/9/9/9/9/9 b - 1",
        "position 4k4/9/9/9/9/9/9/9/4K4 b - x",
        "position startposs",
    ] {
        assert_eq!(manager.interpret_command(command), Reply::Refused, "{}", command);
        assert_eq!(manager.board, before);
    }
}

#[test]
fn makemove_plays_the_action_at_the_index() {
    let mut manager = UsiManager::default();
    manager.position("position startpos");
    manager.make_move("makemove 21");
    assert_eq!(manager.board.stm, 1);
    assert_eq!(manager.board.ply, 2);
    assert_eq!(manager.board.piece_on_square(Square(27)), Piece(Piece::PAWN));
    assert_eq!(manager.board.piece_on_square(Square(18)), Piece(Piece::NONE));
    assert_eq!(manager.interpret_command("makemove +0"), Reply::Done);
    assert_eq!(manager.board.stm, 0);
    let before = manager.board.clone();
    for command in ["makemove", "makemove 600", "makemove x", "makemove -1", "makemove 1e3", "makemove 99999999999999999999"] {
        assert_eq!(manager.interpret_command(command), Reply::Refused, "{}", command);
        assert_eq!(manager.board, before);
    }
    assert!(manager.try_make_move("makemove 29"));
}

#[test]
fn commands_are_told_apart() {
    let mut manager = UsiManager::default();
    manager.position("position startpos");
    let before = manager.board.clone();
    assert_eq!(manager.interpret_command(""), Reply::Empty);
    assert_eq!(manager.interpret_command("   "), Reply::Empty);
    assert_eq!(manager.interpret_command("quit"), Reply::Quit);
    assert_eq!(manager.interpret_command(" quit now"), Reply::Quit);
    assert_eq!(manager.interpret_command("print"), Reply::Print);
    assert_eq!(manager.interpret_command("perft 3"), Reply::Perft(3));
    assert_eq!(manager.interpret_command("perft 255"), Reply::Perft(255));
    assert_eq!(manager.interpret_command("perft 256"), Reply::BadDepth);
    assert_eq!(manager.interpret_command("perft"), Reply::BadDepth);
    assert_eq!(manager.interpret_command("perft deep"), Reply::BadDepth);
    assert_eq!(manager.interpret_command("splitperft 1"), Reply::SplitPerft(1));
    assert_eq!(manager.interpret_command("splitperft"), Reply::BadDepth);
    assert_eq!(manager.interpret_command("go"), Reply::Invalid);
    assert_eq!(manager.interpret_command("Quit"), Reply::Invalid);
    assert_eq!(manager.interpret_command("perftt 1"), Reply::Invalid);
    assert_eq!(manager.board, before);
}
