use crate::board::{
    drops_to, lance_stuck, moves_to, must_promote, pawn_moves, plies, promotable, reach, Board,
    Position,
};
use crate::movegen::lookups::forward;
use crate::types::action::{lemma_drop_decodes, lemma_move_decodes, Action};
use crate::types::hand::Hand;
use crate::types::bitboard::squares_where;
use crate::types::piece::Piece;
use crate::types::square::{file_of, on_board, Square};
use vstd::prelude::*;

verus! {

/// Whether `a` is a move that `stm` can make on the board, legal or not: a piece of
/// `stm` goes to a square that it attacks and that holds no piece of `stm`; it promotes
/// only where it may, and stays as it is only where it need not promote.
pub open spec fn is_listed_move(pos: Position, stm: int, a: Action) -> bool {
    exists|from: int, to: int, promo: bool|
        #![trigger Action::spec_new_move(from, to, promo)]
        a == Action::spec_new_move(from, to, promo) && pos.owned_at(stm, from) && reach(
            pos.mailbox[from].kind(),
            stm,
            from,
            pos.spec_occ(),
            to,
        ) && !pos.owned_at(stm, to) && if promo {
            promotable(stm, pos.mailbox[from].kind(), from, to)
        } else {
            !must_promote(stm, pos.mailbox[from].kind(), to)
        }
}

/// Whether `a` is a drop that `stm` can make, legal or not: a piece of a kind that `stm`
/// holds goes onto an empty square where it keeps a move, and a pawn not onto a file
/// that holds a pawn of `stm`.
pub open spec fn is_listed_drop(pos: Position, stm: int, a: Action) -> bool {
    exists|kind: int, to: int|
        #![trigger Action::spec_new_drop(Piece((stm * 16 + kind) as u8), to)]
        a == Action::spec_new_drop(Piece((stm * 16 + kind) as u8), to) && 0 <= kind < 7
            && pos.hands[stm].count(kind) > 0 && pos.drop_pred(stm, kind)(to)
}

/// An element of two sequences put together is an element of one of them.
pub proof fn lemma_concat_contains<T>(a: Seq<T>, b: Seq<T>, x: T)
    ensures
        (a + b).contains(x) == (a.contains(x) || b.contains(x)),
{
    if a.contains(x) {
        let i = choose|i: int| 0 <= i < a.len() && a[i] == x;
        assert((a + b)[i] == x);
    }
    if b.contains(x) {
        let i = choose|i: int| 0 <= i < b.len() && b[i] == x;
        assert((a + b)[a.len() + i] == x);
    }
    if (a + b).contains(x) {
        let i = choose|i: int| 0 <= i < (a + b).len() && (a + b)[i] == x;
        if i < a.len() {
            assert(a[i] == x);
        } else {
            assert(b[i - a.len()] == x);
        }
    }
}

/// The squares listed for a predicate are those below the bound for which it holds.
pub proof fn lemma_where_contains(p: spec_fn(int) -> bool, n: int, s: Square)
    requires
        0 <= n <= 128,
    ensures
        squares_where(p, n).contains(s) == (s@ < n && p(s@)),
    decreases n,
{
    if n > 0 {
        lemma_where_contains(p, n - 1, s);
        let before = squares_where(p, n - 1);
        if p(n - 1) {
            let last = Square((n - 1) as u8);
            assert(squares_where(p, n) == before + seq![last]);
            lemma_concat_contains(before, seq![last], s);
            if s == last {
                assert(seq![last][0] == s);
            }
        }
    }
}

/// The actions for one origin and one target: the promoting one where the piece may
/// promote, and the plain one where it need not.
pub proof fn lemma_plies_contains(stm: int, kind: int, from: int, to: int, a: Action)
    ensures
        plies(stm, kind, from, to).contains(a) == ((promotable(stm, kind, from, to) && a
            == Action::spec_new_move(from, to, true)) || (!must_promote(stm, kind, to) && a
            == Action::spec_new_move(from, to, false))),
{
    let first = if promotable(stm, kind, from, to) {
        seq![Action::spec_new_move(from, to, true)]
    } else {
        Seq::empty()
    };
    let second = if !must_promote(stm, kind, to) {
        seq![Action::spec_new_move(from, to, false)]
    } else {
        Seq::empty()
    };
    lemma_concat_contains(first, second, a);
    if promotable(stm, kind, from, to) && a == Action::spec_new_move(from, to, true) {
        assert(first[0] == a);
    }
    if !must_promote(stm, kind, to) && a == Action::spec_new_move(from, to, false) {
        assert(second[0] == a);
    }
}

/// The actions for one origin are those for the origin and one of its targets.
pub proof fn lemma_moves_to_contains(stm: int, kind: int, from: int, targets: Seq<Square>, a: Action)
    ensures
        moves_to(stm, kind, from, targets).contains(a) == exists|j: int|
            0 <= j < targets.len() && #[trigger] plies(stm, kind, from, targets[j]@).contains(a),
    decreases targets.len(),
{
    if targets.len() > 0 {
        let rest = targets.drop_last();
        lemma_moves_to_contains(stm, kind, from, rest, a);
        lemma_concat_contains(
            moves_to(stm, kind, from, rest),
            plies(stm, kind, from, targets.last()@),
            a,
        );
        if moves_to(stm, kind, from, rest).contains(a) {
            let j = choose|j: int|
                0 <= j < rest.len() && #[trigger] plies(stm, kind, from, rest[j]@).contains(a);
            assert(plies(stm, kind, from, targets[j]@).contains(a));
        }
        if exists|j: int|
            0 <= j < targets.len() && #[trigger] plies(stm, kind, from, targets[j]@).contains(a) {
            let j = choose|j: int|
                0 <= j < targets.len() && #[trigger] plies(stm, kind, from, targets[j]@).contains(
                    a,
                );
            if j < rest.len() {
                assert(plies(stm, kind, from, rest[j]@).contains(a));
            }
        }
    }
}

/// The moves of one origin square, as the list of a position has them.
pub open spec fn moves_from(pos: Position, stm: int, from: Square) -> Seq<Action> {
    moves_to(
        stm,
        pos.mailbox[from@].kind(),
        from@,
        squares_where(pos.target_pred(stm, from@), 128),
    )
}

/// The moves of the pieces are those of one of the origin squares.
pub proof fn lemma_piece_moves_contains(pos: Position, stm: int, origins: Seq<Square>, a: Action)
    ensures
        pos.piece_moves(stm, origins).contains(a) == exists|i: int|
            0 <= i < origins.len() && #[trigger] moves_from(pos, stm, origins[i]).contains(a),
    decreases origins.len(),
{
    if origins.len() > 0 {
        let rest = origins.drop_last();
        lemma_piece_moves_contains(pos, stm, rest, a);
        lemma_concat_contains(
            pos.piece_moves(stm, rest),
            moves_from(pos, stm, origins.last()),
            a,
        );
        if pos.piece_moves(stm, rest).contains(a) {
            let i = choose|i: int|
                0 <= i < rest.len() && #[trigger] moves_from(pos, stm, rest[i]).contains(a);
            assert(moves_from(pos, stm, origins[i]).contains(a));
        }
        if exists|i: int|
            0 <= i < origins.len() && #[trigger] moves_from(pos, stm, origins[i]).contains(a) {
            let i = choose|i: int|
                0 <= i < origins.len() && #[trigger] moves_from(pos, stm, origins[i]).contains(a);
            if i < rest.len() {
                assert(moves_from(pos, stm, rest[i]).contains(a));
            }
        }
    }
}

/// The pawn moves are those onto one of the targets, from the square behind it.
pub proof fn lemma_pawn_moves_contains(stm: int, targets: Seq<Square>, a: Action)
    ensures
        pawn_moves(stm, targets).contains(a) == exists|j: int|
            0 <= j < targets.len() && #[trigger] plies(
                stm,
                0,
                targets[j]@ - 9 * forward(stm),
                targets[j]@,
            ).contains(a),
    decreases targets.len(),
{
    if targets.len() > 0 {
        let rest = targets.drop_last();
        lemma_pawn_moves_contains(stm, rest, a);
        lemma_concat_contains(
            pawn_moves(stm, rest),
            plies(stm, 0, targets.last()@ - 9 * forward(stm), targets.last()@),
            a,
        );
        if pawn_moves(stm, rest).contains(a) {
            let j = choose|j: int|
                0 <= j < rest.len() && #[trigger] plies(
                    stm,
                    0,
                    rest[j]@ - 9 * forward(stm),
                    rest[j]@,
                ).contains(a);
            assert(plies(stm, 0, targets[j]@ - 9 * forward(stm), targets[j]@).contains(a));
        }
        if exists|j: int|
            0 <= j < targets.len() && #[trigger] plies(
                stm,
                0,
                targets[j]@ - 9 * forward(stm),
                targets[j]@,
            ).contains(a) {
            let j = choose|j: int|
                0 <= j < targets.len() && #[trigger] plies(
                    stm,
                    0,
                    targets[j]@ - 9 * forward(stm),
                    targets[j]@,
                ).contains(a);
            if j < rest.len() {
                assert(plies(stm, 0, rest[j]@ - 9 * forward(stm), rest[j]@).contains(a));
            }
        }
    }
}

/// The drops of one kind are those onto one of the targets.
pub proof fn lemma_drops_to_contains(stm: int, kind: int, targets: Seq<Square>, a: Action)
    ensures
        drops_to(stm, kind, targets).contains(a) == exists|j: int|
            0 <= j < targets.len() && a == Action::spec_new_drop(
                Piece((stm * 16 + kind) as u8),
                (#[trigger] targets[j])@,
            ),
    decreases targets.len(),
{
    if targets.len() > 0 {
        let rest = targets.drop_last();
        let last = Action::spec_new_drop(Piece((stm * 16 + kind) as u8), targets.last()@);
        lemma_drops_to_contains(stm, kind, rest, a);
        assert(drops_to(stm, kind, targets) == drops_to(stm, kind, rest) + seq![last]);
        lemma_concat_contains(drops_to(stm, kind, rest), seq![last], a);
        if a == last {
            assert(seq![last][0] == a);
        }
        if drops_to(stm, kind, rest).contains(a) {
            let j = choose|j: int|
                0 <= j < rest.len() && a == Action::spec_new_drop(
                    Piece((stm * 16 + kind) as u8),
                    (#[trigger] rest[j])@,
                );
            assert(targets[j] == rest[j]);
        }
        if exists|j: int|
            0 <= j < targets.len() && a == Action::spec_new_drop(
                Piece((stm * 16 + kind) as u8),
                (#[trigger] targets[j])@,
            ) {
            let j = choose|j: int|
                0 <= j < targets.len() && a == Action::spec_new_drop(
                    Piece((stm * 16 + kind) as u8),
                    (#[trigger] targets[j])@,
                );
            if j < rest.len() {
                assert(targets[j] == rest[j]);
            }
        }
    }
}

/// The drops of one kind, as the list of a position has them.
pub open spec fn drops_of(pos: Position, stm: int, kind: int) -> Seq<Action> {
    drops_to(stm, kind, squares_where(pos.drop_pred(stm, kind), 128))
}

/// The drops are those of one of the kinds that the mover holds.
pub proof fn lemma_drops_upto_contains(pos: Position, stm: int, n: int, a: Action)
    ensures
        pos.drops_upto(stm, n).contains(a) == exists|kind: int|
            0 <= kind < n && pos.hands[stm].count(kind) > 0 && #[trigger] drops_of(
                pos,
                stm,
                kind,
            ).contains(a),
    decreases n,
{
    if n > 0 {
        lemma_drops_upto_contains(pos, stm, n - 1, a);
        let last = if pos.hands[stm].count(n - 1) > 0 {
            drops_of(pos, stm, n - 1)
        } else {
            Seq::empty()
        };
        lemma_concat_contains(pos.drops_upto(stm, n - 1), last, a);
        if pos.drops_upto(stm, n - 1).contains(a) {
            let kind = choose|kind: int|
                0 <= kind < n - 1 && pos.hands[stm].count(kind) > 0 && #[trigger] drops_of(
                    pos,
                    stm,
                    kind,
                ).contains(a);
            assert(0 <= kind < n && drops_of(pos, stm, kind).contains(a));
        }
        if last.contains(a) {
            assert(0 <= n - 1 < n && drops_of(pos, stm, n - 1).contains(a));
        }
        if exists|kind: int|
            0 <= kind < n && pos.hands[stm].count(kind) > 0 && #[trigger] drops_of(
                pos,
                stm,
                kind,
            ).contains(a) {
            let kind = choose|kind: int|
                0 <= kind < n && pos.hands[stm].count(kind) > 0 && #[trigger] drops_of(
                    pos,
                    stm,
                    kind,
                ).contains(a);
            if kind < n - 1 {
                assert(pos.drops_upto(stm, n - 1).contains(a));
            } else {
                assert(last.contains(a));
            }
        }
    }
}

/// What the list of actions holds: an action is listed for `stm` exactly when it is a
/// move that `stm` can make or a drop that `stm` can make. So the list holds no move
/// that takes a piece of the mover, no drop without a piece in hand, and no pawn drop
/// onto a file that holds a pawn of the mover; and it leaves no such move or drop out.
pub proof fn lemma_listed(pos: Position, stm: int, a: Action)
    requires
        pos.wf(),
        0 <= stm < 2,
    ensures
        pos.pseudo_legal(stm).contains(a) == (is_listed_move(pos, stm, a) || is_listed_drop(
            pos,
            stm,
            a,
        )),
{
    let origins = squares_where(pos.own_pred(stm), 128);
    let targets = squares_where(pos.pawn_target_pred(stm), 128);
    let by_piece = pos.piece_moves(stm, origins);
    let by_pawn = pawn_moves(stm, targets);
    let by_drop = pos.drops_upto(stm, 7);
    lemma_concat_contains(by_piece + by_pawn, by_drop, a);
    lemma_concat_contains(by_piece, by_pawn, a);
    lemma_piece_moves_contains(pos, stm, origins, a);
    lemma_pawn_moves_contains(stm, targets, a);
    lemma_drops_upto_contains(pos, stm, 7, a);
    if by_piece.contains(a) {
        let i = choose|i: int|
            0 <= i < origins.len() && #[trigger] moves_from(pos, stm, origins[i]).contains(a);
        let from = origins[i];
        assert(origins.contains(from));
        lemma_where_contains(pos.own_pred(stm), 128, from);
        let kind = pos.mailbox[from@].kind();
        let reached = squares_where(pos.target_pred(stm, from@), 128);
        lemma_moves_to_contains(stm, kind, from@, reached, a);
        let j = choose|j: int|
            0 <= j < reached.len() && #[trigger] plies(stm, kind, from@, reached[j]@).contains(a);
        let to = reached[j];
        assert(reached.contains(to));
        lemma_where_contains(pos.target_pred(stm, from@), 128, to);
        lemma_plies_contains(stm, kind, from@, to@, a);
        if a == Action::spec_new_move(from@, to@, true) {
            assert(is_listed_move(pos, stm, a));
        } else {
            assert(a == Action::spec_new_move(from@, to@, false));
            assert(is_listed_move(pos, stm, a));
        }
    }
    if by_pawn.contains(a) {
        let j = choose|j: int|
            0 <= j < targets.len() && #[trigger] plies(
                stm,
                0,
                targets[j]@ - 9 * forward(stm),
                targets[j]@,
            ).contains(a);
        let to = targets[j];
        let from = to@ - 9 * forward(stm);
        assert(targets.contains(to));
        lemma_where_contains(pos.pawn_target_pred(stm), 128, to);
        lemma_plies_contains(stm, 0, from, to@, a);
        assert(pos.mailbox[from].kind() == 0 && pos.owned_at(stm, from));
        if a == Action::spec_new_move(from, to@, true) {
            assert(is_listed_move(pos, stm, a));
        } else {
            assert(a == Action::spec_new_move(from, to@, false));
            assert(is_listed_move(pos, stm, a));
        }
    }
    if by_drop.contains(a) {
        let kind = choose|kind: int|
            0 <= kind < 7 && pos.hands[stm].count(kind) > 0 && #[trigger] drops_of(
                pos,
                stm,
                kind,
            ).contains(a);
        let open = squares_where(pos.drop_pred(stm, kind), 128);
        lemma_drops_to_contains(stm, kind, open, a);
        let j = choose|j: int|
            0 <= j < open.len() && a == Action::spec_new_drop(
                Piece((stm * 16 + kind) as u8),
                (#[trigger] open[j])@,
            );
        let to = open[j];
        assert(open.contains(to));
        lemma_where_contains(pos.drop_pred(stm, kind), 128, to);
        assert(a == Action::spec_new_drop(Piece((stm * 16 + kind) as u8), to@));
        assert(is_listed_drop(pos, stm, a));
    }
    if is_listed_move(pos, stm, a) {
        let (from, to, promo) = choose|from: int, to: int, promo: bool|
            #![trigger Action::spec_new_move(from, to, promo)]
            a == Action::spec_new_move(from, to, promo) && pos.owned_at(stm, from) && reach(
                pos.mailbox[from].kind(),
                stm,
                from,
                pos.spec_occ(),
                to,
            ) && !pos.owned_at(stm, to) && if promo {
                promotable(stm, pos.mailbox[from].kind(), from, to)
            } else {
                !must_promote(stm, pos.mailbox[from].kind(), to)
            };
        let kind = pos.mailbox[from].kind();
        assert(pos.mailbox[from].valid());
        if kind == 0 {
            let target = Square(to as u8);
            lemma_where_contains(pos.pawn_target_pred(stm), 128, target);
            assert(targets.contains(target));
            let j = choose|j: int| 0 <= j < targets.len() && targets[j] == target;
            lemma_plies_contains(stm, 0, from, to, a);
            assert(plies(stm, 0, targets[j]@ - 9 * forward(stm), targets[j]@).contains(a));
        } else {
            let origin = Square(from as u8);
            lemma_where_contains(pos.own_pred(stm), 128, origin);
            assert(origins.contains(origin));
            let i = choose|i: int| 0 <= i < origins.len() && origins[i] == origin;
            let reached = squares_where(pos.target_pred(stm, from), 128);
            let target = Square(to as u8);
            lemma_where_contains(pos.target_pred(stm, from), 128, target);
            assert(reached.contains(target));
            let j = choose|j: int| 0 <= j < reached.len() && reached[j] == target;
            lemma_plies_contains(stm, kind, from, to, a);
            assert(plies(stm, kind, from, reached[j]@).contains(a));
            lemma_moves_to_contains(stm, kind, from, reached, a);
            assert(moves_from(pos, stm, origins[i]).contains(a));
        }
    }
    if is_listed_drop(pos, stm, a) {
        let (kind, to) = choose|kind: int, to: int|
            #![trigger Action::spec_new_drop(Piece((stm * 16 + kind) as u8), to)]
            a == Action::spec_new_drop(Piece((stm * 16 + kind) as u8), to) && 0 <= kind < 7
                && pos.hands[stm].count(kind) > 0 && pos.drop_pred(stm, kind)(to);
        let open = squares_where(pos.drop_pred(stm, kind), 128);
        let target = Square(to as u8);
        lemma_where_contains(pos.drop_pred(stm, kind), 128, target);
        assert(open.contains(target));
        let j = choose|j: int| 0 <= j < open.len() && open[j] == target;
        lemma_drops_to_contains(stm, kind, open, a);
        assert(a == Action::spec_new_drop(Piece((stm * 16 + kind) as u8), open[j]@));
        assert(drops_of(pos, stm, kind).contains(a));
    }
}

/// Whether the piece on the square that `a` reaches, if there is one, can go into the
/// hand of `stm`: it is no king, and the counter of its kind has room.
pub open spec fn takes_what_fits(pos: Position, stm: int, a: Action) -> bool {
    pos.mailbox[a.spec_to()].is_real() ==> {
        let kind = pos.mailbox[a.spec_to()].spec_unpromote().kind();
        Hand::holds_kind(kind) && pos.hands[stm].count(kind)
            < Hand::max_count(kind)
    }
}

/// Every listed action can be carried out, but for one that takes a king or a piece
/// that the mover's hand has no room for.
pub proof fn lemma_listed_is_admitted(pos: Position, stm: int, a: Action)
    requires
        pos.wf(),
        0 <= stm < 2,
        pos.pseudo_legal(stm).contains(a),
        takes_what_fits(pos, stm, a),
    ensures
        pos.admits(stm, a),
{
    lemma_listed(pos, stm, a);
    if is_listed_move(pos, stm, a) {
        let (from, to, promo) = choose|from: int, to: int, promo: bool|
            #![trigger Action::spec_new_move(from, to, promo)]
            a == Action::spec_new_move(from, to, promo) && pos.owned_at(stm, from) && reach(
                pos.mailbox[from].kind(),
                stm,
                from,
                pos.spec_occ(),
                to,
            ) && !pos.owned_at(stm, to) && if promo {
                promotable(stm, pos.mailbox[from].kind(), from, to)
            } else {
                !must_promote(stm, pos.mailbox[from].kind(), to)
            };
        lemma_move_decodes(from, to, promo);
        assert(pos.mailbox[from].valid());
        assert(from != to && on_board(to));
    } else {
        let (kind, to) = choose|kind: int, to: int|
            #![trigger Action::spec_new_drop(Piece((stm * 16 + kind) as u8), to)]
            a == Action::spec_new_drop(Piece((stm * 16 + kind) as u8), to) && 0 <= kind < 7
                && pos.hands[stm].count(kind) > 0 && pos.drop_pred(stm, kind)(to);
        lemma_drop_decodes(Piece((stm * 16 + kind) as u8), to);
    }
}

/// Carrying a listed action out and taking it back restores the board, bit for bit: the
/// positions of the history, the side to move and the ply counter. This holds of every
/// listed action that can be carried out at all: one that takes no king and no piece
/// that the mover's hand has no room for, on a board whose ply counter has room.
pub proof fn lemma_listed_round_trip(before: Board, a: Action, after: Board, back: Board)
    requires
        before.wf(),
        before.ply < i16::MAX,
        before.pseudo_legal_actions().contains(a),
        takes_what_fits(before.current(), before.stm as int, a),
        before.performed(a, after),
        after.undone(back),
    ensures
        before.can_perform(a),
        after.outstanding() > 0,
        back.same_as(before),
{
    lemma_listed_is_admitted(before.current(), before.stm as int, a);
}

/// No pawn is dropped where the mover has a pawn on the file already, however many
/// pawns the mover holds: no drop of a pawn onto such a square is listed.
pub proof fn lemma_no_second_pawn(pos: Position, stm: int, to: int)
    requires
        pos.wf(),
        0 <= stm < 2,
        on_board(to),
        pos.pawn_on_file(stm, to),
    ensures
        !pos.pseudo_legal(stm).contains(Action::spec_new_drop(Piece((stm * 16) as u8), to)),
{
    let a = Action::spec_new_drop(Piece((stm * 16) as u8), to);
    lemma_listed(pos, stm, a);
    if is_listed_drop(pos, stm, a) {
        let (kind, t) = choose|kind: int, t: int|
            #![trigger Action::spec_new_drop(Piece((stm * 16 + kind) as u8), t)]
            a == Action::spec_new_drop(Piece((stm * 16 + kind) as u8), t) && 0 <= kind < 7
                && pos.hands[stm].count(kind) > 0 && pos.drop_pred(stm, kind)(t);
        lemma_drop_decodes(Piece((stm * 16 + kind) as u8), t);
        lemma_drop_decodes(Piece((stm * 16) as u8), to);
    }
    if is_listed_move(pos, stm, a) {
        let (from, t, promo) = choose|from: int, t: int, promo: bool|
            #![trigger Action::spec_new_move(from, t, promo)]
            a == Action::spec_new_move(from, t, promo) && pos.owned_at(stm, from) && reach(
                pos.mailbox[from].kind(),
                stm,
                from,
                pos.spec_occ(),
                t,
            );
        lemma_move_decodes(from, t, promo);
        lemma_drop_decodes(Piece((stm * 16) as u8), to);
    }
}

/// A mover with nothing in hand is offered no drop: every listed action is a move.
pub proof fn lemma_empty_hand_no_drop(pos: Position, stm: int, a: Action)
    requires
        pos.wf(),
        0 <= stm < 2,
        forall|kind: int| 0 <= kind < 7 ==> pos.hands[stm].count(kind) == 0,
        pos.pseudo_legal(stm).contains(a),
    ensures
        !a.spec_is_drop(),
{
    lemma_listed(pos, stm, a);
    let (from, to, promo) = choose|from: int, to: int, promo: bool|
        #![trigger Action::spec_new_move(from, to, promo)]
        a == Action::spec_new_move(from, to, promo) && pos.owned_at(stm, from) && reach(
            pos.mailbox[from].kind(),
            stm,
            from,
            pos.spec_occ(),
            to,
        );
    lemma_move_decodes(from, to, promo);
}

/// Two sequences without a repeated element and without an element in common make,
/// put together, a sequence without a repeated element.
pub proof fn lemma_concat_distinct<T>(a: Seq<T>, b: Seq<T>)
    requires
        a.no_duplicates(),
        b.no_duplicates(),
        forall|x: T| a.contains(x) ==> !b.contains(x),
    ensures
        (a + b).no_duplicates(),
{
    assert forall|i: int, j: int|
        0 <= i < (a + b).len() && 0 <= j < (a + b).len() && i != j implies (a + b)[i] != (a
        + b)[j] by {
        if i < a.len() && j >= a.len() {
            assert(a.contains(a[i]));
            assert(b.contains(b[j - a.len()]));
        }
        if j < a.len() && i >= a.len() {
            assert(a.contains(a[j]));
            assert(b.contains(b[i - a.len()]));
        }
    }
}

/// The squares listed for a predicate are listed once each.
pub proof fn lemma_where_distinct(p: spec_fn(int) -> bool, n: int)
    requires
        0 <= n <= 128,
    ensures
        squares_where(p, n).no_duplicates(),
    decreases n,
{
    if n > 0 {
        lemma_where_distinct(p, n - 1);
        let before = squares_where(p, n - 1);
        if p(n - 1) {
            let last = Square((n - 1) as u8);
            assert(squares_where(p, n) == before + seq![last]);
            assert forall|x: Square| before.contains(x) implies !seq![last].contains(x) by {
                lemma_where_contains(p, n - 1, x);
            }
            lemma_concat_distinct(before, seq![last]);
        }
    }
}

/// Whether every square of a sequence is below 128, and none occurs twice.
pub open spec fn distinct_squares(squares: Seq<Square>) -> bool {
    squares.no_duplicates() && forall|j: int|
        0 <= j < squares.len() ==> (#[trigger] squares[j])@ < 128
}

/// Part of a sequence of distinct squares is a sequence of distinct squares.
pub proof fn lemma_distinct_rest(squares: Seq<Square>)
    requires
        distinct_squares(squares),
        squares.len() > 0,
    ensures
        distinct_squares(squares.drop_last()),
        !squares.drop_last().contains(squares.last()),
{
    let rest = squares.drop_last();
    assert forall|i: int, j: int| 0 <= i < rest.len() && 0 <= j < rest.len() && i != j implies rest[i]
        != rest[j] by {
        assert(rest[i] == squares[i] && rest[j] == squares[j]);
    }
    if rest.contains(squares.last()) {
        let j = choose|j: int| 0 <= j < rest.len() && rest[j] == squares.last();
        assert(squares[j] == squares[squares.len() - 1]);
    }
}

/// What the actions for one origin and one target are: moves from that origin to that
/// target.
pub proof fn lemma_plies_shape(stm: int, kind: int, from: int, to: int, a: Action)
    requires
        0 <= from < 128,
        0 <= to < 128,
        plies(stm, kind, from, to).contains(a),
    ensures
        !a.spec_is_drop(),
        a.spec_origin() == from,
        a.spec_to() == to,
{
    lemma_plies_contains(stm, kind, from, to, a);
    lemma_move_decodes(from, to, true);
    lemma_move_decodes(from, to, false);
}

/// The actions for one origin and one target are listed once each.
pub proof fn lemma_plies_distinct(stm: int, kind: int, from: int, to: int)
    requires
        0 <= from < 128,
        0 <= to < 128,
    ensures
        plies(stm, kind, from, to).no_duplicates(),
{
    lemma_move_decodes(from, to, true);
    lemma_move_decodes(from, to, false);
}

/// What the actions for one origin are: moves from that origin to one of the targets.
pub proof fn lemma_moves_to_shape(stm: int, kind: int, from: int, targets: Seq<Square>, a: Action)
    requires
        0 <= from < 128,
        distinct_squares(targets),
        moves_to(stm, kind, from, targets).contains(a),
    ensures
        !a.spec_is_drop(),
        a.spec_origin() == from,
        0 <= a.spec_to() < 128,
        targets.contains(Square(a.spec_to() as u8)),
{
    lemma_moves_to_contains(stm, kind, from, targets, a);
    let j = choose|j: int|
        0 <= j < targets.len() && #[trigger] plies(stm, kind, from, targets[j]@).contains(a);
    lemma_plies_shape(stm, kind, from, targets[j]@, a);
    assert(targets[j] == Square(a.spec_to() as u8));
}

/// The actions for one origin are listed once each.
pub proof fn lemma_moves_to_distinct(stm: int, kind: int, from: int, targets: Seq<Square>)
    requires
        0 <= from < 128,
        distinct_squares(targets),
    ensures
        moves_to(stm, kind, from, targets).no_duplicates(),
    decreases targets.len(),
{
    if targets.len() > 0 {
        let rest = targets.drop_last();
        let last = targets.last();
        lemma_distinct_rest(targets);
        lemma_moves_to_distinct(stm, kind, from, rest);
        lemma_plies_distinct(stm, kind, from, last@);
        assert forall|x: Action| moves_to(stm, kind, from, rest).contains(x) implies !plies(
            stm,
            kind,
            from,
            last@,
        ).contains(x) by {
            lemma_moves_to_shape(stm, kind, from, rest, x);
            if plies(stm, kind, from, last@).contains(x) {
                lemma_plies_shape(stm, kind, from, last@, x);
                assert(Square(x.spec_to() as u8) == last);
            }
        }
        lemma_concat_distinct(moves_to(stm, kind, from, rest), plies(stm, kind, from, last@));
    }
}

/// The squares that a list of squares is made for are distinct squares.
pub proof fn lemma_where_is_distinct(p: spec_fn(int) -> bool)
    ensures
        distinct_squares(squares_where(p, 128)),
{
    lemma_where_distinct(p, 128);
    let all = squares_where(p, 128);
    assert forall|j: int| 0 <= j < all.len() implies (#[trigger] all[j])@ < 128 by {
        assert(all.contains(all[j]));
        lemma_where_contains(p, 128, all[j]);
    }
}

/// What the moves of one origin square are: moves from that square, which holds no pawn.
pub proof fn lemma_moves_from_shape(pos: Position, stm: int, from: Square, a: Action)
    requires
        from@ < 128,
        moves_from(pos, stm, from).contains(a),
    ensures
        !a.spec_is_drop(),
        a.spec_origin() == from@,
        pos.mailbox[from@].kind() != 0,
{
    let reached = squares_where(pos.target_pred(stm, from@), 128);
    lemma_where_is_distinct(pos.target_pred(stm, from@));
    lemma_moves_to_shape(stm, pos.mailbox[from@].kind(), from@, reached, a);
    lemma_where_contains(pos.target_pred(stm, from@), 128, Square(a.spec_to() as u8));
}

/// What the moves of the pieces are: moves from one of the origin squares, which holds
/// no pawn.
pub proof fn lemma_piece_moves_shape(pos: Position, stm: int, origins: Seq<Square>, a: Action)
    requires
        distinct_squares(origins),
        pos.piece_moves(stm, origins).contains(a),
    ensures
        !a.spec_is_drop(),
        0 <= a.spec_origin() < 128,
        origins.contains(Square(a.spec_origin() as u8)),
        pos.mailbox[a.spec_origin()].kind() != 0,
{
    lemma_piece_moves_contains(pos, stm, origins, a);
    let i = choose|i: int|
        0 <= i < origins.len() && #[trigger] moves_from(pos, stm, origins[i]).contains(a);
    lemma_moves_from_shape(pos, stm, origins[i], a);
    assert(origins[i] == Square(a.spec_origin() as u8));
}

/// The moves of the pieces are listed once each.
pub proof fn lemma_piece_moves_distinct(pos: Position, stm: int, origins: Seq<Square>)
    requires
        distinct_squares(origins),
    ensures
        pos.piece_moves(stm, origins).no_duplicates(),
    decreases origins.len(),
{
    if origins.len() > 0 {
        let rest = origins.drop_last();
        let last = origins.last();
        lemma_distinct_rest(origins);
        lemma_piece_moves_distinct(pos, stm, rest);
        lemma_where_is_distinct(pos.target_pred(stm, last@));
        lemma_moves_to_distinct(
            stm,
            pos.mailbox[last@].kind(),
            last@,
            squares_where(pos.target_pred(stm, last@), 128),
        );
        assert forall|x: Action| pos.piece_moves(stm, rest).contains(x) implies !moves_from(
            pos,
            stm,
            last,
        ).contains(x) by {
            lemma_piece_moves_shape(pos, stm, rest, x);
            if moves_from(pos, stm, last).contains(x) {
                lemma_moves_from_shape(pos, stm, last, x);
                assert(Square(x.spec_origin() as u8) == last);
            }
        }
        lemma_concat_distinct(pos.piece_moves(stm, rest), moves_from(pos, stm, last));
    }
}

/// Whether every square of a sequence has, right behind it for `stm`, a square of the
/// board.
pub open spec fn backed_squares(stm: int, targets: Seq<Square>) -> bool {
    forall|j: int|
        0 <= j < targets.len() ==> on_board((#[trigger] targets[j])@ - 9 * forward(stm))
}

/// What the pawn moves are: moves onto one of the targets from the square behind it.
pub proof fn lemma_pawn_moves_shape(stm: int, targets: Seq<Square>, a: Action)
    requires
        distinct_squares(targets),
        backed_squares(stm, targets),
        pawn_moves(stm, targets).contains(a),
    ensures
        !a.spec_is_drop(),
        0 <= a.spec_to() < 128,
        targets.contains(Square(a.spec_to() as u8)),
        a.spec_origin() == a.spec_to() - 9 * forward(stm),
{
    lemma_pawn_moves_contains(stm, targets, a);
    let j = choose|j: int|
        0 <= j < targets.len() && #[trigger] plies(
            stm,
            0,
            targets[j]@ - 9 * forward(stm),
            targets[j]@,
        ).contains(a);
    lemma_plies_shape(stm, 0, targets[j]@ - 9 * forward(stm), targets[j]@, a);
    assert(targets[j] == Square(a.spec_to() as u8));
}

/// The pawn moves are listed once each.
pub proof fn lemma_pawn_moves_distinct(stm: int, targets: Seq<Square>)
    requires
        distinct_squares(targets),
        backed_squares(stm, targets),
    ensures
        pawn_moves(stm, targets).no_duplicates(),
    decreases targets.len(),
{
    if targets.len() > 0 {
        let rest = targets.drop_last();
        let last = targets.last();
        lemma_distinct_rest(targets);
        assert(backed_squares(stm, rest)) by {
            assert forall|j: int| 0 <= j < rest.len() implies on_board(
                (#[trigger] rest[j])@ - 9 * forward(stm),
            ) by {
                assert(rest[j] == targets[j]);
            }
        }
        lemma_pawn_moves_distinct(stm, rest);
        let behind = last@ - 9 * forward(stm);
        assert(on_board(targets[targets.len() - 1]@ - 9 * forward(stm)));
        lemma_plies_distinct(stm, 0, behind, last@);
        assert forall|x: Action| pawn_moves(stm, rest).contains(x) implies !plies(
            stm,
            0,
            behind,
            last@,
        ).contains(x) by {
            lemma_pawn_moves_shape(stm, rest, x);
            if plies(stm, 0, behind, last@).contains(x) {
                lemma_plies_shape(stm, 0, behind, last@, x);
                assert(Square(x.spec_to() as u8) == last);
            }
        }
        lemma_concat_distinct(pawn_moves(stm, rest), plies(stm, 0, behind, last@));
    }
}

/// What the drops of one kind are: drops of that kind onto one of the targets.
pub proof fn lemma_drops_to_shape(stm: int, kind: int, targets: Seq<Square>, a: Action)
    requires
        0 <= stm < 2,
        0 <= kind < 7,
        distinct_squares(targets),
        drops_to(stm, kind, targets).contains(a),
    ensures
        a.spec_is_drop(),
        !a.spec_is_promo(),
        a.spec_origin() == stm * 16 + kind,
        0 <= a.spec_to() < 128,
        targets.contains(Square(a.spec_to() as u8)),
{
    lemma_drops_to_contains(stm, kind, targets, a);
    let j = choose|j: int|
        0 <= j < targets.len() && a == Action::spec_new_drop(
            Piece((stm * 16 + kind) as u8),
            (#[trigger] targets[j])@,
        );
    lemma_drop_decodes(Piece((stm * 16 + kind) as u8), targets[j]@);
    assert(targets[j] == Square(a.spec_to() as u8));
}

/// The drops of one kind are listed once each.
pub proof fn lemma_drops_to_distinct(stm: int, kind: int, targets: Seq<Square>)
    requires
        0 <= stm < 2,
        0 <= kind < 7,
        distinct_squares(targets),
    ensures
        drops_to(stm, kind, targets).no_duplicates(),
    decreases targets.len(),
{
    if targets.len() > 0 {
        let rest = targets.drop_last();
        let last = targets.last();
        let dropped = Action::spec_new_drop(Piece((stm * 16 + kind) as u8), last@);
        lemma_distinct_rest(targets);
        lemma_drops_to_distinct(stm, kind, rest);
        lemma_drop_decodes(Piece((stm * 16 + kind) as u8), last@);
        assert(drops_to(stm, kind, targets) == drops_to(stm, kind, rest) + seq![dropped]);
        assert forall|x: Action| drops_to(stm, kind, rest).contains(x) implies !seq![
            dropped,
        ].contains(x) by {
            lemma_drops_to_shape(stm, kind, rest, x);
            if x == dropped {
                assert(Square(x.spec_to() as u8) == last);
            }
        }
        lemma_concat_distinct(drops_to(stm, kind, rest), seq![dropped]);
    }
}

/// What the drops are: drops of one of the kinds below `n` that the mover holds, onto a
/// square where that kind may be dropped.
pub proof fn lemma_drops_upto_shape(pos: Position, stm: int, n: int, a: Action)
    requires
        0 <= stm < 2,
        0 <= n <= 7,
        pos.drops_upto(stm, n).contains(a),
    ensures
        a.spec_is_drop(),
        !a.spec_is_promo(),
        stm * 16 <= a.spec_origin() < stm * 16 + n,
        pos.hands[stm].count(a.spec_origin() - stm * 16) > 0,
        pos.drop_pred(stm, a.spec_origin() - stm * 16)(a.spec_to()),
{
    lemma_drops_upto_contains(pos, stm, n, a);
    let kind = choose|kind: int|
        0 <= kind < n && pos.hands[stm].count(kind) > 0 && #[trigger] drops_of(
            pos,
            stm,
            kind,
        ).contains(a);
    lemma_where_is_distinct(pos.drop_pred(stm, kind));
    lemma_drops_to_shape(stm, kind, squares_where(pos.drop_pred(stm, kind), 128), a);
    lemma_where_contains(pos.drop_pred(stm, kind), 128, Square(a.spec_to() as u8));
}

/// The drops are listed once each.
pub proof fn lemma_drops_upto_distinct(pos: Position, stm: int, n: int)
    requires
        0 <= stm < 2,
        0 <= n <= 7,
    ensures
        pos.drops_upto(stm, n).no_duplicates(),
    decreases n,
{
    if n > 0 {
        lemma_drops_upto_distinct(pos, stm, n - 1);
        let last = if pos.hands[stm].count(n - 1) > 0 {
            drops_of(pos, stm, n - 1)
        } else {
            Seq::empty()
        };
        lemma_where_is_distinct(pos.drop_pred(stm, n - 1));
        lemma_drops_to_distinct(stm, n - 1, squares_where(pos.drop_pred(stm, n - 1), 128));
        assert forall|x: Action| pos.drops_upto(stm, n - 1).contains(x) implies !last.contains(
            x,
        ) by {
            lemma_drops_upto_shape(pos, stm, n - 1, x);
            if last.contains(x) {
                lemma_drops_to_shape(
                    stm,
                    n - 1,
                    squares_where(pos.drop_pred(stm, n - 1), 128),
                    x,
                );
            }
        }
        lemma_concat_distinct(pos.drops_upto(stm, n - 1), last);
    }
}

/// No action is listed twice: every move and every drop that the side to move can make
/// stands in the list exactly once.
pub proof fn lemma_listed_once(pos: Position, stm: int)
    requires
        pos.wf(),
        0 <= stm < 2,
    ensures
        pos.pseudo_legal(stm).no_duplicates(),
{
    let origins = squares_where(pos.own_pred(stm), 128);
    let targets = squares_where(pos.pawn_target_pred(stm), 128);
    let by_piece = pos.piece_moves(stm, origins);
    let by_pawn = pawn_moves(stm, targets);
    let by_drop = pos.drops_upto(stm, 7);
    lemma_where_is_distinct(pos.own_pred(stm));
    lemma_where_is_distinct(pos.pawn_target_pred(stm));
    assert(backed_squares(stm, targets)) by {
        assert forall|j: int| 0 <= j < targets.len() implies on_board(
            (#[trigger] targets[j])@ - 9 * forward(stm),
        ) by {
            assert(targets.contains(targets[j]));
            lemma_where_contains(pos.pawn_target_pred(stm), 128, targets[j]);
        }
    }
    lemma_piece_moves_distinct(pos, stm, origins);
    lemma_pawn_moves_distinct(stm, targets);
    lemma_drops_upto_distinct(pos, stm, 7);
    assert forall|x: Action| by_piece.contains(x) implies !by_pawn.contains(x) by {
        lemma_piece_moves_shape(pos, stm, origins, x);
        if by_pawn.contains(x) {
            lemma_pawn_moves_shape(stm, targets, x);
            lemma_where_contains(pos.pawn_target_pred(stm), 128, Square(x.spec_to() as u8));
        }
    }
    lemma_concat_distinct(by_piece, by_pawn);
    assert forall|x: Action| (by_piece + by_pawn).contains(x) implies !by_drop.contains(x) by {
        lemma_concat_contains(by_piece, by_pawn, x);
        if by_piece.contains(x) {
            lemma_piece_moves_shape(pos, stm, origins, x);
        } else {
            lemma_pawn_moves_shape(stm, targets, x);
        }
        if by_drop.contains(x) {
            lemma_drops_upto_shape(pos, stm, 7, x);
        }
    }
    lemma_concat_distinct(by_piece + by_pawn, by_drop);
}

/// Whether a pawn of `stm` may be dropped on `to`: the square is an empty square of the
/// board, not on the rank farthest from `stm`, and no pawn of `stm` stands on its file.
/// How many pawns the mover holds does not come into it.
pub open spec fn pawn_drop_square(pos: Position, stm: int, to: int) -> bool {
    &&& on_board(to)
    &&& pos.mailbox[to].is_none()
    &&& !pos.pawn_on_file(stm, to)
    &&& !lance_stuck(stm, to)
}

/// Whether `a` drops a pawn of `stm` on `to`.
pub open spec fn drops_pawn_on(a: Action, stm: int, to: int) -> bool {
    a.spec_is_drop() && a.spec_origin() == stm * 16 && a.spec_to() == to
}

/// The pawn drops: where the mover holds a pawn, however many, a square gets a pawn drop
/// exactly when a pawn may be dropped on it, and then it gets exactly one: among the
/// listed actions one and only one drops a pawn on the square. Where the mover holds no
/// pawn, no square gets one.
pub proof fn lemma_pawn_drops(pos: Position, stm: int, to: int)
    requires
        pos.wf(),
        0 <= stm < 2,
    ensures
        (exists|i: int|
            0 <= i < pos.pseudo_legal(stm).len() && drops_pawn_on(
                #[trigger] pos.pseudo_legal(stm)[i],
                stm,
                to,
            )) == (pos.hands[stm].count(0) > 0 && pawn_drop_square(pos, stm, to)),
        forall|i: int, j: int|
            0 <= i < pos.pseudo_legal(stm).len() && 0 <= j < pos.pseudo_legal(stm).len()
                && drops_pawn_on(pos.pseudo_legal(stm)[i], stm, to) && drops_pawn_on(
                pos.pseudo_legal(stm)[j],
                stm,
                to,
            ) ==> i == j,
{
    let list = pos.pseudo_legal(stm);
    let dropped = Action::spec_new_drop(Piece((stm * 16) as u8), to);
    lemma_listed_once(pos, stm);
    assert forall|i: int| 0 <= i < list.len() && drops_pawn_on(list[i], stm, to) implies list[i]
        == dropped && pos.hands[stm].count(0) > 0 && pawn_drop_square(pos, stm, to) by {
        lemma_pawn_drop_is(pos, stm, to, list[i]);
    }
    if pos.hands[stm].count(0) > 0 && pawn_drop_square(pos, stm, to) {
        lemma_pawn_drop_listed(pos, stm, to);
        lemma_drop_decodes(Piece((stm * 16) as u8), to);
        let i = choose|i: int| 0 <= i < list.len() && list[i] == dropped;
        assert(drops_pawn_on(list[i], stm, to));
    }
}

/// A listed action that drops a pawn of `stm` on `to` is the packed pawn drop on `to`,
/// the mover holds a pawn, and a pawn may be dropped on `to`.
pub proof fn lemma_pawn_drop_is(pos: Position, stm: int, to: int, a: Action)
    requires
        pos.wf(),
        0 <= stm < 2,
        pos.pseudo_legal(stm).contains(a),
        drops_pawn_on(a, stm, to),
    ensures
        a == Action::spec_new_drop(Piece((stm * 16) as u8), to),
        pos.hands[stm].count(0) > 0,
        pawn_drop_square(pos, stm, to),
{
    lemma_listed(pos, stm, a);
    if is_listed_move(pos, stm, a) {
        let (from, t, promo) = choose|from: int, t: int, promo: bool|
            #![trigger Action::spec_new_move(from, t, promo)]
            a == Action::spec_new_move(from, t, promo) && pos.owned_at(stm, from) && reach(
                pos.mailbox[from].kind(),
                stm,
                from,
                pos.spec_occ(),
                t,
            );
        lemma_move_decodes(from, t, promo);
    } else {
        let (kind, t) = choose|kind: int, t: int|
            #![trigger Action::spec_new_drop(Piece((stm * 16 + kind) as u8), t)]
            a == Action::spec_new_drop(Piece((stm * 16 + kind) as u8), t) && 0 <= kind < 7
                && pos.hands[stm].count(kind) > 0 && pos.drop_pred(stm, kind)(t);
        lemma_drop_decodes(Piece((stm * 16 + kind) as u8), t);
    }
}

/// The squares that get a pawn drop do not depend on how many pawns the mover holds:
/// two positions with the same pieces on the board, in both of which the mover holds a
/// pawn, offer pawn drops on the same squares.
pub proof fn lemma_pawn_count_is_no_matter(pos: Position, other: Position, stm: int, to: int)
    requires
        pos.wf(),
        other.wf(),
        0 <= stm < 2,
        0 <= to < 128,
        pos.mailbox@ == other.mailbox@,
        pos.hands[stm].count(0) > 0,
        other.hands[stm].count(0) > 0,
    ensures
        pos.pseudo_legal(stm).contains(Action::spec_new_drop(Piece((stm * 16) as u8), to))
            == other.pseudo_legal(stm).contains(
            Action::spec_new_drop(Piece((stm * 16) as u8), to),
        ),
{
    let dropped = Action::spec_new_drop(Piece((stm * 16) as u8), to);
    assert(pawn_drop_square(pos, stm, to) == pawn_drop_square(other, stm, to)) by {
        if pos.pawn_on_file(stm, to) {
            let j = choose|j: int|
                on_board(j) && file_of(j) == file_of(
                    to,
                ) && pos.mailbox[j] == Piece((stm * 16) as u8);
            assert(other.mailbox@[j] == pos.mailbox@[j]);
        }
        if other.pawn_on_file(stm, to) {
            let j = choose|j: int|
                on_board(j) && file_of(j) == file_of(
                    to,
                ) && other.mailbox[j] == Piece((stm * 16) as u8);
            assert(other.mailbox@[j] == pos.mailbox@[j]);
        }
        assert(other.mailbox@[to] == pos.mailbox@[to]);
    }
    if pos.pseudo_legal(stm).contains(dropped) {
        lemma_pawn_drop_reason(pos, stm, to);
        lemma_pawn_drop_listed(other, stm, to);
    }
    if other.pseudo_legal(stm).contains(dropped) {
        lemma_pawn_drop_reason(other, stm, to);
        lemma_pawn_drop_listed(pos, stm, to);
    }
}

/// Where the packed pawn drop on `to` is listed, a pawn may be dropped on `to`.
pub proof fn lemma_pawn_drop_reason(pos: Position, stm: int, to: int)
    requires
        pos.wf(),
        0 <= stm < 2,
        0 <= to < 128,
        pos.pseudo_legal(stm).contains(Action::spec_new_drop(Piece((stm * 16) as u8), to)),
    ensures
        pawn_drop_square(pos, stm, to),
        pos.hands[stm].count(0) > 0,
{
    let dropped = Action::spec_new_drop(Piece((stm * 16) as u8), to);
    lemma_listed(pos, stm, dropped);
    if is_listed_move(pos, stm, dropped) {
        let (from, t, promo) = choose|from: int, t: int, promo: bool|
            #![trigger Action::spec_new_move(from, t, promo)]
            dropped == Action::spec_new_move(from, t, promo) && pos.owned_at(stm, from) && reach(
                pos.mailbox[from].kind(),
                stm,
                from,
                pos.spec_occ(),
                t,
            );
        lemma_move_decodes(from, t, promo);
        lemma_drop_decodes(Piece((stm * 16) as u8), to);
    } else {
        let (kind, t) = choose|kind: int, t: int|
            #![trigger Action::spec_new_drop(Piece((stm * 16 + kind) as u8), t)]
            dropped == Action::spec_new_drop(Piece((stm * 16 + kind) as u8), t) && 0 <= kind < 7
                && pos.hands[stm].count(kind) > 0 && pos.drop_pred(stm, kind)(t);
        lemma_drop_decodes(Piece((stm * 16 + kind) as u8), t);
        lemma_drop_decodes(Piece((stm * 16) as u8), to);
    }
}

/// Where a pawn may be dropped on `to` and the mover holds one, the packed pawn drop on
/// `to` is listed.
pub proof fn lemma_pawn_drop_listed(pos: Position, stm: int, to: int)
    requires
        pos.wf(),
        0 <= stm < 2,
        pos.hands[stm].count(0) > 0,
        pawn_drop_square(pos, stm, to),
    ensures
        pos.pseudo_legal(stm).contains(Action::spec_new_drop(Piece((stm * 16) as u8), to)),
{
    let dropped = Action::spec_new_drop(Piece((stm * 16) as u8), to);
    lemma_listed(pos, stm, dropped);
    assert(dropped == Action::spec_new_drop(Piece((stm * 16 + 0) as u8), to));
    assert(pos.drop_pred(stm, 0)(to));
    assert(is_listed_drop(pos, stm, dropped));
}

} // verus!
