use crate::board::{lemma_applied_unique, Board, Position};
use crate::types::action::Action;
use crate::types::piece::Piece;
use crate::types::square::Square;
use vstd::prelude::*;

verus! {

/// The position that `action`, carried out by `stm`, makes of `pos`.
pub open spec fn next_position(pos: Position, stm: int, action: Action) -> Position {
    choose|next: Position| Board::applied(pos, stm, action, next)
}

/// Whether no piece of the opponent of `side` bears on the king of `side`. A side
/// without a king is safe.
pub open spec fn king_safe(pos: Position, side: int) -> bool {
    forall|k: int, a: int|
        pos.is_king_sq(side, k) ==> !#[trigger] pos.attacker_at(side, pos.spec_occ(), k, a)
}

/// Whether `stm` may play `action`: the position admits it, and it does not leave the
/// king of `stm` attacked. Legality is decided here, once the action is carried out, and
/// not where the actions are listed or carried out. A pawn drop that mates at once is
/// not told apart from any other pawn drop.
pub open spec fn playable(pos: Position, stm: int, action: Action) -> bool {
    pos.admits(stm, action) && king_safe(next_position(pos, stm, action), stm)
}

/// The number of ways to play `depth` plies on from `pos` with `stm` to move.
pub open spec fn perft_spec(pos: Position, stm: int, depth: nat) -> nat
    decreases depth, 0nat,
{
    if depth == 0 {
        1
    } else {
        perft_sum(pos, stm, pos.pseudo_legal(stm), (depth - 1) as nat)
    }
}

/// The number of ways to play one of `actions` from `pos` and then `below` plies more.
pub open spec fn perft_sum(pos: Position, stm: int, actions: Seq<Action>, below: nat) -> nat
    decreases below, 1nat + actions.len(),
{
    if actions.len() == 0 {
        0
    } else {
        perft_sum(pos, stm, actions.drop_last(), below) + if playable(pos, stm, actions.last()) {
            perft_spec(next_position(pos, stm, actions.last()), 1 - stm, below)
        } else {
            0
        }
    }
}

/// A count as a 64-bit number can hold it: the count itself, or the largest number.
pub open spec fn capped(n: nat) -> u64 {
    if n <= u64::MAX {
        n as u64
    } else {
        u64::MAX
    }
}

/// Whether the king of `side` is safe in the current position of `board`.
pub fn is_king_safe(board: &Board, side: u8) -> (r: bool)
    requires
        board.wf(),
        side < 2,
    ensures
        r == king_safe(board.current(), side as int),
{
    let state = board.current_state();
    let kings = state.sided_piece(Piece::KING, side);
    if kings.is_empty() {
        proof {
            assert forall|k: int| !state.is_king_sq(side as int, k) by {
                assert(!kings.contains(k));
            }
        }
        return true;
    }
    let at = kings.lsb();
    proof {
        assert forall|j: int| 0 <= j < at implies #[trigger] state.mailbox[j] != Piece(
            (side * 16 + 7) as u8,
        ) by {
            assert(!kings.contains(j));
        }
        assert(state.is_king_sq(side as int, at as int));
    }
    let occ = state.occupied();
    let attackers = state.attackers_of(side, occ, Square(at));
    let safe = attackers.is_empty();
    proof {
        if !safe {
            let a = choose|a: int| attackers.contains(a);
            assert(state.attacker_at(side as int, state.spec_occ(), at as int, a));
        } else {
            assert forall|k: int, a: int| state.is_king_sq(side as int, k) implies !#[trigger] state.attacker_at(
                side as int,
                state.spec_occ(),
                k,
                a,
            ) by {
                assert(k == at);
                assert(!attackers.contains(a));
            }
        }
    }
    safe
}

/// Counts the ways to play `depth` plies on from the current position. Every action
/// is carried out and taken back again, so the board is left as it was found.
pub fn perft_internal(board: &mut Board, depth: u8) -> (count: u64)
    requires
        old(board).wf(),
        old(board).ply + depth <= i16::MAX,
    ensures
        final(board).same_as(*old(board)),
        count == capped(perft_spec(old(board).current(), old(board).stm as int, depth as nat)),
    decreases depth,
{
    if depth == 0 {
        return 1;
    }
    let actions = board.generate_actions();
    let ghost pos = board.current();
    let ghost stm = board.stm as int;
    let mut count: u64 = 0;
    let mut i: usize = 0;
    while i < actions.len()
        invariant
            i <= actions.len(),
            depth > 0,
            board.wf(),
            board.same_as(*old(board)),
            board.ply + depth <= i16::MAX,
            pos == board.current(),
            stm == board.stm,
            actions@ == pos.pseudo_legal(stm),
            count == capped(perft_sum(pos, stm, actions@.take(i as int), (depth - 1) as nat)),
        decreases actions.len() - i,
    {
        let action = actions[i];
        proof {
            assert(actions@.take(i + 1).drop_last() =~= actions@.take(i as int));
        }
        if board.is_performable(action) {
            let mover = board.stm;
            board.perform_action(action);
            proof {
                lemma_applied_unique(
                    pos,
                    stm,
                    action,
                    board.current(),
                    next_position(pos, stm, action),
                );
            }
            if is_king_safe(board, mover) {
                let below = perft_internal(board, depth - 1);
                count = count.saturating_add(below);
            }
            board.undo_action();
        }
        i += 1;
    }
    proof {
        assert(actions@.take(actions@.len() as int) =~= actions@);
    }
    count
}

/// The counts of a split: for each of `actions` that may be played, in order, the action
/// and the number of ways to play `below` plies on after it.
pub open spec fn split_spec(pos: Position, stm: int, actions: Seq<Action>, below: nat) -> Seq<
    (Action, u64),
>
    decreases actions.len(),
{
    if actions.len() == 0 {
        Seq::empty()
    } else if playable(pos, stm, actions.last()) {
        split_spec(pos, stm, actions.drop_last(), below).push(
            (
                actions.last(),
                capped(perft_spec(next_position(pos, stm, actions.last()), 1 - stm, below)),
            ),
        )
    } else {
        split_spec(pos, stm, actions.drop_last(), below)
    }
}

/// Counts the ways to play `depth` plies on from the current position, apart for each
/// first action. The board is left as it was found.
pub fn split_perft_counts(board: &mut Board, depth: u8) -> (r: Vec<(Action, u64)>)
    requires
        old(board).wf(),
        depth > 0,
        old(board).ply + depth <= i16::MAX,
    ensures
        final(board).same_as(*old(board)),
        r@ == split_spec(
            old(board).current(),
            old(board).stm as int,
            old(board).pseudo_legal_actions(),
            (depth - 1) as nat,
        ),
{
    let actions = board.generate_actions();
    let ghost pos = board.current();
    let ghost stm = board.stm as int;
    let mut out: Vec<(Action, u64)> = Vec::new();
    let mut i: usize = 0;
    while i < actions.len()
        invariant
            i <= actions.len(),
            depth > 0,
            board.wf(),
            board.same_as(*old(board)),
            board.ply + depth <= i16::MAX,
            pos == board.current(),
            stm == board.stm,
            actions@ == pos.pseudo_legal(stm),
            out@ == split_spec(pos, stm, actions@.take(i as int), (depth - 1) as nat),
        decreases actions.len() - i,
    {
        let action = actions[i];
        proof {
            assert(actions@.take(i + 1).drop_last() =~= actions@.take(i as int));
        }
        if board.is_performable(action) {
            let mover = board.stm;
            board.perform_action(action);
            proof {
                lemma_applied_unique(
                    pos,
                    stm,
                    action,
                    board.current(),
                    next_position(pos, stm, action),
                );
            }
            if is_king_safe(board, mover) {
                let below = perft_internal(board, depth - 1);
                out.push((action, below));
            }
            board.undo_action();
        }
        i += 1;
    }
    proof {
        assert(actions@.take(actions@.len() as int) =~= actions@);
    }
    out
}

} // verus!
