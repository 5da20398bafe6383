use crate::bits::{is_set, lemma_set_ext, lemma_set_ops, lemma_set_zero};
use crate::movegen::classical::{bishop_reach, lance_reach, rook_reach, slide_hits};
use crate::movegen::lookups::on_ray;
use crate::rays::{lemma_opposite, opposite};
use crate::movegen::lookups::{
    forward, gold_reach, king_reach, knight_reach, pawn_reach, silver_reach,
};
use crate::sfen::{parse_sfen, parse_spec, SfenView};
use crate::movegen::{
    get_bishop_attacks, get_gold_attacks, get_king_attacks, get_knight_attacks,
    get_lance_attacks, get_rook_attacks, get_silver_attacks, setwise_pawns,
};
use crate::types::action::{list_items, list_new, list_push, Action, Actionlist};
use crate::types::bitboard::{
    lemma_masks, lemma_squares_below, lemma_squares_where, squares_where, Bitboard, FULLMASK,
};
use crate::types::hand::Hand;
use crate::types::piece::{push_char, Piece};
use crate::types::square::{file_of, on_board, Square};
use vstd::prelude::*;
use vstd::string::{StrSliceExecFns, StringExecFns, StringSliceAdditionalSpecFns};

verus! {

/// The state of the game at one point of its history.
///
/// The pieces on the board are held three times over: `mailbox` says what stands on each
/// square, `sides` where each player's pieces stand, `pieces` where the pieces of each
/// kind stand. `wf` says that the three agree.
#[derive(Debug, Clone, Copy, PartialEq, Eq)]
pub struct Position {
    pub sides: [Bitboard; 2],
    pub pieces: [Bitboard; 14],
    pub mailbox: [Piece; 81],
    pub hands: [Hand; 2],
    pub checkers: Bitboard,
    pub diag_pin_mask: Bitboard,
    pub orth_pin_mask: Bitboard,
}

impl Default for Position {
    /// The position without a piece, on the board or in hand.
    fn default() -> (r: Self)
        ensures
            r.is_blank(),
    {
        let mut pieces = [Bitboard(0);14];
        let mut k: usize = 0;
        while k < 14
            invariant
                k <= 14,
                forall|j: int| 0 <= j < k ==> #[trigger] pieces[j] == Bitboard(0),
            decreases 14 - k,
        {
            pieces[k] = Bitboard(0);
            k += 1;
        }
        let mut mailbox = [Piece(Piece::NONE);81];
        let mut s: usize = 0;
        while s < 81
            invariant
                s <= 81,
                forall|j: int| 0 <= j < s ==> #[trigger] mailbox[j] == Piece(14),
            decreases 81 - s,
        {
            mailbox[s] = Piece(Piece::NONE);
            s += 1;
        }
        proof {
            lemma_set_zero();
        }
        Self {
            sides: [Bitboard(0), Bitboard(0)],
            pieces,
            mailbox,
            hands: [Hand(0), Hand(0)],
            checkers: Bitboard(0),
            diag_pin_mask: Bitboard(0),
            orth_pin_mask: Bitboard(0),
        }
    }
}

impl Position {
    /// Whether the position holds no piece, on the board or in hand, and records no
    /// checkers and no pins.
    pub open spec fn is_blank(self) -> bool {
        &&& self.wf()
        &&& forall|s: int| 0 <= s < 81 ==> (#[trigger] self.mailbox[s]).is_none()
        &&& self.hands[0].0 == 0
        &&& self.hands[1].0 == 0
        &&& self.checkers.0 == 0
        &&& self.diag_pin_mask.0 == 0
        &&& self.orth_pin_mask.0 == 0
    }

    /// Whether a piece of owner `c` stands on the square `s`, going by the mailbox.
    pub open spec fn owned_at(self, c: int, s: int) -> bool {
        on_board(s) && self.mailbox[s].is_real() && self.mailbox[s].color() == c
    }

    /// Whether a piece of kind `k` stands on the square `s`, going by the mailbox.
    pub open spec fn kind_at(self, k: int, s: int) -> bool {
        on_board(s) && self.mailbox[s].is_real() && self.mailbox[s].kind() == k
    }

    /// The mailbox and the bitboards agree: every square holds a valid code, a player's
    /// bitboard holds exactly the squares of that player's pieces, and the bitboard of a
    /// kind exactly the squares of the pieces of that kind.
    pub open spec fn wf(self) -> bool {
        &&& forall|s: int| 0 <= s < 81 ==> (#[trigger] self.mailbox[s]).valid()
        &&& forall|c: int, s: int|
            0 <= c < 2 ==> #[trigger] is_set(self.sides[c].0, s) == self.owned_at(c, s)
        &&& forall|k: int, s: int|
            0 <= k < 14 ==> #[trigger] is_set(self.pieces[k].0, s) == self.kind_at(k, s)
    }

    /// Whether `new` is `self` with one bit flipped in the bitboard of the owner of
    /// `piece` and one in that of its kind, both at `sq`, and `put` written into the
    /// mailbox at `sq`.
    pub open spec fn toggled(self, new: Position, sq: Square, piece: Piece, put: Piece) -> bool {
        &&& (new.sides@, new.pieces@) == flipped((self.sides@, self.pieces@), sq, piece)
        &&& new.mailbox@ == self.mailbox@.update(sq@, put)
        &&& new.hands == self.hands
        &&& new.checkers == self.checkers
        &&& new.diag_pin_mask == self.diag_pin_mask
        &&& new.orth_pin_mask == self.orth_pin_mask
    }

    /// Puts `piece` on `sq`: flips the square in the two bitboards of the piece and
    /// writes the piece into the mailbox. Nothing is checked: on a well-formed position
    /// the square has to be empty for the result to be well-formed.
    pub fn add_piece(&mut self, sq: Square, piece: Piece)
        requires
            sq.valid(),
            piece.is_real(),
        ensures
            old(self).toggled(*final(self), sq, piece, piece),
            old(self).wf() && old(self).mailbox[sq@].is_none() ==> final(self).wf(),
    {
        let bitboard_square: Bitboard = Bitboard::from_square(sq);
        let side = piece.side() as usize;
        let kind = piece.piece().as_usize();
        self.sides[side] = self.sides[side].bitxor(bitboard_square);
        self.pieces[kind] = self.pieces[kind].bitxor(bitboard_square);
        self.mailbox[sq.as_usize()] = piece;
    }

    /// Takes `piece` off `sq`: flips the square in the two bitboards of the piece and
    /// clears the mailbox entry. Nothing is checked: on a well-formed position the piece
    /// has to stand on the square for the result to be well-formed.
    pub fn remove_piece(&mut self, sq: Square, piece: Piece)
        requires
            sq.valid(),
            piece.is_real(),
        ensures
            old(self).toggled(*final(self), sq, piece, Piece(14)),
            old(self).wf() && old(self).mailbox[sq@] == piece ==> final(self).wf(),
    {
        let bitboard_square: Bitboard = Bitboard::from_square(sq);
        let side = piece.side() as usize;
        let kind = piece.piece().as_usize();
        self.sides[side] = self.sides[side].bitxor(bitboard_square);
        self.pieces[kind] = self.pieces[kind].bitxor(bitboard_square);
        self.mailbox[sq.as_usize()] = Piece(Piece::NONE);
    }

    /// The piece on `sq`, or the code for "no piece".
    #[must_use]
    pub fn piece_on_square(&self, sq: Square) -> (r: Piece)
        requires
            sq.valid(),
        ensures
            r == self.mailbox[sq@],
    {
        self.mailbox[sq.as_usize()]
    }

    /// The squares on which a piece stands.
    #[must_use]
    pub fn occupied(&self) -> (r: Bitboard)
        ensures
            r.0 == self.sides[0].0 | self.sides[1].0,
            self.wf() ==> forall|s: int|
                #[trigger] r.contains(s) == (on_board(s) && !self.mailbox[s].is_none()),
    {
        self.sides[0].bitor(self.sides[1])
    }

    /// The squares on which `side` has a piece of kind `piece`.
    #[must_use]
    pub fn sided_piece(&self, piece: u8, side: u8) -> (r: Bitboard)
        requires
            piece < 14,
            side < 2,
        ensures
            r.0 == self.sides[side as int].0 & self.pieces[piece as int].0,
            self.wf() ==> forall|s: int|
                #[trigger] r.contains(s) == (on_board(s) && self.mailbox[s] == Piece(
                    (side * 16 + piece) as u8,
                )),
    {
        self.sides[side as usize].bitand(self.pieces[piece as usize])
    }

    /// Moves `piece` from `from` to `to`, taking `victim` off `to` first when there is one.
    /// Nothing is checked: the result is well-formed where `piece` stood on `from` and
    /// `victim` (or nothing) on `to`.
    pub fn move_piece(&mut self, from: Square, piece: Piece, to: Square, victim: Piece)
        requires
            from.valid(),
            to.valid(),
            piece.is_real(),
            victim.valid(),
        ensures
            final(self).mailbox@ == old(self).mailbox@.update(from@, Piece(14)).update(to@, piece),
            (final(self).sides@, final(self).pieces@) == flipped(
                flipped(
                    if victim.is_none() {
                        (old(self).sides@, old(self).pieces@)
                    } else {
                        flipped((old(self).sides@, old(self).pieces@), to, victim)
                    },
                    from,
                    piece,
                ),
                to,
                piece,
            ),
            final(self).hands == old(self).hands,
            final(self).checkers == old(self).checkers,
            final(self).diag_pin_mask == old(self).diag_pin_mask,
            final(self).orth_pin_mask == old(self).orth_pin_mask,
            old(self).wf() && from != to && old(self).mailbox[from@] == piece
                && victim == old(self).mailbox[to@] ==> final(self).wf(),
    {
        if victim.0 != Piece::NONE {
            self.remove_piece(to, victim);
        }
        self.remove_piece(from, piece);
        self.add_piece(to, piece);
        assert(self.mailbox@ =~= old(self).mailbox@.update(from@, Piece(14)).update(to@, piece));
    }

    /// The squares on which `stm` has a gold or a piece that moves like one: a promoted
    /// pawn, lance, knight or silver.
    pub fn get_gold_movers(&self, stm: u8) -> (r: Bitboard)
        requires
            stm < 2,
        ensures
            r.0 == (self.sides[stm as int].0 & self.pieces[6].0) | (self.sides[stm as int].0
                & self.pieces[8].0) | (self.sides[stm as int].0 & self.pieces[9].0) | (
            self.sides[stm as int].0 & self.pieces[10].0) | (self.sides[stm as int].0
                & self.pieces[11].0),
            self.wf() ==> forall|s: int|
                #[trigger] r.contains(s) == (self.owned_at(stm as int, s) && moves_like_gold(
                    self.mailbox[s].kind(),
                )),
    {
        self.sided_piece(Piece::GOLD, stm).bitor(self.sided_piece(Piece::PROMO_PAWN, stm)).bitor(
            self.sided_piece(Piece::PROMO_LANCE, stm),
        ).bitor(self.sided_piece(Piece::PROMO_KNIGHT, stm)).bitor(
            self.sided_piece(Piece::PROMO_SILVER, stm),
        )
    }

    /// Whether the piece on `a` belongs to `side` and has one of the kinds for which
    /// `kinds` holds.
    pub open spec fn holds(self, side: int, a: int, kinds: spec_fn(int) -> bool) -> bool {
        self.owned_at(side, a) && kinds(self.mailbox[a].kind())
    }

    /// Whether a piece of the opponent of `stm` on `a` bears on `sq` when the squares of
    /// `occ` are taken. The test looks from `sq` outwards: for each way of moving, the
    /// squares that a piece of `stm` moving that way would attack from `sq` are the
    /// squares from which an opposing piece moving that way attacks `sq`.
    pub open spec fn attacker_at(self, stm: int, occ: Bitboard, sq: int, a: int) -> bool {
        let opp = 1 - stm;
        ||| pawn_reach(stm, sq, a) && self.holds(opp, a, |k: int| k == 0)
        ||| lance_reach(stm, sq, occ, a) && self.holds(opp, a, |k: int| k == 1)
        ||| knight_reach(stm, sq, a) && self.holds(opp, a, |k: int| k == 2)
        ||| silver_reach(stm, sq, a) && self.holds(opp, a, |k: int| k == 3)
        ||| bishop_reach(sq, occ, a) && self.holds(opp, a, |k: int| k == 4 || k == 12)
        ||| rook_reach(sq, occ, a) && self.holds(opp, a, |k: int| k == 5 || k == 13)
        ||| king_reach(sq, a) && self.holds(opp, a, |k: int| k == 7 || k == 12 || k == 13)
        ||| gold_reach(stm, sq, a) && self.holds(opp, a, |k: int| moves_like_gold(k))
    }

    /// The squares from which a piece of the opponent of `stm` bears on `sq` when the
    /// squares of `occ` are taken.
    pub fn attackers_of(&self, stm: u8, occ: Bitboard, sq: Square) -> (r: Bitboard)
        requires
            self.wf(),
            stm < 2,
            sq.valid(),
        ensures
            forall|a: int| #[trigger] r.contains(a) == self.attacker_at(stm as int, occ, sq@, a),
    {
        let opps: u8 = 1 - stm;
        let pawn_atk_bb = if stm == 0 {
            Bitboard::from_square(Square(sq.0 + 9))
        } else if sq.0 >= 9 {
            Bitboard::from_square(Square(sq.0 - 9))
        } else {
            proof {
                lemma_set_zero();
            }
            Bitboard(0)
        };
        let gold_movers = self.get_gold_movers(opps);
        let bishopy_movers = self.sided_piece(Piece::BISHOP, opps).bitor(
            self.sided_piece(Piece::PROMO_BISHOP, opps),
        );
        let rooky_movers = self.sided_piece(Piece::ROOK, opps).bitor(
            self.sided_piece(Piece::PROMO_ROOK, opps),
        );
        let kingy_movers = self.sided_piece(Piece::KING, opps).bitor(
            self.sided_piece(Piece::PROMO_BISHOP, opps),
        ).bitor(self.sided_piece(Piece::PROMO_ROOK, opps));
        let by_pawn = pawn_atk_bb.bitand(self.sided_piece(Piece::PAWN, opps));
        let by_lance = get_lance_attacks(sq, occ, stm).bitand(
            self.sided_piece(Piece::LANCE, opps),
        );
        let by_knight = get_knight_attacks(sq, stm).bitand(self.sided_piece(Piece::KNIGHT, opps));
        let by_silver = get_silver_attacks(sq, stm).bitand(self.sided_piece(Piece::SILVER, opps));
        let by_bishop = get_bishop_attacks(sq, occ).bitand(bishopy_movers);
        let by_rook = get_rook_attacks(sq, occ).bitand(rooky_movers);
        let by_king = get_king_attacks(sq).bitand(kingy_movers);
        let by_gold = get_gold_attacks(sq, stm).bitand(gold_movers);
        by_pawn.bitor(by_lance).bitor(by_knight).bitor(by_silver).bitor(by_bishop).bitor(
            by_rook,
        ).bitor(by_king).bitor(by_gold)
    }
}

/// The game: the positions reached so far, oldest first, with the current one last; the
/// side to move; and the number of plies played.
///
/// The board also records where the actions that can be taken back begin: the length of
/// the history and the ply counter as they were when the board was made or a position
/// was last loaded. What lies below that length is never popped.
#[derive(Debug, Clone, PartialEq, Eq)]
pub struct Board {
    pub states: Vec<Position>,
    pub stm: u8,
    pub ply: i16,
    pub base: usize,
    pub base_ply: i16,
}

impl Default for Board {
    /// A board whose history is seeded with 256 blank positions, with the first player
    /// to move.
    fn default() -> (r: Self)
        ensures
            r.is_fresh(),
    {
        let mut states: Vec<Position> = Vec::new();
        let blank = Position::default();
        let mut n: usize = 0;
        while n < 256
            invariant
                n <= 256,
                states@.len() == n,
                blank.is_blank(),
                forall|i: int| 0 <= i < n ==> (#[trigger] states@[i]).is_blank(),
            decreases 256 - n,
        {
            states.push(blank);
            n += 1;
        }
        Self { states, stm: 0, ply: 0, base: 256, base_ply: 0 }
    }
}

impl Board {
    /// Whether the board is as new: a history of 256 blank positions, the first player
    /// to move, no ply played.
    pub open spec fn is_fresh(self) -> bool {
        &&& self.states@.len() == 256
        &&& forall|i: int| 0 <= i < 256 ==> (#[trigger] self.states@[i]).is_blank()
        &&& self.stm == 0
        &&& self.ply == 0
        &&& self.base == 256
        &&& self.base_ply == 0
    }

    /// There is a current position, every position of the history is well-formed, the
    /// side to move is one of the two players, and the ply counter has gone up by one
    /// for every action that can still be taken back.
    pub open spec fn wf(self) -> bool {
        &&& 1 <= self.base <= self.states@.len()
        &&& self.stm < 2
        &&& forall|i: int| 0 <= i < self.states@.len() ==> (#[trigger] self.states@[i]).wf()
        &&& self.ply == self.base_ply + self.outstanding()
    }

    /// The number of actions that were carried out and not taken back since the board
    /// was made or a position was last loaded.
    pub open spec fn outstanding(self) -> int {
        self.states@.len() - self.base
    }

    /// Whether two boards hold the same history, side to move, ply counter and record of
    /// where the actions begin.
    pub open spec fn same_as(self, other: Board) -> bool {
        &&& self.states@ == other.states@
        &&& self.stm == other.stm
        &&& self.ply == other.ply
        &&& self.base == other.base
        &&& self.base_ply == other.base_ply
    }

    /// Whether `back` is the board that taking the last action back leaves: the history
    /// without its last position, the turn handed back, and the ply counter one lower.
    pub open spec fn undone(self, back: Board) -> bool {
        &&& back.states@ == self.states@.drop_last()
        &&& back.stm == 1 - self.stm
        &&& back.ply == self.ply - 1
        &&& back.base == self.base
        &&& back.base_ply == self.base_ply
    }

    /// The current position: the last of the history.
    pub open spec fn current(self) -> Position {
        self.states@.last()
    }

    /// The squares taken in the current position.
    pub open spec fn occ(self) -> Bitboard {
        self.current().spec_occ()
    }

    /// The current position.
    pub fn current_state(&self) -> (r: &Position)
        requires
            self.states@.len() > 0,
        ensures
            *r == self.current(),
    {
        &self.states[self.states.len() - 1]
    }

    /// The current position, to be changed in place.
    pub fn current_state_mut(&mut self) -> (r: &mut Position)
        requires
            old(self).states@.len() > 0,
        ensures
            *r == old(self).current(),
            final(self).states@ == old(self).states@.update(
                old(self).states@.len() - 1,
                *final(r),
            ),
            final(self).stm == old(self).stm,
            final(self).ply == old(self).ply,
            final(self).base == old(self).base,
            final(self).base_ply == old(self).base_ply,
    {
        let last = self.states.len() - 1;
        &mut self.states[last]
    }

    /// The piece on `sq` in the current position.
    pub fn piece_on_square(&self, sq: Square) -> (r: Piece)
        requires
            self.states@.len() > 0,
            sq.valid(),
        ensures
            r == self.current().mailbox[sq@],
    {
        self.current_state().piece_on_square(sq)
    }

    /// The squares from which a piece of the opponent of the side to move bears on `sq`
    /// in the current position.
    pub fn get_attackers(&self, sq: Square) -> (r: Bitboard)
        requires
            self.wf(),
            sq.valid(),
        ensures
            forall|a: int|
                #[trigger] r.contains(a) == self.current().attacker_at(
                    self.stm as int,
                    self.occ(),
                    sq@,
                    a,
                ),
    {
        let state = self.current_state();
        let occ = state.occupied();
        state.attackers_of(self.stm, occ, sq)
    }

    /// Whether the king of the side to move was attacked when the checkers were last
    /// worked out.
    pub fn in_check(&self) -> (r: bool)
        requires
            self.states@.len() > 0,
        ensures
            r == exists|a: int| self.current().checkers.contains(a),
    {
        !self.current_state().checkers.is_empty()
    }

    /// Whether the side to move has a king on the board.
    pub open spec fn has_king(self) -> bool {
        self.current().has_king(self.stm as int)
    }

    /// Whether `s` is the lowest square that holds a king of the side to move.
    pub open spec fn is_king_sq(self, s: int) -> bool {
        self.current().is_king_sq(self.stm as int, s)
    }

    /// Whether the side to move has a king on the board.
    pub fn king_on_board(&self) -> (r: bool)
        requires
            self.wf(),
        ensures
            r == self.has_king(),
    {
        let state = self.current_state();
        let our_king = state.sided_piece(Piece::KING, self.stm);
        let found = our_king.is_not_empty();
        proof {
            if found {
                let s = choose|s: int| our_king.contains(s);
                assert(self.current().mailbox[s] == Piece((self.stm * 16 + 7) as u8) && on_board(s));
            }
            if self.has_king() {
                let s = choose|s: int|
                    self.current().mailbox[s] == Piece((self.stm * 16 + 7) as u8) && on_board(s);
                assert(our_king.contains(s));
            }
        }
        found
    }

    /// The square of the king of the side to move.
    pub fn king_sq(&self) -> (r: Square)
        requires
            self.wf(),
            self.has_king(),
        ensures
            self.is_king_sq(r@),
    {
        let state = self.current_state();
        let our_king = state.sided_piece(Piece::KING, self.stm);
        proof {
            let s = choose|s: int|
                self.current().mailbox[s] == Piece((self.stm * 16 + 7) as u8) && on_board(s);
            assert(our_king.contains(s));
            lemma_set_zero();
        }
        let sq = our_king.lsb();
        proof {
            assert forall|j: int| 0 <= j < sq implies #[trigger] self.current().mailbox[j]
                != Piece((self.stm * 16 + 7) as u8) by {
                assert(!our_king.contains(j));
            }
        }
        Square(sq)
    }

    /// Works out anew which pieces give check: the attackers of the square of the king of
    /// the side to move. Nothing else of the board changes.
    pub fn update_checkers(&mut self)
        requires
            old(self).wf(),
            old(self).has_king(),
        ensures
            final(self).wf(),
            final(self).stm == old(self).stm,
            final(self).ply == old(self).ply,
            final(self).base == old(self).base,
            final(self).base_ply == old(self).base_ply,
            final(self).states@.len() == old(self).states@.len(),
            final(self).states@.drop_last() == old(self).states@.drop_last(),
            final(self).current().same_but_checkers(old(self).current()),
            final(self).checkers_current(),
            exists|k: int|
                old(self).is_king_sq(k) && forall|a: int|
                    #[trigger] final(self).current().checkers.contains(a) == old(
                        self,
                    ).current().attacker_at(old(self).stm as int, old(self).occ(), k, a),
    {
        let king_sq = self.king_sq();
        let king_atkers = self.get_attackers(king_sq);
        let last = self.states.len() - 1;
        let mut state = self.states[last];
        state.checkers = king_atkers;
        self.states[last] = state;
        proof {
            assert(final(self).states@.drop_last() =~= old(self).states@.drop_last());
            assert(old(self).is_king_sq(king_sq@));
            assert(self.is_king_sq(king_sq@));
            assert forall|a: int| #[trigger]
                self.current().checkers.contains(a) == self.current().attacker_at(
                    self.stm as int,
                    self.occ(),
                    king_sq@,
                    a,
                ) by {
                assert(old(self).current().attacker_at(
                    old(self).stm as int,
                    old(self).occ(),
                    king_sq@,
                    a,
                ) == self.current().attacker_at(self.stm as int, self.occ(), king_sq@, a));
            }
        }
    }

    /// Whether an attack by the opponent of the side to move bears on `sq` when the
    /// squares of `occ` are taken, with the pieces where the current position has them.
    /// Neither the board nor the recorded checkers are looked at or changed.
    pub fn square_attacked(&self, sq: Square, occ: Bitboard) -> (r: bool)
        requires
            self.wf(),
            sq.valid(),
        ensures
            r == exists|a: int| self.current().attacker_at(self.stm as int, occ, sq@, a),
    {
        let opp: u8 = 1 - self.stm;
        let state = self.current_state();
        let ghost stm = self.stm as int;
        let opp_bishopy = state.sided_piece(Piece::BISHOP, opp).bitor(
            state.sided_piece(Piece::PROMO_BISHOP, opp),
        );
        let opp_rooky = state.sided_piece(Piece::ROOK, opp).bitor(
            state.sided_piece(Piece::PROMO_ROOK, opp),
        );
        let opp_kingy = state.sided_piece(Piece::KING, opp).bitor(
            state.sided_piece(Piece::PROMO_BISHOP, opp),
        ).bitor(state.sided_piece(Piece::PROMO_ROOK, opp));
        let gold_movers = state.get_gold_movers(opp);
        let pawn_atk_bb = if self.stm == 0 {
            Bitboard::from_square(Square(sq.0 + 9))
        } else if sq.0 >= 9 {
            Bitboard::from_square(Square(sq.0 - 9))
        } else {
            proof {
                lemma_set_zero();
            }
            Bitboard(0)
        };
        let by_pawn = pawn_atk_bb.bitand(state.sided_piece(Piece::PAWN, opp));
        if by_pawn.is_not_empty() {
            proof {
                let a = choose|a: int| by_pawn.contains(a);
                assert(state.attacker_at(stm, occ, sq@, a));
            }
            return true;
        }
        let by_gold = get_gold_attacks(sq, self.stm).bitand(gold_movers);
        if by_gold.is_not_empty() {
            proof {
                let a = choose|a: int| by_gold.contains(a);
                assert(state.attacker_at(stm, occ, sq@, a));
            }
            return true;
        }
        let by_silver = get_silver_attacks(sq, self.stm).bitand(
            state.sided_piece(Piece::SILVER, opp),
        );
        if by_silver.is_not_empty() {
            proof {
                let a = choose|a: int| by_silver.contains(a);
                assert(state.attacker_at(stm, occ, sq@, a));
            }
            return true;
        }
        let by_knight = get_knight_attacks(sq, self.stm).bitand(
            state.sided_piece(Piece::KNIGHT, opp),
        );
        if by_knight.is_not_empty() {
            proof {
                let a = choose|a: int| by_knight.contains(a);
                assert(state.attacker_at(stm, occ, sq@, a));
            }
            return true;
        }
        let by_king = get_king_attacks(sq).bitand(opp_kingy);
        if by_king.is_not_empty() {
            proof {
                let a = choose|a: int| by_king.contains(a);
                assert(state.attacker_at(stm, occ, sq@, a));
            }
            return true;
        }
        let by_lance = get_lance_attacks(sq, occ, self.stm).bitand(
            state.sided_piece(Piece::LANCE, opp),
        );
        if by_lance.is_not_empty() {
            proof {
                let a = choose|a: int| by_lance.contains(a);
                assert(state.attacker_at(stm, occ, sq@, a));
            }
            return true;
        }
        let by_bishop = get_bishop_attacks(sq, occ).bitand(opp_bishopy);
        if by_bishop.is_not_empty() {
            proof {
                let a = choose|a: int| by_bishop.contains(a);
                assert(state.attacker_at(stm, occ, sq@, a));
            }
            return true;
        }
        let by_rook = get_rook_attacks(sq, occ).bitand(opp_rooky);
        if by_rook.is_not_empty() {
            proof {
                let a = choose|a: int| by_rook.contains(a);
                assert(state.attacker_at(stm, occ, sq@, a));
            }
            return true;
        }
        proof {
            assert forall|a: int| !state.attacker_at(stm, occ, sq@, a) by {
                assert(!by_pawn.contains(a));
                assert(!by_gold.contains(a));
                assert(!by_silver.contains(a));
                assert(!by_knight.contains(a));
                assert(!by_king.contains(a));
                assert(!by_lance.contains(a));
                assert(!by_bishop.contains(a));
                assert(!by_rook.contains(a));
            }
        }
        false
    }

    /// Whether `action` can be carried out on the current position: the position admits
    /// it for the side to move, and the ply counter has room for one more.
    pub open spec fn can_perform(self, action: Action) -> bool {
        self.ply < i16::MAX && self.current().admits(self.stm as int, action)
    }

    /// Whether `next` is what `action`, carried out by `stm`, makes of `prev`: a
    /// well-formed position with the piece put down or moved, a piece taken gone from the
    /// board and added to the mover's hand without its promotion, a piece dropped gone
    /// from the mover's hand, and all else as in `prev`.
    pub open spec fn applied(prev: Position, stm: int, action: Action, next: Position) -> bool {
        let to = action.spec_to();
        let origin = action.spec_origin();
        &&& next.wf()
        &&& next.checkers == prev.checkers
        &&& next.diag_pin_mask == prev.diag_pin_mask
        &&& next.orth_pin_mask == prev.orth_pin_mask
        &&& next.hands[1 - stm] == prev.hands[1 - stm]
        &&& if action.spec_is_drop() {
            &&& next.mailbox@ == prev.mailbox@.update(to, Piece(origin as u8))
            &&& next.hands[stm] == prev.hands[stm].spec_dec(Piece(origin as u8).kind())
        } else {
            let mover = prev.mailbox[origin];
            let placed = if action.spec_is_promo() {
                mover.spec_promoted()
            } else {
                mover
            };
            let victim = prev.mailbox[to];
            &&& next.mailbox@ == prev.mailbox@.update(origin, Piece(14)).update(to, placed)
            &&& next.hands[stm] == if victim.is_real() {
                prev.hands[stm].spec_inc(victim.spec_unpromote().kind())
            } else {
                prev.hands[stm]
            }
        }
    }

    /// Whether `after` is the board that carrying `action` out leaves: the position that
    /// the action makes of the current one on top of the history, the turn passed on, and
    /// the ply counter one higher.
    pub open spec fn performed(self, action: Action, after: Board) -> bool {
        &&& after.wf()
        &&& after.states@.len() == self.states@.len() + 1
        &&& after.states@.drop_last() == self.states@
        &&& Self::applied(self.current(), self.stm as int, action, after.current())
        &&& after.stm == 1 - self.stm
        &&& after.ply == self.ply + 1
        &&& after.base == self.base
        &&& after.base_ply == self.base_ply
    }

    /// Whether `action` can be carried out on the current position.
    pub fn is_performable(&self, action: Action) -> (r: bool)
        requires
            self.wf(),
        ensures
            r == self.can_perform(action),
    {
        let state = self.current_state();
        let to = action.to();
        if self.ply == i16::MAX || to.0 >= 81 {
            return false;
        }
        let hand = state.hands[self.stm as usize];
        if action.is_drop() {
            let piece = action.piece();
            let kind: u8 = piece.0 % 16;
            piece.0 / 16 < 2 && kind < 7 && state.piece_on_square(to).0 == Piece::NONE
                && hand.num(piece) > 0
        } else {
            let from = action.from();
            if from.0 >= 81 || from.0 == to.0 {
                return false;
            }
            let piece = state.piece_on_square(from);
            if piece.0 == Piece::NONE {
                return false;
            }
            if action.is_promo() && piece.0 % 16 >= 6 {
                return false;
            }
            let victim = state.piece_on_square(to);
            if victim.0 == Piece::NONE {
                return true;
            }
            let taken = victim.unpromote();
            let kind: u8 = taken.0 % 16;
            if kind >= 7 {
                return false;
            }
            let held = hand.num(taken);
            let room: u8 = if kind == 0 {
                31
            } else if kind <= 3 {
                7
            } else {
                3
            };
            held < room
        }
    }

    /// Carries `action` out for the side to move: the position that results goes on top
    /// of the history, the turn passes to the other player, and the ply counter goes up
    /// by one. Whether the move leaves the mover's own king attacked is not looked at.
    pub fn perform_action(&mut self, action: Action)
        requires
            old(self).wf(),
            old(self).can_perform(action),
        ensures
            old(self).performed(action, *final(self)),
    {
        let mut state: Position = *self.current_state();
        let stm = self.stm as usize;
        if action.is_drop() {
            let to = action.to();
            let piece = action.piece();
            state.add_piece(to, piece);
            let mut hand = state.hands[stm];
            hand.dec(piece.unpromote());
            state.hands[stm] = hand;
            assert(state.mailbox@ =~= old(self).current().mailbox@.update(to@, piece));
        } else {
            let from = action.from();
            let to = action.to();
            let piece = state.piece_on_square(from);
            let victim = state.piece_on_square(to);
            state.remove_piece(from, piece);
            if victim.0 != Piece::NONE {
                state.remove_piece(to, victim);
                let mut hand = state.hands[stm];
                hand.inc(victim.unpromote());
                state.hands[stm] = hand;
            }
            let placed = if action.is_promo() {
                piece.promoted()
            } else {
                piece
            };
            state.add_piece(to, placed);
            assert(state.mailbox@ =~= old(self).current().mailbox@.update(from@, Piece(14)).update(
                to@,
                placed,
            ));
        }
        self.states.push(state);
        self.ply += 1;
        self.stm = 1 - self.stm;
        proof {
            assert(final(self).states@.drop_last() =~= old(self).states@);
        }
    }

    /// Whether there is an action to take back: one that was carried out since the board
    /// was made or a position was last loaded, and not taken back since.
    pub fn can_undo(&self) -> (r: bool)
        ensures
            r == (self.outstanding() > 0),
    {
        self.states.len() > self.base
    }

    /// Takes the last action back: the current position leaves the history, the turn
    /// goes back to the other player, and the ply counter goes down by one. There has to
    /// be an action to take back: neither a position of the seed nor a loaded position
    /// is ever popped.
    pub fn undo_action(&mut self)
        requires
            old(self).wf(),
            old(self).outstanding() > 0,
        ensures
            old(self).undone(*final(self)),
            final(self).wf(),
            final(self).ply >= final(self).base_ply,
    {
        self.states.pop();
        self.ply -= 1;
        self.stm = 1 - self.stm;
    }

    /// Whether the recorded checkers are those of the current position: the squares from
    /// which the opponent bears on the king of the side to move.
    pub open spec fn checkers_current(self) -> bool {
        self.current().checkers_of(self.stm as int)
    }

    /// Whether a position string can be loaded: it is well-formed, and it has a king for
    /// the side that it gives the move to.
    pub open spec fn loadable(b: Seq<u8>) -> bool {
        parse_spec(b) is Some && exists|s: int|
            0 <= s < 81 && (parse_spec(b)->0).cells[s] == Piece(
                ((parse_spec(b)->0).stm * 16 + 7) as u8,
            )
    }

    /// Whether `self` is `before` with the position that `v` describes loaded on top of
    /// its history: the pieces, the hands and the side to move of `v`, the ply counter of
    /// `v` where it has one, and the checkers worked out.
    pub open spec fn loaded_from(self, before: Board, v: SfenView) -> bool {
        &&& self.wf()
        &&& self.states@.len() == before.states@.len() + 1
        &&& self.states@.drop_last() == before.states@
        &&& self.current().mailbox@ == v.cells
        &&& self.current().hands[0] == v.sente
        &&& self.current().hands[1] == v.gote
        &&& self.current().diag_pin_mask.0 == 0
        &&& self.current().orth_pin_mask.0 == 0
        &&& self.checkers_current()
        &&& self.stm == v.stm
        &&& self.ply == match v.ply {
            Some(n) => n,
            None => before.ply as int,
        }
        &&& self.outstanding() == 0
        &&& self.base_ply == self.ply
    }

    /// Loads a position string where it can be loaded, and says whether it could. A
    /// string that cannot be loaded leaves the board as it was.
    pub fn try_load_fen(&mut self, fen: &str) -> (ok: bool)
        requires
            old(self).wf(),
        ensures
            ok == Self::loadable(fen.spec_bytes()),
            ok ==> final(self).loaded_from(*old(self), parse_spec(fen.spec_bytes())->0),
            !ok ==> final(self).same_as(*old(self)),
    {
        self.try_load_bytes(fen.as_bytes())
    }

    /// Loads the position string in `bytes` where it can be loaded, and says whether it
    /// could. A string that cannot be loaded leaves the board as it was.
    pub fn try_load_bytes(&mut self, bytes: &[u8]) -> (ok: bool)
        requires
            old(self).wf(),
        ensures
            ok == Self::loadable(bytes@),
            ok ==> final(self).loaded_from(*old(self), parse_spec(bytes@)->0),
            !ok ==> final(self).same_as(*old(self)),
    {
        let parsed = match parse_sfen(bytes) {
            Some(p) => p,
            None => {
                return false;
            },
        };
        let ghost v = parse_spec(bytes@)->0;
        let kings = parsed.position.sided_piece(Piece::KING, parsed.stm);
        if kings.is_empty() {
            proof {
                assert forall|s: int| 0 <= s < 81 implies v.cells[s] != Piece(
                    (v.stm * 16 + 7) as u8,
                ) by {
                    assert(!kings.contains(s));
                }
            }
            return false;
        }
        proof {
            let s = choose|s: int| kings.contains(s);
            assert(0 <= s < 81 && v.cells[s] == Piece((v.stm * 16 + 7) as u8));
        }
        self.states.push(parsed.position);
        self.stm = parsed.stm;
        match parsed.ply {
            Some(n) => {
                self.ply = n;
            },
            None => {},
        }
        self.base = self.states.len();
        self.base_ply = self.ply;
        proof {
            let s = choose|s: int| kings.contains(s);
            assert(self.current().mailbox[s] == Piece((self.stm * 16 + 7) as u8) && on_board(s));
        }
        let ghost mid = *self;
        self.update_checkers();
        proof {
            assert(mid.states@.drop_last() =~= old(self).states@);
            assert(self.states@.drop_last() =~= old(self).states@);
            let k = choose|k: int|
                mid.is_king_sq(k) && forall|a: int|
                    #[trigger] self.current().checkers.contains(a) == mid.current().attacker_at(
                        mid.stm as int,
                        mid.occ(),
                        k,
                        a,
                    );
            assert(self.is_king_sq(k));
            assert forall|a: int| #[trigger]
                self.current().checkers.contains(a) == self.current().attacker_at(
                    self.stm as int,
                    self.occ(),
                    k,
                    a,
                ) by {
                assert(mid.current().attacker_at(mid.stm as int, mid.occ(), k, a)
                    == self.current().attacker_at(self.stm as int, self.occ(), k, a));
            }
        }
        true
    }

    /// Loads a position string: the position that it describes goes on top of the
    /// history with its checkers worked out, and the side to move and the ply counter
    /// are set from it.
    pub fn load_fen(&mut self, fen: &str)
        requires
            old(self).wf(),
            Self::loadable(fen.spec_bytes()),
        ensures
            final(self).loaded_from(*old(self), parse_spec(fen.spec_bytes())->0),
    {
        let ok = self.try_load_fen(fen);
    }

    /// The text of the state of the game: the board as a grid, the highest rank first;
    /// an empty line; the side to move; the two hands; the ply counter.
    pub open spec fn spec_state_text(self) -> Seq<char> {
        rule('\u{250c}', '\u{252c}', '\u{2510}') + rows_above(self.current(), 0) + rule(
            '\u{2514}',
            '\u{2534}',
            '\u{2518}',
        ) + seq!['\n'] + "stm: "@ + (if self.stm == 0 {
            "sente"@
        } else {
            "gote"@
        }) + seq!['\n'] + "sente hand: "@ + self.current().hands[0].text_upto(0, 7) + seq!['\n']
            + "gote hand: "@ + self.current().hands[1].text_upto(1, 7) + seq!['\n'] + "ply count: "@
            + int_text(self.ply as int) + seq!['\n']
    }

    /// Renders the state of the game as text.
    pub fn render_state(&self) -> (r: String)
        requires
            self.wf(),
        ensures
            r@ == self.spec_state_text(),
    {
        let state = self.current_state();
        let mut out = String::new();
        push_rule(&mut out, '\u{250c}', '\u{252c}', '\u{2510}');
        let mut left: u8 = 9;
        while left > 0
            invariant
                left <= 9,
                state.wf(),
                out@ == rule('\u{250c}', '\u{252c}', '\u{2510}') + rows_above(*state, left as int),
            decreases left,
        {
            let rank: u8 = left - 1;
            let ghost base = out@;
            let mut file: u8 = 0;
            while file < 9
                invariant
                    file <= 9,
                    rank < 9,
                    state.wf(),
                    out@ == base + cells_upto(*state, rank as int, file as int),
                decreases 9 - file,
            {
                let piece = state.mailbox[(rank * 9 + file) as usize];
                let text = piece.to_string();
                push_char(&mut out, '\u{2502}');
                if text.as_str().unicode_len() != 2 {
                    push_char(&mut out, ' ');
                }
                out.append(text.as_str());
                push_char(&mut out, ' ');
                proof {
                    assert(out@ =~= base + cells_upto(*state, rank as int, file + 1));
                }
                file += 1;
            }
            push_char(&mut out, '\u{2502}');
            push_char(&mut out, '\n');
            if rank != 0 {
                push_rule(&mut out, '\u{251c}', '\u{253c}', '\u{2524}');
            }
            proof {
                assert(out@ =~= rule('\u{250c}', '\u{252c}', '\u{2510}') + rows_above(
                    *state,
                    rank as int,
                ));
            }
            left = rank;
        }
        push_rule(&mut out, '\u{2514}', '\u{2534}', '\u{2518}');
        push_char(&mut out, '\n');
        out.append("stm: ");
        if self.stm == 0 {
            out.append("sente");
        } else {
            out.append("gote");
        }
        push_char(&mut out, '\n');
        out.append("sente hand: ");
        let sente = state.hands[0].to_string_for(0);
        out.append(sente.as_str());
        push_char(&mut out, '\n');
        out.append("gote hand: ");
        let gote = state.hands[1].to_string_for(1);
        out.append(gote.as_str());
        push_char(&mut out, '\n');
        out.append("ply count: ");
        push_int(&mut out, self.ply);
        push_char(&mut out, '\n');
        proof {
            assert(out@ =~= self.spec_state_text());
        }
        out
    }

    /// Pins are not tracked: this leaves the board as it is.
    pub fn update_pins_and_checkers(&mut self)
        ensures
            *final(self) == *old(self),
    {
    }
}

impl Position {
    /// Whether `stm` can carry `action` out on the position: the squares of the action lie
    /// on the board; a drop puts a piece of a kind that the mover holds onto an empty
    /// square; a move takes a piece from one square to another, promotes only a kind that
    /// has a promoted form, and takes no king and no piece that the mover's hand has no
    /// room for.
    pub open spec fn admits(self, stm: int, action: Action) -> bool {
        let to = action.spec_to();
        let origin = action.spec_origin();
        &&& on_board(to)
        &&& if action.spec_is_drop() {
            &&& Piece(origin as u8).is_real()
            &&& Hand::holds_kind(Piece(origin as u8).kind())
            &&& self.mailbox[to].is_none()
            &&& self.hands[stm].count(Piece(origin as u8).kind()) > 0
        } else {
            &&& on_board(origin)
            &&& origin != to
            &&& self.mailbox[origin].is_real()
            &&& action.spec_is_promo() ==> self.mailbox[origin].kind() < 6
            &&& self.mailbox[to].is_real() ==> {
                let kind = self.mailbox[to].spec_unpromote().kind();
                Hand::holds_kind(kind) && self.hands[stm].count(kind) < Hand::max_count(kind)
            }
        }
    }

    /// The squares on which a piece stands.
    pub open spec fn spec_occ(self) -> Bitboard {
        Bitboard(self.sides[0].0 | self.sides[1].0)
    }

    /// Whether `stm` has a king on the board.
    pub open spec fn has_king(self, stm: int) -> bool {
        exists|s: int| self.mailbox[s] == Piece((stm * 16 + 7) as u8) && on_board(s)
    }

    /// Whether `s` is the lowest square that holds a king of `stm`.
    pub open spec fn is_king_sq(self, stm: int, s: int) -> bool {
        &&& on_board(s)
        &&& self.mailbox[s] == Piece((stm * 16 + 7) as u8)
        &&& forall|j: int| 0 <= j < s ==> #[trigger] self.mailbox[j] != Piece((stm * 16 + 7) as u8)
    }

    /// The squares on which `stm` has a piece.
    pub open spec fn own_pred(self, stm: int) -> spec_fn(int) -> bool {
        |s: int| self.owned_at(stm, s)
    }

    /// The squares to which the piece of `stm` on `from`, not a pawn, can go: those it
    /// attacks that hold no piece of its own side.
    pub open spec fn target_pred(self, stm: int, from: int) -> spec_fn(int) -> bool {
        |t: int|
            self.mailbox[from].kind() != 0 && reach(
                self.mailbox[from].kind(),
                stm,
                from,
                self.spec_occ(),
                t,
            ) && !self.owned_at(stm, t)
    }

    /// The squares onto which a pawn of `stm` can step: those of the board that have
    /// such a pawn right behind them and hold no piece of its own side.
    pub open spec fn pawn_target_pred(self, stm: int) -> spec_fn(int) -> bool {
        |t: int|
            on_board(t) && on_board(t - 9 * forward(stm)) && self.mailbox[t - 9 * forward(stm)]
                == Piece((stm * 16) as u8) && !self.owned_at(stm, t)
    }

    /// Whether `stm` has an unpromoted pawn on the file of `t`.
    pub open spec fn pawn_on_file(self, stm: int, t: int) -> bool {
        exists|j: int|
            on_board(j) && file_of(j) == file_of(t) && self.mailbox[j] == Piece((stm * 16) as u8)
    }

    /// The squares onto which `stm` may drop a piece of kind `kind`: the empty ones, but
    /// for a pawn not on a file that holds one of its pawns, and for a pawn, a lance or a
    /// knight not where the piece would have no move.
    pub open spec fn drop_pred(self, stm: int, kind: int) -> spec_fn(int) -> bool {
        |t: int|
            on_board(t) && self.mailbox[t].is_none() && (kind == 0 ==> !self.pawn_on_file(stm, t))
                && !must_promote(stm, kind, t)
    }

    /// The moves of the pieces of `stm` on `origins`, square by square; a pawn
    /// contributes none.
    pub open spec fn piece_moves(self, stm: int, origins: Seq<Square>) -> Seq<Action>
        decreases origins.len(),
    {
        if origins.len() == 0 {
            Seq::empty()
        } else {
            self.piece_moves(stm, origins.drop_last()) + moves_to(
                stm,
                self.mailbox[origins.last()@].kind(),
                origins.last()@,
                squares_where(self.target_pred(stm, origins.last()@), 128),
            )
        }
    }

    /// The drops of the kinds below `n`, kind by kind, for the kinds that `stm` holds.
    pub open spec fn drops_upto(self, stm: int, n: int) -> Seq<Action>
        decreases n,
    {
        if n <= 0 {
            Seq::empty()
        } else {
            self.drops_upto(stm, n - 1) + if self.hands[stm].count(n - 1) > 0 {
                drops_to(stm, n - 1, squares_where(self.drop_pred(stm, n - 1), 128))
            } else {
                Seq::empty()
            }
        }
    }

    /// The pseudo-legal actions of `stm`, in the order in which they are listed: the
    /// moves of the pieces other than pawns, by the square they start from and then by
    /// the square they reach; the pawn moves, by the square reached; the drops, by kind
    /// (pawn, lance, knight, silver, bishop, rook, gold) and then by square. Squares
    /// count upwards from 0. A move that may promote is listed twice, promoting first.
    /// Whether an action leaves the mover's own king attacked is not looked at.
    pub open spec fn pseudo_legal(self, stm: int) -> Seq<Action> {
        self.piece_moves(stm, squares_where(self.own_pred(stm), 128)) + pawn_moves(
            stm,
            squares_where(self.pawn_target_pred(stm), 128),
        ) + self.drops_upto(stm, 7)
    }

    /// Whether the recorded checkers are those of the position with `stm` to move: the
    /// squares from which the opponent bears on the king of `stm`.
    pub open spec fn checkers_of(self, stm: int) -> bool {
        exists|k: int|
            self.is_king_sq(stm, k) && forall|a: int|
                #[trigger] self.checkers.contains(a) == self.attacker_at(
                    stm,
                    self.spec_occ(),
                    k,
                    a,
                )
    }

    /// Whether two positions differ in nothing but the recorded checkers.
    pub open spec fn same_but_checkers(self, other: Position) -> bool {
        &&& self.sides == other.sides
        &&& self.pieces == other.pieces
        &&& self.mailbox == other.mailbox
        &&& self.hands == other.hands
        &&& self.diag_pin_mask == other.diag_pin_mask
        &&& self.orth_pin_mask == other.orth_pin_mask
    }
}

/// The bitboards of the players and of the kinds with the square `sq` flipped in the
/// bitboard of the owner of `piece` and in that of its kind.
pub open spec fn flipped(boards: (Seq<Bitboard>, Seq<Bitboard>), sq: Square, piece: Piece) -> (
    Seq<Bitboard>,
    Seq<Bitboard>,
) {
    (
        boards.0.update(piece.color(), Bitboard(boards.0[piece.color()].0 ^ (1u128 << sq.0))),
        boards.1.update(piece.kind(), Bitboard(boards.1[piece.kind()].0 ^ (1u128 << sq.0))),
    )
}

/// Whether `s` lies in the promotion zone of `stm`: the three ranks farthest from that
/// player.
pub open spec fn in_zone(stm: int, s: int) -> bool {
    if stm == 0 {
        s >= 54
    } else if stm == 1 {
        s < 27
    } else {
        false
    }
}

/// Whether a piece of kind `kind` may promote on a move from `from` to `to`: the kind has
/// a promoted form, and one of the two squares lies in the promotion zone.
pub open spec fn promotable(stm: int, kind: int, from: int, to: int) -> bool {
    kind < 6 && (in_zone(stm, from) || in_zone(stm, to))
}

/// Whether `s` lies on the rank farthest from `stm`, where a pawn or a lance has no move
/// left.
pub open spec fn lance_stuck(stm: int, s: int) -> bool {
    if stm == 0 {
        s >= 72
    } else if stm == 1 {
        s < 9
    } else {
        false
    }
}

/// Whether `s` lies on one of the two ranks farthest from `stm`, where a knight has no
/// move left.
pub open spec fn knight_stuck(stm: int, s: int) -> bool {
    if stm == 0 {
        s >= 63
    } else if stm == 1 {
        s < 18
    } else {
        false
    }
}

/// Whether a lance or a knight that reaches `s` has no move left there.
pub open spec fn out_of_bounds(stm: int, kind: int, s: int) -> bool {
    (kind == 1 && lance_stuck(stm, s)) || (kind == 2 && knight_stuck(stm, s))
}

/// Whether a piece of kind `kind` that reaches `s` has to promote: a pawn or a lance on
/// the farthest rank, a knight on one of the two farthest.
pub open spec fn must_promote(stm: int, kind: int, s: int) -> bool {
    (kind == 0 && lance_stuck(stm, s)) || out_of_bounds(stm, kind, s)
}

/// The actions that take a piece of kind `kind` from `from` to `to`: the promoting one
/// where the piece may promote, then the plain one where it need not.
pub open spec fn plies(stm: int, kind: int, from: int, to: int) -> Seq<Action> {
    (if promotable(stm, kind, from, to) {
        seq![Action::spec_new_move(from, to, true)]
    } else {
        Seq::empty()
    }) + (if !must_promote(stm, kind, to) {
        seq![Action::spec_new_move(from, to, false)]
    } else {
        Seq::empty()
    })
}

/// The actions that take a piece of kind `kind` from `from` to each of `targets` in turn.
pub open spec fn moves_to(stm: int, kind: int, from: int, targets: Seq<Square>) -> Seq<Action>
    decreases targets.len(),
{
    if targets.len() == 0 {
        Seq::empty()
    } else {
        moves_to(stm, kind, from, targets.drop_last()) + plies(stm, kind, from, targets.last()@)
    }
}

/// The actions that push a pawn onto each of `targets` in turn, from the square behind it.
pub open spec fn pawn_moves(stm: int, targets: Seq<Square>) -> Seq<Action>
    decreases targets.len(),
{
    if targets.len() == 0 {
        Seq::empty()
    } else {
        pawn_moves(stm, targets.drop_last()) + plies(
            stm,
            0,
            targets.last()@ - 9 * forward(stm),
            targets.last()@,
        )
    }
}

/// The actions that drop a piece of kind `kind` on each of `targets` in turn.
pub open spec fn drops_to(stm: int, kind: int, targets: Seq<Square>) -> Seq<Action>
    decreases targets.len(),
{
    if targets.len() == 0 {
        Seq::empty()
    } else {
        drops_to(stm, kind, targets.drop_last()).push(
            Action::spec_new_drop(Piece((stm * 16 + kind) as u8), targets.last()@),
        )
    }
}

/// Whether a piece of kind `kind` owned by `stm` on `sq` attacks `t` when the squares of
/// `occ` are taken. A promoted bishop or rook also moves like a king.
pub open spec fn reach(kind: int, stm: int, sq: int, occ: Bitboard, t: int) -> bool {
    if kind == 0 {
        pawn_reach(stm, sq, t)
    } else if kind == 1 {
        lance_reach(stm, sq, occ, t)
    } else if kind == 2 {
        knight_reach(stm, sq, t)
    } else if kind == 3 {
        silver_reach(stm, sq, t)
    } else if kind == 4 {
        bishop_reach(sq, occ, t)
    } else if kind == 5 {
        rook_reach(sq, occ, t)
    } else if moves_like_gold(kind) {
        gold_reach(stm, sq, t)
    } else if kind == 7 {
        king_reach(sq, t)
    } else if kind == 12 {
        bishop_reach(sq, occ, t) || king_reach(sq, t)
    } else if kind == 13 {
        rook_reach(sq, occ, t) || king_reach(sq, t)
    } else {
        false
    }
}

impl Board {
    /// The squares on which the side to move has a piece.
    pub open spec fn own_pred(self) -> spec_fn(int) -> bool {
        self.current().own_pred(self.stm as int)
    }

    /// The squares to which the piece on `from`, not a pawn, can go.
    pub open spec fn target_pred(self, from: int) -> spec_fn(int) -> bool {
        self.current().target_pred(self.stm as int, from)
    }

    /// The squares onto which a pawn of the side to move can step.
    pub open spec fn pawn_target_pred(self) -> spec_fn(int) -> bool {
        self.current().pawn_target_pred(self.stm as int)
    }

    /// Whether the side to move has an unpromoted pawn on the file of `t`.
    pub open spec fn pawn_on_file(self, t: int) -> bool {
        self.current().pawn_on_file(self.stm as int, t)
    }

    /// The squares onto which the side to move may drop a piece of kind `kind`.
    pub open spec fn drop_pred(self, kind: int) -> spec_fn(int) -> bool {
        self.current().drop_pred(self.stm as int, kind)
    }

    /// The moves of the pieces on `origins`, square by square; a pawn contributes none.
    pub open spec fn piece_moves(self, origins: Seq<Square>) -> Seq<Action> {
        self.current().piece_moves(self.stm as int, origins)
    }

    /// The drops of the kinds below `n`, for the kinds that the side to move holds.
    pub open spec fn drops_upto(self, n: int) -> Seq<Action> {
        self.current().drops_upto(self.stm as int, n)
    }

    /// The pseudo-legal actions of the side to move in the current position.
    pub open spec fn pseudo_legal_actions(self) -> Seq<Action> {
        self.current().pseudo_legal(self.stm as int)
    }

    /// Whether a piece of kind `piece` may promote on a move from `sq` to `bit`.
    pub fn is_promotable(&self, piece: Piece, sq: Square, bit: Square) -> (r: bool)
        ensures
            r == promotable(self.stm as int, piece.0 as int, sq@, bit@),
    {
        piece.0 < Piece::GOLD && (self.is_in_promotion_zone(sq) || self.is_in_promotion_zone(bit))
    }

    /// Whether `sq` lies in the promotion zone of the side to move.
    pub fn is_in_promotion_zone(&self, sq: Square) -> (r: bool)
        ensures
            r == in_zone(self.stm as int, sq@),
    {
        if self.stm == 0 {
            sq.0 >= 54
        } else if self.stm == 1 {
            sq.0 < 27
        } else {
            false
        }
    }

    /// Whether a lance or a knight of the side to move has no move left on `bit`.
    pub fn is_out_of_bounds(&self, piece: Piece, bit: Square) -> (r: bool)
        ensures
            r == out_of_bounds(self.stm as int, piece.0 as int, bit@),
    {
        (piece.0 == Piece::LANCE && self.is_out_of_lance_bounds(bit)) || (piece.0 == Piece::KNIGHT
            && self.is_out_of_knight_bounds(bit))
    }

    /// Whether `bit` lies on the rank farthest from the side to move.
    pub fn is_out_of_lance_bounds(&self, bit: Square) -> (r: bool)
        ensures
            r == lance_stuck(self.stm as int, bit@),
    {
        if self.stm == 0 {
            bit.0 >= 72
        } else if self.stm == 1 {
            bit.0 < 9
        } else {
            false
        }
    }

    /// Whether `bit` lies on one of the two ranks farthest from the side to move.
    pub fn is_out_of_knight_bounds(&self, bit: Square) -> (r: bool)
        ensures
            r == knight_stuck(self.stm as int, bit@),
    {
        if self.stm == 0 {
            bit.0 >= 63
        } else if self.stm == 1 {
            bit.0 < 18
        } else {
            false
        }
    }

    /// Appends the actions that take a piece of kind `kind` from `from` to `to`.
    fn push_plies(&self, actions: &mut Vec<Action>, kind: u8, from: Square, to: Square)
        requires
            from@ < 128,
            to@ < 128,
        ensures
            final(actions)@ == old(actions)@ + plies(self.stm as int, kind as int, from@, to@),
    {
        if self.is_promotable(Piece(kind), from, to) {
            actions.push(Action::new_move(from, to, true));
        }
        if !(self.is_out_of_bounds(Piece(kind), to) || (kind == Piece::PAWN
            && self.is_out_of_lance_bounds(to))) {
            actions.push(Action::new_move(from, to, false));
        }
        assert(actions@ =~= old(actions)@ + plies(self.stm as int, kind as int, from@, to@));
    }

    /// The squares that a piece of kind `kind` of the side to move attacks from `sq`; for
    /// a pawn none, as pawns are moved all at once.
    fn attacks_of_kind(&self, kind: u8, sq: Square, occ: Bitboard) -> (r: Bitboard)
        requires
            self.stm < 2,
            sq.valid(),
            kind < 14,
        ensures
            forall|t: int|
                #[trigger] r.contains(t) == (kind != 0 && reach(
                    kind as int,
                    self.stm as int,
                    sq@,
                    occ,
                    t,
                )),
    {
        if kind == Piece::PAWN {
            proof {
                lemma_set_zero();
            }
            Bitboard(0)
        } else if kind == Piece::LANCE {
            get_lance_attacks(sq, occ, self.stm)
        } else if kind == Piece::KNIGHT {
            get_knight_attacks(sq, self.stm)
        } else if kind == Piece::SILVER {
            get_silver_attacks(sq, self.stm)
        } else if kind == Piece::BISHOP {
            get_bishop_attacks(sq, occ)
        } else if kind == Piece::ROOK {
            get_rook_attacks(sq, occ)
        } else if kind == Piece::GOLD || kind == Piece::PROMO_PAWN || kind == Piece::PROMO_LANCE
            || kind == Piece::PROMO_KNIGHT || kind == Piece::PROMO_SILVER {
            get_gold_attacks(sq, self.stm)
        } else if kind == Piece::KING {
            get_king_attacks(sq)
        } else if kind == Piece::PROMO_BISHOP {
            get_bishop_attacks(sq, occ).bitor(get_king_attacks(sq))
        } else {
            get_rook_attacks(sq, occ).bitor(get_king_attacks(sq))
        }
    }

    /// Appends the moves of the pieces other than pawns.
    fn push_piece_moves(&self, actions: &mut Vec<Action>)
        requires
            self.wf(),
        ensures
            final(actions)@ == old(actions)@ + self.piece_moves(
                squares_where(self.own_pred(), 128),
            ),
    {
        let state = self.current_state();
        let occ = state.occupied();
        let us = state.sides[self.stm as usize];
        let origins = us.squares();
        proof {
            lemma_squares_where(us.0, self.own_pred(), 128);
            lemma_squares_below(us.0, 128);
        }
        let mut i: usize = 0;
        while i < origins.len()
            invariant
                self.wf(),
                i <= origins.len(),
                *state == self.current(),
                occ == self.occ(),
                us == state.sides[self.stm as int],
                origins@ == squares_where(self.own_pred(), 128),
                forall|k: int|
                    0 <= k < origins@.len() ==> is_set(us.0, (#[trigger] origins@[k])@),
                actions@ == old(actions)@ + self.piece_moves(origins@.take(i as int)),
            decreases origins.len() - i,
        {
            let sq = origins[i];
            assert(is_set(us.0, origins@[i as int]@));
            let piece = state.piece_on_square(sq);
            let kind: u8 = piece.piece().0;
            let attacks = self.attacks_of_kind(kind, sq, occ);
            let open = attacks.bitand(us.not());
            let targets = open.squares();
            proof {
                lemma_squares_where(open.0, self.target_pred(sq@), 128);
                lemma_squares_below(open.0, 128);
            }
            let ghost base = actions@;
            let mut j: usize = 0;
            while j < targets.len()
                invariant
                    j <= targets.len(),
                    sq@ < 128,
                    forall|k: int|
                        0 <= k < targets@.len() ==> 0 <= (#[trigger] targets@[k])@ < 128,
                    actions@ == base + moves_to(
                        self.stm as int,
                        kind as int,
                        sq@,
                        targets@.take(j as int),
                    ),
                decreases targets.len() - j,
            {
                let bit = targets[j];
                self.push_plies(actions, kind, sq, bit);
                proof {
                    assert(targets@.take(j + 1).drop_last() =~= targets@.take(j as int));
                }
                j += 1;
            }
            proof {
                assert(targets@.take(targets@.len() as int) =~= targets@);
                assert(origins@.take(i + 1).drop_last() =~= origins@.take(i as int));
            }
            i += 1;
        }
        proof {
            assert(origins@.take(origins@.len() as int) =~= origins@);
        }
    }

    /// Appends the pawn moves: every pawn of the side to move steps ahead at once.
    fn push_pawn_moves(&self, actions: &mut Vec<Action>)
        requires
            self.wf(),
        ensures
            final(actions)@ == old(actions)@ + pawn_moves(
                self.stm as int,
                squares_where(self.pawn_target_pred(), 128),
            ),
    {
        let state = self.current_state();
        let us = state.sides[self.stm as usize];
        let our_pawns = state.sided_piece(Piece::PAWN, self.stm);
        proof {
            lemma_masks();
        }
        let pawn_attacks = setwise_pawns(our_pawns, self.stm).bitand(us.not()).bitand(
            Bitboard(Bitboard::FULL),
        );
        let targets = pawn_attacks.squares();
        proof {
            lemma_squares_where(pawn_attacks.0, self.pawn_target_pred(), 128);
            lemma_squares_below(pawn_attacks.0, 128);
        }
        let mut j: usize = 0;
        while j < targets.len()
            invariant
                self.stm < 2,
                j <= targets.len(),
                forall|k: int|
                    0 <= k < targets@.len() ==> is_set(pawn_attacks.0, (#[trigger] targets@[k])@),
                forall|t: int|
                    is_set(pawn_attacks.0, t) ==> on_board(t) && on_board(
                        t - 9 * forward(self.stm as int),
                    ),
                actions@ == old(actions)@ + pawn_moves(self.stm as int, targets@.take(j as int)),
            decreases targets.len() - j,
        {
            let bit = targets[j];
            assert(is_set(pawn_attacks.0, targets@[j as int]@));
            let og = if self.stm == 0 {
                Square(bit.0 - 9)
            } else {
                Square(bit.0 + 9)
            };
            self.push_plies(actions, Piece::PAWN, og, bit);
            proof {
                assert(targets@.take(j + 1).drop_last() =~= targets@.take(j as int));
            }
            j += 1;
        }
        proof {
            assert(targets@.take(targets@.len() as int) =~= targets@);
        }
    }

    /// Appends the drops of the pieces that the side to move holds.
    fn push_drops(&self, actions: &mut Vec<Action>)
        requires
            self.wf(),
        ensures
            final(actions)@ == old(actions)@ + self.drops_upto(7),
    {
        let state = self.current_state();
        let occ = state.occupied();
        let our_pawns = state.sided_piece(Piece::PAWN, self.stm);
        let hand = state.hands[self.stm as usize];
        let full = Bitboard(Bitboard::FULL);
        proof {
            lemma_masks();
        }
        let empty = occ.not().bitand(full);
        let mut kind: u8 = 0;
        while kind < 7
            invariant
                self.wf(),
                kind <= 7,
                *state == self.current(),
                hand == state.hands[self.stm as int],
                full.0 == FULLMASK,
                forall|s: int|
                    #[trigger] our_pawns.contains(s) == (on_board(s) && state.mailbox[s] == Piece(
                        (self.stm * 16) as u8,
                    )),
                forall|s: int| #[trigger] empty.contains(s) == (on_board(s) && state.mailbox[s].is_none()),
                actions@ == old(actions)@ + self.drops_upto(kind as int),
            decreases 7 - kind,
        {
            if hand.num(Piece(kind)) > 0 {
                proof {
                    lemma_masks();
                }
                let open_squares = if kind == Piece::PAWN {
                    let free_files = our_pawns.file_fill().not().bitand(full);
                    let free_squares = if self.stm == 0 {
                        free_files.shr(9)
                    } else {
                        free_files.shl(9)
                    };
                    let open = empty.bitand(free_squares);
                    proof {
                        assert forall|t: int| #[trigger]
                            open.contains(t) == self.drop_pred(0)(t) by {
                            if on_board(t) {
                                if self.pawn_on_file(t) {
                                    let j = choose|j: int|
                                        on_board(j) && file_of(j) == file_of(t)
                                            && self.current().mailbox[j] == Piece(
                                            (self.stm * 16) as u8,
                                        );
                                    assert(our_pawns.contains(j));
                                }
                            }
                        }
                    }
                    open
                } else if kind == Piece::KNIGHT {
                    let free_squares = if self.stm == 0 {
                        full.shr(18)
                    } else {
                        full.shl(18)
                    };
                    empty.bitand(free_squares)
                } else if kind == Piece::LANCE {
                    let free_squares = if self.stm == 0 {
                        full.shr(9)
                    } else {
                        full.shl(9)
                    };
                    empty.bitand(free_squares)
                } else {
                    empty
                };
                let targets = open_squares.squares();
                proof {
                    lemma_squares_where(open_squares.0, self.drop_pred(kind as int), 128);
                    lemma_squares_below(open_squares.0, 128);
                }
                let ghost base = actions@;
                let piece = Piece(kind).as_stm(self.stm);
                let mut j: usize = 0;
                while j < targets.len()
                    invariant
                        j <= targets.len(),
                        piece == Piece((self.stm * 16 + kind) as u8),
                        kind < 7,
                        self.stm < 2,
                        forall|k: int|
                            0 <= k < targets@.len() ==> 0 <= (#[trigger] targets@[k])@ < 128,
                        actions@ == base + drops_to(
                            self.stm as int,
                            kind as int,
                            targets@.take(j as int),
                        ),
                    decreases targets.len() - j,
                {
                    let sq = targets[j];
                    actions.push(Action::new_drop(piece, sq));
                    proof {
                        assert(targets@.take(j + 1).drop_last() =~= targets@.take(j as int));
                    }
                    j += 1;
                }
                proof {
                    assert(targets@.take(targets@.len() as int) =~= targets@);
                }
            }
            kind += 1;
        }
    }

    /// The pseudo-legal actions of the side to move, however many there are.
    pub fn generate_actions(&self) -> (r: Vec<Action>)
        requires
            self.wf(),
        ensures
            r@ == self.pseudo_legal_actions(),
    {
        let mut actions: Vec<Action> = Vec::new();
        self.push_piece_moves(&mut actions);
        self.push_pawn_moves(&mut actions);
        self.push_drops(&mut actions);
        actions
    }

    /// The pseudo-legal actions of the side to move, in a list with room for 600: a board
    /// that is set up to have more cannot be listed this way.
    pub fn get_actions(&self) -> (r: Actionlist)
        requires
            self.wf(),
            self.pseudo_legal_actions().len() <= 600,
        ensures
            list_items(r) == self.pseudo_legal_actions(),
    {
        let all = self.generate_actions();
        let mut actions = list_new();
        let mut i: usize = 0;
        while i < all.len()
            invariant
                i <= all.len(),
                all@.len() <= 600,
                list_items(actions) == all@.take(i as int),
            decreases all.len() - i,
        {
            list_push(&mut actions, all[i]);
            proof {
                assert(all@.take(i + 1) =~= all@.take(i as int).push(all@[i as int]));
            }
            i += 1;
        }
        proof {
            assert(all@.take(all@.len() as int) =~= all@);
        }
        actions
    }

    /// The pseudo-legal actions of the side to move, or nothing where there are more
    /// than the 600 that the list has room for.
    pub fn try_get_actions(&self) -> (r: Option<Actionlist>)
        requires
            self.wf(),
        ensures
            r is Some <==> self.pseudo_legal_actions().len() <= 600,
            r is Some ==> list_items(r->0) == self.pseudo_legal_actions(),
    {
        let all = self.generate_actions();
        if all.len() > 600 {
            return None;
        }
        let mut actions = list_new();
        let mut i: usize = 0;
        while i < all.len()
            invariant
                i <= all.len(),
                all@.len() <= 600,
                list_items(actions) == all@.take(i as int),
            decreases all.len() - i,
        {
            list_push(&mut actions, all[i]);
            proof {
                assert(all@.take(i + 1) =~= all@.take(i as int).push(all@[i as int]));
            }
            i += 1;
        }
        proof {
            assert(all@.take(all@.len() as int) =~= all@);
        }
        Some(actions)
    }
}

/// A horizontal line of the grid: a left end, nine runs of three dashes with a joint
/// between them, a right end, and a line feed.
pub open spec fn rule(left: char, joint: char, right: char) -> Seq<char> {
    Seq::new(
        38,
        |k: int|
            if k == 0 {
                left
            } else if k == 36 {
                right
            } else if k == 37 {
                '\n'
            } else if k % 4 == 0 {
                joint
            } else {
                '\u{2500}'
            },
    )
}

/// One cell of the grid: a bar, the piece in a field of two characters, flush right, and
/// a blank.
pub open spec fn cell_text(piece: Piece) -> Seq<char> {
    if piece.spec_text().len() == 2 {
        seq!['\u{2502}'] + piece.spec_text() + seq![' ']
    } else {
        seq!['\u{2502}', ' '] + piece.spec_text() + seq![' ']
    }
}

/// The cells of the files below `n` of one rank.
pub open spec fn cells_upto(pos: Position, rank: int, n: int) -> Seq<char>
    decreases n,
{
    if n <= 0 {
        Seq::empty()
    } else {
        cells_upto(pos, rank, n - 1) + cell_text(pos.mailbox[rank * 9 + n - 1])
    }
}

/// The ranks from 8 down to `lo`, each with its closing bar, and with a line of the grid
/// below every rank but rank 0.
pub open spec fn rows_above(pos: Position, lo: int) -> Seq<char>
    decreases 9 - lo,
{
    if lo > 8 {
        Seq::empty()
    } else {
        rows_above(pos, lo + 1) + cells_upto(pos, lo, 9) + seq!['\u{2502}', '\n'] + if lo != 0 {
            rule('\u{251c}', '\u{253c}', '\u{2524}')
        } else {
            Seq::empty()
        }
    }
}

/// The decimal digits of a number that is not negative.
pub open spec fn digits_of(n: int) -> Seq<char>
    decreases n,
{
    if n < 10 {
        seq![('0' as u8 + n) as char]
    } else {
        digits_of(n / 10).push(('0' as u8 + n % 10) as char)
    }
}

/// A number in decimal, with a minus sign before it where it is negative.
pub open spec fn int_text(n: int) -> Seq<char> {
    if n < 0 {
        seq!['-'] + digits_of(-n)
    } else {
        digits_of(n)
    }
}

fn push_rule(out: &mut String, left: char, joint: char, right: char)
    ensures
        final(out)@ == old(out)@ + rule(left, joint, right),
{
    push_char(out, left);
    let mut k: u8 = 1;
    while k < 36
        invariant
            1 <= k <= 36,
            out@ == old(out)@ + rule(left, joint, right).take(k as int),
        decreases 36 - k,
    {
        if k % 4 == 0 {
            push_char(out, joint);
        } else {
            push_char(out, '\u{2500}');
        }
        assert(out@ =~= old(out)@ + rule(left, joint, right).take(k + 1));
        k += 1;
    }
    push_char(out, right);
    push_char(out, '\n');
    assert(out@ =~= old(out)@ + rule(left, joint, right));
}

fn push_digits(out: &mut String, n: u32)
    ensures
        final(out)@ == old(out)@ + digits_of(n as int),
    decreases n,
{
    if n >= 10 {
        push_digits(out, n / 10);
    }
    push_char(out, (48 + (n % 10) as u8) as char);
    assert(out@ =~= old(out)@ + digits_of(n as int));
}

fn push_int(out: &mut String, n: i16)
    ensures
        final(out)@ == old(out)@ + int_text(n as int),
{
    if n < 0 {
        push_char(out, '-');
        push_digits(out, (-(n as i32)) as u32);
        assert(out@ =~= old(out)@ + int_text(n as int));
    } else {
        push_digits(out, n as u32);
    }
}

/// In a well-formed position the three records of the board agree on every square: the
/// square is taken exactly when the mailbox holds a piece there; it lies in the bitboard
/// of a player exactly when the piece is that player's, and in the bitboard of a kind
/// exactly when the piece is of that kind, so in one bitboard of each sort at most; and
/// the bitboards of the two players together hold what those of the kinds hold.
pub proof fn lemma_records_agree(pos: Position, s: int)
    requires
        pos.wf(),
        on_board(s),
    ensures
        pos.spec_occ().contains(s) == !pos.mailbox[s].is_none(),
        forall|c: int| 0 <= c < 2 ==> pos.sides[c].contains(s) == (!pos.mailbox[s].is_none()
            && pos.mailbox[s].color() == c),
        forall|k: int| 0 <= k < 14 ==> pos.pieces[k].contains(s) == (!pos.mailbox[s].is_none()
            && pos.mailbox[s].kind() == k),
        forall|j: int, k: int|
            0 <= j < 14 && 0 <= k < 14 && pos.pieces[j].contains(s) && pos.pieces[k].contains(s)
                ==> j == k,
        pos.spec_occ().contains(s) == exists|k: int| 0 <= k < 14 && pos.pieces[k].contains(s),
{
    lemma_set_ops(pos.sides[0].0, pos.sides[1].0);
    assert(pos.mailbox[s].valid());
    if !pos.mailbox[s].is_none() {
        let k = pos.mailbox[s].kind();
        assert(0 <= k < 14 && pos.pieces[k].contains(s));
    }
}

/// Looking from the attacked square outwards finds the attackers: a piece of the
/// opponent of `stm` on `a` bears on `sq`, as `attacker_at` has it, exactly when that
/// piece, moving as its kind and its owner make it move, attacks `sq` from `a`.
pub proof fn lemma_attackers_attack(pos: Position, stm: int, occ: Bitboard, sq: int, a: int)
    requires
        pos.wf(),
        0 <= stm < 2,
        on_board(sq),
    ensures
        pos.attacker_at(stm, occ, sq, a) == (pos.owned_at(1 - stm, a) && reach(
            pos.mailbox[a].kind(),
            1 - stm,
            a,
            occ,
            sq,
        )),
{
    lemma_slide_back(0, sq, occ, a);
    lemma_slide_back(1, sq, occ, a);
    lemma_slide_back(2, sq, occ, a);
    lemma_slide_back(3, sq, occ, a);
    lemma_slide_back(4, sq, occ, a);
    lemma_slide_back(5, sq, occ, a);
    lemma_slide_back(6, sq, occ, a);
    lemma_slide_back(7, sq, occ, a);
    if on_board(a) {
        assert(pos.mailbox[a].valid());
    }
}

/// A slider on `a` attacks `b` along a direction exactly when one on `b` attacks `a`
/// along the opposite direction: the squares between the two are the same.
pub proof fn lemma_slide_back(d: int, a: int, occ: Bitboard, b: int)
    requires
        0 <= d < 8,
    ensures
        slide_hits(d, a, occ, b) == slide_hits(opposite(d), b, occ, a),
{
    lemma_opposite(d, a, b);
    if on_ray(d, a, b) {
        assert forall|x: int| (on_ray(d, a, x) && on_ray(d, x, b)) == (on_ray(opposite(d), b, x)
            && on_ray(opposite(d), x, a)) by {
            lemma_opposite(d, a, x);
            lemma_opposite(d, x, b);
        }
    }
}

/// Two well-formed positions with the same mailbox have the same bitboards.
pub proof fn lemma_mailbox_decides(a: Position, b: Position)
    requires
        a.wf(),
        b.wf(),
        a.mailbox@ == b.mailbox@,
    ensures
        a.sides == b.sides,
        a.pieces == b.pieces,
        a.mailbox == b.mailbox,
{
    assert forall|c: int| 0 <= c < 2 implies a.sides[c] == b.sides[c] by {
        assert forall|s: int| 0 <= s < 128 implies is_set(a.sides[c].0, s) == is_set(
            b.sides[c].0,
            s,
        ) by {
            assert(a.mailbox@[s] == b.mailbox@[s]);
        }
        lemma_set_ext(a.sides[c].0, b.sides[c].0);
    }
    assert forall|k: int| 0 <= k < 14 implies a.pieces[k] == b.pieces[k] by {
        assert forall|s: int| 0 <= s < 128 implies is_set(a.pieces[k].0, s) == is_set(
            b.pieces[k].0,
            s,
        ) by {
            assert(a.mailbox@[s] == b.mailbox@[s]);
        }
        lemma_set_ext(a.pieces[k].0, b.pieces[k].0);
    }
    assert(a.sides =~= b.sides);
    assert(a.pieces =~= b.pieces);
    assert(a.mailbox =~= b.mailbox);
}

/// An action has one result: two positions that are both what the action makes of a
/// position are the same, bit for bit.
pub proof fn lemma_applied_unique(prev: Position, stm: int, action: Action, a: Position, b: Position)
    requires
        0 <= stm < 2,
        Board::applied(prev, stm, action, a),
        Board::applied(prev, stm, action, b),
    ensures
        a == b,
{
    lemma_mailbox_decides(a, b);
    assert(a.hands =~= b.hands);
}

/// Carrying an action out and taking it back restores the board: the history with all
/// its positions, bit for bit, the side to move and the ply counter. `after` is any
/// board that carrying `action` out can leave, `back` any board that taking it back
/// can leave.
pub proof fn lemma_perform_undo_restores(before: Board, action: Action, after: Board, back: Board)
    requires
        before.wf(),
        before.can_perform(action),
        before.performed(action, after),
        after.undone(back),
    ensures
        after.outstanding() > 0,
        back.same_as(before),
        back.current() == before.current(),
{
}

/// A board that was just made, or on which a position was just loaded, has no action
/// to take back.
pub proof fn lemma_nothing_to_undo(board: Board, before: Board, v: SfenView)
    requires
        board.is_fresh() || board.loaded_from(before, v),
    ensures
        board.outstanding() == 0,
{
}

/// On a well-formed board the ply counter never lies below the value that it had when
/// the board was made or a position was last loaded, and it lies above it exactly when
/// there is an action to take back.
pub proof fn lemma_ply_counts_actions(board: Board)
    requires
        board.wf(),
    ensures
        board.ply >= board.base_ply,
        board.ply - board.base_ply == board.outstanding(),
        board.states@.len() - board.outstanding() >= 1,
{
}

/// Whether a piece of kind `k` moves like a gold.
pub open spec fn moves_like_gold(k: int) -> bool {
    k == 6 || 8 <= k <= 11
}

} // verus!
