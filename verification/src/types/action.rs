use crate::types::piece::{push_char, Piece};
use crate::types::square::{file_of, rank_of, Square};
use arrayvec::ArrayVec;
use vstd::prelude::*;

verus! {

/// One ply, packed into 16 bits: bit 15 says that the piece promotes, bit 14 that the ply
/// is a drop, bits 7 to 13 hold the square left (for a drop, the code of the piece
/// dropped) and bits 0 to 6 the square reached.
#[derive(Default, Debug, Copy, Clone, PartialEq, Eq, Structural)]
pub struct Action(pub u16);

/// What an action says, unpacked.
pub enum Ply {
    /// A piece goes from one square to another, promoting or not.
    Move { from: int, to: int, promo: bool },
    /// A piece comes from the hand onto a square.
    Drop { piece: Piece, to: int },
}

pub const PROMO_MASK: u16 = 0b10000000_00000000;

pub const DROP_MASK: u16 = 0b01000000_00000000;

pub const FROM_OFFSET: u16 = 7;

pub const DROP_OFFSET: u16 = 14;

pub const PROMO_OFFSET: u16 = 15;

pub const SQUARE_MASK: u16 = 0b1111111;

/// The four fields of a packed action read back as they were packed.
pub proof fn lemma_action_bits(to: u16, from: u16, drop: u16, promo: u16)
    by (bit_vector)
    requires
        to < 128,
        from < 128,
        drop < 2,
        promo < 2,
    ensures
        ({
            let x = to | (from << 7u16) | (drop << 14u16) | (promo << 15u16);
            &&& x & 0b1111111u16 == to
            &&& (x >> 7u16) & 0b1111111u16 == from
            &&& (x & 0b01000000_00000000u16 != 0) == (drop == 1)
            &&& (x & 0b10000000_00000000u16 != 0) == (promo == 1)
        }),
        to | (from << 7u16) | (0u16 << 15u16) == to | (from << 7u16) | (0u16 << 14u16) | (0u16
            << 15u16),
        to | (from << 7u16) | (1u16 << 15u16) == to | (from << 7u16) | (0u16 << 14u16) | (1u16
            << 15u16),
        to | (from << 7u16) | (1u16 << 14u16) == to | (from << 7u16) | (1u16 << 14u16) | (0u16
            << 15u16),
{
}

/// The two seven-bit fields of an action are below 128.
pub proof fn lemma_action_fields(x: u16)
    by (bit_vector)
    ensures
        x & 0b1111111u16 < 128,
        (x >> 7u16) & 0b1111111u16 < 128,
{
}

/// The fixed-capacity vector of the `arrayvec` crate: its elements live inside the value
/// itself, and it never holds more of them than its capacity.
#[verifier::external_type_specification]
#[verifier::external_body]
#[verifier::reject_recursive_types(T)]
pub struct ExArrayVec<T, const CAP: usize>(ArrayVec<T, CAP>);

/// The list of the actions of one position: room for 600 of them, and no more.
pub type Actionlist = ArrayVec<Action, 600>;

/// The actions that a list holds, first to last.
pub uninterp spec fn list_items(list: ArrayVec<Action, 600>) -> Seq<Action>;

/// An empty list, from `ArrayVec::new`: the new vector has length zero.
#[verifier::external_body]
pub(crate) fn list_new() -> (r: Actionlist)
    ensures
        list_items(r) == Seq::<Action>::empty(),
{
    ArrayVec::new()
}

/// Appends an action, by `ArrayVec::push`: the element goes behind those that are there.
/// `push` panics on a full vector, so the list has to hold fewer than 600 actions.
#[verifier::external_body]
pub(crate) fn list_push(list: &mut Actionlist, action: Action)
    requires
        list_items(*old(list)).len() < 600,
    ensures
        list_items(*final(list)) == list_items(*old(list)).push(action),
{
    list.push(action);
}

/// The number of actions in a list, from `ArrayVec::len`; it never exceeds the capacity.
#[verifier::external_body]
pub(crate) fn list_len(list: &Actionlist) -> (r: usize)
    ensures
        r == list_items(*list).len(),
        r <= 600,
{
    list.len()
}

/// The action at `index`, read through the slice that `ArrayVec` dereferences to: the
/// slice holds the elements pushed so far, in the order in which they were pushed.
#[verifier::external_body]
pub(crate) fn list_get(list: &Actionlist, index: usize) -> (r: Action)
    requires
        index < list_items(*list).len(),
    ensures
        r == list_items(*list)[index as int],
{
    list.as_slice()[index]
}

impl Action {
    /// The action that moves the piece on `from` to `to`, packed.
    pub open spec fn spec_new_move(from: int, to: int, promo: bool) -> Action {
        Action(
            (to as u16) | ((from as u16) << FROM_OFFSET) | ((if promo {
                1u16
            } else {
                0u16
            }) << PROMO_OFFSET),
        )
    }

    /// The action that drops `piece` on `to`, packed.
    pub open spec fn spec_new_drop(piece: Piece, to: int) -> Action {
        Action((to as u16) | ((piece.0 as u16) << FROM_OFFSET) | (1u16 << DROP_OFFSET))
    }

    /// The square reached.
    pub open spec fn spec_to(self) -> int {
        (self.0 & SQUARE_MASK) as int
    }

    /// The seven bits above the square reached: the square left, or the piece dropped.
    pub open spec fn spec_origin(self) -> int {
        ((self.0 >> FROM_OFFSET) & SQUARE_MASK) as int
    }

    /// Whether the action is a drop.
    pub open spec fn spec_is_drop(self) -> bool {
        self.0 & DROP_MASK != 0
    }

    /// Whether the piece promotes.
    pub open spec fn spec_is_promo(self) -> bool {
        self.0 & PROMO_MASK != 0
    }

    /// What the action says.
    pub open spec fn view(self) -> Ply {
        if self.spec_is_drop() {
            Ply::Drop { piece: Piece(self.spec_origin() as u8), to: self.spec_to() }
        } else {
            Ply::Move { from: self.spec_origin(), to: self.spec_to(), promo: self.spec_is_promo() }
        }
    }

    /// The action that moves the piece on `from` to `to`.
    pub fn new_move(from: Square, to: Square, is_promo: bool) -> (r: Self)
        requires
            from@ < 128,
            to@ < 128,
        ensures
            r == Self::spec_new_move(from@, to@, is_promo),
            r@ == (Ply::Move { from: from@, to: to@, promo: is_promo }),
            !r.spec_is_drop(),
            r.spec_is_promo() == is_promo,
            r.spec_origin() == from@,
            r.spec_to() == to@,
    {
        let flag: u16 = if is_promo {
            1
        } else {
            0
        };
        proof {
            lemma_action_bits(to.0 as u16, from.0 as u16, 0, flag);
        }
        Self(to.as_u16() | (from.as_u16() << FROM_OFFSET) | (flag << PROMO_OFFSET))
    }

    /// The action that drops `piece` on `to`.
    pub fn new_drop(piece: Piece, to: Square) -> (r: Self)
        requires
            piece.0 < 128,
            to@ < 128,
        ensures
            r == Self::spec_new_drop(piece, to@),
            r@ == (Ply::Drop { piece: piece, to: to@ }),
            r.spec_is_drop(),
            !r.spec_is_promo(),
            r.spec_origin() == piece.0,
            r.spec_to() == to@,
    {
        proof {
            lemma_action_bits(to.0 as u16, piece.0 as u16, 1, 0);
        }
        Self(to.as_u16() | ((piece.raw() as u16) << FROM_OFFSET) | (1 << DROP_OFFSET))
    }

    /// The square reached.
    pub fn to(&self) -> (r: Square)
        ensures
            r@ == self.spec_to(),
            r@ < 128,
    {
        proof {
            lemma_action_fields(self.0);
        }
        Square((self.0 & SQUARE_MASK) as u8)
    }

    /// The square left by a move.
    pub fn from(&self) -> (r: Square)
        requires
            !self.spec_is_drop(),
        ensures
            r@ == self.spec_origin(),
            r@ < 128,
    {
        proof {
            lemma_action_fields(self.0);
        }
        Square(((self.0 >> FROM_OFFSET) & SQUARE_MASK) as u8)
    }

    /// The piece that a drop puts on the board.
    pub fn piece(&self) -> (r: Piece)
        requires
            self.spec_is_drop(),
        ensures
            r.0 == self.spec_origin(),
            r.0 < 128,
    {
        proof {
            lemma_action_fields(self.0);
        }
        Piece(((self.0 >> FROM_OFFSET) & SQUARE_MASK) as u8)
    }

    pub fn is_promo(&self) -> (r: bool)
        ensures
            r == self.spec_is_promo(),
    {
        (self.0 & PROMO_MASK) != 0
    }

    pub fn is_drop(&self) -> (r: bool)
        ensures
            r == self.spec_is_drop(),
    {
        (self.0 & DROP_MASK) != 0
    }

    /// The two characters that name a square: the digit `9 - file`, then the letter that
    /// lies `rank` letters before `i`.
    pub open spec fn square_text(sq: int) -> Seq<char> {
        seq![('9' as u8 - file_of(sq)) as char, ('i' as u8 - rank_of(sq)) as char]
    }

    /// The text of the action: for a move the square left and the square reached, and a
    /// `+` behind them when the piece promotes; for a drop the piece, a `*` and the square
    /// reached.
    pub open spec fn spec_usi(self) -> Seq<char> {
        if self.spec_is_drop() {
            Piece(self.spec_origin() as u8).spec_text() + seq!['*'] + Self::square_text(
                self.spec_to(),
            )
        } else if self.spec_is_promo() {
            Self::square_text(self.spec_origin()) + Self::square_text(self.spec_to()) + seq!['+']
        } else {
            Self::square_text(self.spec_origin()) + Self::square_text(self.spec_to())
        }
    }

    fn push_square(out: &mut String, sq: Square)
        requires
            sq@ < 128,
        ensures
            final(out)@ == old(out)@ + Self::square_text(sq@),
    {
        let file_digit: u8 = 57 - sq.file();
        let rank_letter: u8 = 105 - sq.rank();
        push_char(out, file_digit as char);
        push_char(out, rank_letter as char);
        assert(out@ =~= old(out)@ + Self::square_text(sq@));
    }

    /// Renders the action as text.
    pub fn to_usi(&self) -> (r: String)
        requires
            self.spec_is_drop() ==> Piece(self.spec_origin() as u8).valid(),
        ensures
            r@ == self.spec_usi(),
    {
        let to_square = self.to();
        if self.is_drop() {
            let mut out = self.piece().to_string();
            push_char(&mut out, '*');
            Self::push_square(&mut out, to_square);
            out
        } else {
            let mut out = String::new();
            Self::push_square(&mut out, self.from());
            Self::push_square(&mut out, to_square);
            if self.is_promo() {
                push_char(&mut out, '+');
            }
            assert(out@ =~= self.spec_usi());
            out
        }
    }

    /// Renders the action as text, as `to_usi` does.
    pub fn to_string(&self) -> (r: String)
        requires
            self.spec_is_drop() ==> Piece(self.spec_origin() as u8).valid(),
        ensures
            r@ == self.spec_usi(),
    {
        self.to_usi()
    }
}

/// A packed move gives back what was packed, for squares that fit the seven bits of a
/// field.
pub proof fn lemma_move_decodes(from: int, to: int, promo: bool)
    requires
        0 <= from < 128,
        0 <= to < 128,
    ensures
        !Action::spec_new_move(from, to, promo).spec_is_drop(),
        Action::spec_new_move(from, to, promo).spec_is_promo() == promo,
        Action::spec_new_move(from, to, promo).spec_origin() == from,
        Action::spec_new_move(from, to, promo).spec_to() == to,
{
    lemma_action_bits(to as u16, from as u16, 0, if promo {
        1
    } else {
        0
    });
}

/// A packed drop gives back what was packed, for a piece code and a square that fit the
/// seven bits of a field.
pub proof fn lemma_drop_decodes(piece: Piece, to: int)
    requires
        piece.0 < 128,
        0 <= to < 128,
    ensures
        Action::spec_new_drop(piece, to).spec_is_drop(),
        !Action::spec_new_drop(piece, to).spec_is_promo(),
        Action::spec_new_drop(piece, to).spec_origin() == piece.0,
        Action::spec_new_drop(piece, to).spec_to() == to,
{
    lemma_action_bits(to as u16, piece.0 as u16, 1, 0);
}

} // verus!
