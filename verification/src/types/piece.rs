use vstd::prelude::*;
use vstd::string::StringExecFns;

verus! {

/// Number of piece kinds: eight plain ones and six promoted ones.
pub const NUM_PIECE_TYPES: u8 = 8 + 6;

/// A piece code: the kind in the low four bits, the owner in bit 4.
///
/// Kinds 0 to 7 are pawn, lance, knight, silver, bishop, rook, gold and king; a promoted
/// piece has the kind of the plain one plus 8. Owner 0 is the first player. The code 14
/// stands for "no piece".
#[derive(Debug, Copy, Clone, PartialEq, Eq, PartialOrd, Ord, Structural)]
pub struct Piece(pub u8);

/// Shifting and masking a piece code are dividing it by 16 and taking the rest.
pub proof fn lemma_piece_bits(x: u8, s: u8)
    by (bit_vector)
    ensures
        x >> 4u8 == x / 16,
        x & 0b01111u8 == x % 16,
        x < 16 && s < 2 ==> (s << 4u8) | x == s * 16 + x,
        x < 16 && s < 2 ==> x | (s << 4u8) == s * 16 + x,
{
}

impl Piece {
    pub const PAWN: u8 = 0;

    pub const LANCE: u8 = 1;

    pub const KNIGHT: u8 = 2;

    pub const SILVER: u8 = 3;

    pub const BISHOP: u8 = 4;

    pub const ROOK: u8 = 5;

    pub const GOLD: u8 = 6;

    pub const KING: u8 = 7;

    pub const PROMO_PAWN: u8 = 8;

    pub const PROMO_LANCE: u8 = 9;

    pub const PROMO_KNIGHT: u8 = 10;

    pub const PROMO_SILVER: u8 = 11;

    pub const PROMO_BISHOP: u8 = 12;

    pub const PROMO_ROOK: u8 = 13;

    pub const NONE: u8 = 14;

    pub const SENTE: u8 = 0;

    pub const GOTE: u8 = 1;

    /// The kind held in the low four bits.
    pub open spec fn kind(self) -> int {
        self.0 as int % 16
    }

    /// The owner held above the kind.
    pub open spec fn color(self) -> int {
        self.0 as int / 16
    }

    /// A piece that can stand on the board: one of the 14 kinds, owned by one of the two players.
    pub open spec fn is_real(self) -> bool {
        self.kind() < 14 && self.color() < 2
    }

    /// The code for "no piece".
    pub open spec fn is_none(self) -> bool {
        self.0 == 14
    }

    /// Either "no piece" or a piece that can stand on the board.
    pub open spec fn valid(self) -> bool {
        self.is_none() || self.is_real()
    }

    /// The code of `self` without its promotion, owner kept.
    pub open spec fn spec_unpromote(self) -> Piece {
        if 8 <= self.kind() < 14 {
            Piece((self.0 - 8) as u8)
        } else {
            self
        }
    }

    /// The code of `self` promoted, owner kept.
    pub open spec fn spec_promoted(self) -> Piece {
        Piece((self.0 + 8) as u8)
    }

    #[must_use]
    pub fn side(&self) -> (r: u8)
        ensures
            r == self.color(),
    {
        proof {
            lemma_piece_bits(self.0, 0);
        }
        self.0 >> 4
    }

    #[must_use]
    pub fn piece(&self) -> (r: Self)
        ensures
            r.0 == self.kind(),
    {
        proof {
            lemma_piece_bits(self.0, 0);
        }
        Self(self.0 & 0b01111)
    }

    /// Packs a kind and an owner without checking either.
    #[must_use]
    pub fn new_unchecked(piece: u8, side: u8) -> (r: Self)
        ensures
            r.0 == (side << 4u8) | piece,
            piece < 16 && side < 2 ==> r.kind() == piece && r.color() == side && r.0 == side * 16
                + piece,
    {
        proof {
            lemma_piece_bits(piece, side);
        }
        Self((side << 4) | piece)
    }

    /// Turns the piece into its promoted counterpart.
    pub fn promote(&mut self)
        requires
            old(self).0 + 8 <= u8::MAX,
        ensures
            *final(self) == old(self).spec_promoted(),
            final(self).0 == old(self).0 + 8,
            old(self).kind() < 8 ==> final(self).kind() == old(self).kind() + 8,
            old(self).kind() < 8 ==> final(self).color() == old(self).color(),
    {
        self.0 += 8;
    }

    /// The promoted counterpart of the piece.
    #[must_use]
    pub fn promoted(&self) -> (r: Self)
        requires
            self.0 + 8 <= u8::MAX,
        ensures
            r == self.spec_promoted(),
            self.kind() < 8 ==> r.kind() == self.kind() + 8 && r.color() == self.color(),
    {
        Self(self.0 + 8)
    }

    /// The piece as it goes into a hand: a promoted piece loses its promotion.
    #[must_use]
    pub fn unpromote(&self) -> (r: Self)
        ensures
            r == self.spec_unpromote(),
            r.color() == self.color(),
            8 <= self.kind() < 14 ==> r.kind() == self.kind() - 8,
            !(8 <= self.kind() < 14) ==> r.kind() == self.kind(),
    {
        let kind: u8 = self.0 % 16;
        if 8 <= kind && kind < 14 {
            Self(self.0 - 8)
        } else {
            *self
        }
    }

    pub fn raw(&self) -> (r: u8)
        ensures
            r == self.0,
    {
        self.0
    }

    pub fn as_usize(&self) -> (r: usize)
        ensures
            r == self.0,
    {
        self.0 as usize
    }

    /// The piece with the owner bit of `stm` set on top of its own.
    pub fn as_stm(&self, stm: u8) -> (r: Self)
        ensures
            r.0 == self.0 | (stm << 4u8),
            self.0 < 16 && stm < 2 ==> r.kind() == self.0 && r.color() == stm && r.0 == stm * 16
                + self.0,
    {
        proof {
            lemma_piece_bits(self.0, stm);
        }
        Self(self.0 | (stm << 4))
    }

    /// The letter of a plain kind, in lower case.
    pub open spec fn kind_letter(kind: int) -> char {
        if kind == 0 {
            'p'
        } else if kind == 1 {
            'l'
        } else if kind == 2 {
            'n'
        } else if kind == 3 {
            's'
        } else if kind == 4 {
            'b'
        } else if kind == 5 {
            'r'
        } else if kind == 6 {
            'g'
        } else {
            'k'
        }
    }

    /// The upper-case form of a piece letter.
    pub open spec fn upper(c: char) -> char {
        ((c as u8) - 32) as char
    }

    /// The text of the piece: a blank for "no piece"; else the letter of the plain kind,
    /// after a `+` when promoted, in upper case for the first player.
    pub open spec fn spec_text(self) -> Seq<char> {
        if self.is_none() {
            seq![' ']
        } else {
            let plain = if self.kind() >= 8 {
                self.kind() - 8
            } else {
                self.kind()
            };
            let letter = if self.color() == 0 {
                Self::upper(Self::kind_letter(plain))
            } else {
                Self::kind_letter(plain)
            };
            if self.kind() >= 8 {
                seq!['+', letter]
            } else {
                seq![letter]
            }
        }
    }

    /// Renders the piece as text.
    pub fn to_string(&self) -> (r: String)
        requires
            self.valid(),
        ensures
            r@ == self.spec_text(),
    {
        if self.0 == Self::NONE {
            proof {
                reveal_strlit(" ");
            }
            return String::from_str(" ");
        }
        let kind: u8 = self.0 % 16;
        let plain: u8 = if kind >= 8 {
            kind - 8
        } else {
            kind
        };
        let lower: u8 = if plain == 0 {
            112
        } else if plain == 1 {
            108
        } else if plain == 2 {
            110
        } else if plain == 3 {
            115
        } else if plain == 4 {
            98
        } else if plain == 5 {
            114
        } else if plain == 6 {
            103
        } else {
            107
        };
        assert(lower as char == Self::kind_letter(plain as int));
        let letter: char = if self.0 / 16 == 0 {
            (lower - 32) as char
        } else {
            lower as char
        };
        let mut out = String::new();
        if kind >= 8 {
            push_char(&mut out, '+');
        }
        push_char(&mut out, letter);
        assert(out@ =~= self.spec_text());
        out
    }
}

/// Appends one character to a string: `String::push` of the standard library, which puts
/// the character at the end and leaves what was there as it was.
#[verifier::external_body]
pub(crate) fn push_char(s: &mut String, c: char)
    ensures
        final(s)@ == old(s)@.push(c),
{
    s.push(c);
}

impl Default for Piece {
    fn default() -> (r: Self)
        ensures
            r.is_none(),
    {
        Self(Self::NONE)
    }
}

} // verus!
