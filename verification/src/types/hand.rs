use crate::types::piece::{push_char, Piece};
use vstd::prelude::*;
use vstd::string::StringExecFns;

verus! {

/// The pieces that one player holds off the board: a counter for each of the seven kinds
/// that can be captured, packed into one word.
///
/// The pawn counter has five bits, those of lance, knight and silver three, those of
/// bishop, rook and gold two. From the lowest bit up the counters are those of pawn,
/// gold, rook, lance, knight, silver and bishop.
#[derive(Debug, Copy, Clone, PartialEq, Eq, Structural)]
pub struct Hand(pub u32);

/// Writing `c` into the counter at `off` with largest value `top`: the counter then
/// reads `c`, a counter elsewhere reads what it read, writing back what a counter reads
/// changes nothing, a counter never reads more than its largest value, and the bits
/// outside the counter stay.
pub proof fn lemma_field_write(h: u32, c: u32, off: u32, top: u32, off2: u32, top2: u32)
    by (bit_vector)
    requires
        off < 20,
        top == 3 || top == 7 || top == 31,
        c <= top,
        off2 < 20,
        top2 == 3 || top2 == 7 || top2 == 31,
        (off2 == 0 && top2 == 31 && off >= 5) || (off2 >= 5 && off == 0 && top == 31) || (off
            >= 5 && off2 >= 5 && top == 3 && off2 >= off + 2) || (off >= 5 && off2 >= 5 && top
            == 7 && off2 >= off + 3) || (off >= 5 && off2 >= 5 && top2 == 3 && off >= off2 + 2)
            || (off >= 5 && off2 >= 5 && top2 == 7 && off >= off2 + 3),
    ensures
        (((h & !(top << off)) | (c << off)) & (top << off)) >> off == c,
        (((h & !(top << off)) | (c << off)) & (top2 << off2)) >> off2 == (h & (top2 << off2))
            >> off2,
        (h & !(top << off)) | (((h & (top << off)) >> off) << off) == h,
        (h & (top << off)) >> off <= top,
        ((h & !(top << off)) | (c << off)) & !(top << off) == h & !(top << off),
{
}

impl Hand {
    pub const EMPTY: u32 = 0;

    /// Whether `kind` is one of the seven kinds that a hand counts.
    pub open spec fn holds_kind(kind: int) -> bool {
        0 <= kind < 7
    }

    /// The lowest bit of the counter of a kind.
    pub open spec fn offset(kind: int) -> u32 {
        if kind == 0 {
            0
        } else if kind == 1 {
            9
        } else if kind == 2 {
            12
        } else if kind == 3 {
            15
        } else if kind == 4 {
            18
        } else if kind == 5 {
            7
        } else {
            5
        }
    }

    /// The largest count that the counter of a kind can hold.
    pub open spec fn max_count(kind: int) -> u32 {
        if kind == 0 {
            31
        } else if 1 <= kind <= 3 {
            7
        } else {
            3
        }
    }

    /// The bits of the counter of a kind.
    pub open spec fn mask(kind: int) -> u32 {
        Self::max_count(kind) << Self::offset(kind)
    }

    /// How many pieces of a kind the hand holds.
    pub open spec fn count(self, kind: int) -> int {
        ((self.0 & Self::mask(kind)) >> Self::offset(kind)) as int
    }

    /// The seven counts, by kind.
    pub open spec fn view(self) -> Seq<int> {
        Seq::new(7, |kind: int| self.count(kind))
    }

    /// The hand with the counter of a kind set to `n` and every other bit kept.
    pub open spec fn spec_set(self, kind: int, n: u32) -> Hand {
        Hand((self.0 & !Self::mask(kind)) | (n << Self::offset(kind)))
    }

    /// The hand with one piece more of a kind.
    pub open spec fn spec_inc(self, kind: int) -> Hand {
        self.spec_set(kind, (self.count(kind) + 1) as u32)
    }

    /// The hand with one piece less of a kind.
    pub open spec fn spec_dec(self, kind: int) -> Hand {
        self.spec_set(kind, (self.count(kind) - 1) as u32)
    }

    fn field_offset(kind: u8) -> (r: u32)
        requires
            kind < 7,
        ensures
            r == Self::offset(kind as int),
    {
        if kind == 0 {
            0
        } else if kind == 1 {
            9
        } else if kind == 2 {
            12
        } else if kind == 3 {
            15
        } else if kind == 4 {
            18
        } else if kind == 5 {
            7
        } else {
            5
        }
    }

    fn field_max(kind: u8) -> (r: u32)
        requires
            kind < 7,
        ensures
            r == Self::max_count(kind as int),
    {
        if kind == 0 {
            31
        } else if kind <= 3 {
            7
        } else {
            3
        }
    }

    /// The number of pieces of the kind of `piece` in the hand; the owner of `piece` is
    /// not looked at.
    pub fn num(&self, piece: Piece) -> (r: u8)
        requires
            Self::holds_kind(piece.kind()),
        ensures
            r == self.count(piece.kind()),
            r <= Self::max_count(piece.kind()),
    {
        let kind: u8 = piece.piece().0;
        let off = Self::field_offset(kind);
        let top = Self::field_max(kind);
        proof {
            lemma_field_write(self.0, 0, off, top, if off == 0 {
                5
            } else {
                0
            }, if off == 0 {
                3
            } else {
                31
            });
        }
        ((self.0 & (top << off)) >> off) as u8
    }

    /// Adds one piece of the kind of `piece`.
    pub fn inc(&mut self, piece: Piece)
        requires
            Self::holds_kind(piece.kind()),
            old(self).count(piece.kind()) < Self::max_count(piece.kind()),
        ensures
            *final(self) == old(self).spec_inc(piece.kind()),
            final(self).count(piece.kind()) == old(self).count(piece.kind()) + 1,
            forall|k: int|
                Self::holds_kind(k) && k != piece.kind() ==> final(self).count(k) == old(
                    self,
                ).count(k),
    {
        let n = self.num(piece);
        self.set(piece, n as u32 + 1);
    }

    /// Takes one piece of the kind of `piece` away.
    pub fn dec(&mut self, piece: Piece)
        requires
            Self::holds_kind(piece.kind()),
            old(self).count(piece.kind()) > 0,
        ensures
            *final(self) == old(self).spec_dec(piece.kind()),
            final(self).count(piece.kind()) == old(self).count(piece.kind()) - 1,
            forall|k: int|
                Self::holds_kind(k) && k != piece.kind() ==> final(self).count(k) == old(
                    self,
                ).count(k),
    {
        let n = self.num(piece);
        self.set(piece, n as u32 - 1);
    }

    /// Sets the number of pieces of the kind of `piece`.
    pub fn set(&mut self, piece: Piece, new_count: u32)
        requires
            Self::holds_kind(piece.kind()),
            new_count <= Self::max_count(piece.kind()),
        ensures
            *final(self) == old(self).spec_set(piece.kind(), new_count),
            final(self).count(piece.kind()) == new_count,
            forall|k: int|
                Self::holds_kind(k) && k != piece.kind() ==> final(self).count(k) == old(
                    self,
                ).count(k),
    {
        let kind: u8 = piece.piece().0;
        let off = Self::field_offset(kind);
        let top = Self::field_max(kind);
        proof {
            lemma_set_count(*self, kind as int, new_count);
        }
        self.0 = (self.0 & !(top << off)) | (new_count << off);
    }

    /// The text of the hand of the first player: for each kind, in the order pawn, lance,
    /// knight, silver, bishop, rook, gold, the count in decimal, the upper-case letter of
    /// the kind and a blank.
    pub open spec fn spec_text(self) -> Seq<char> {
        Self::text_upto(self, 0, 7)
    }

    /// The text of the first `n` kinds, with the letters in the case of `side`.
    pub open spec fn text_upto(self, side: int, n: int) -> Seq<char>
        decreases n,
    {
        if n <= 0 {
            Seq::empty()
        } else {
            Self::text_upto(self, side, n - 1) + decimal(self.count(n - 1)) + Piece(
                (side * 16 + n - 1) as u8,
            ).spec_text() + seq![' ']
        }
    }

    /// Renders the hand as text, with upper-case letters.
    pub fn to_string(&self) -> (r: String)
        ensures
            r@ == self.spec_text(),
    {
        self.to_string_for(0)
    }

    /// Renders the hand as text, with the letters in the case of `side`: upper case for
    /// the first player, lower case for the second.
    pub fn to_string_for(&self, side: u8) -> (r: String)
        requires
            side < 2,
        ensures
            r@ == self.text_upto(side as int, 7),
    {
        let mut out = String::new();
        let mut kind: u8 = 0;
        while kind < 7
            invariant
                kind <= 7,
                side < 2,
                out@ == self.text_upto(side as int, kind as int),
            decreases 7 - kind,
        {
            let n = self.num(Piece(kind));
            push_decimal(&mut out, n);
            let letter = Piece(kind).as_stm(side).to_string();
            out.append(letter.as_str());
            push_char(&mut out, ' ');
            kind = kind + 1;
        }
        out
    }
}

/// The decimal digits of a number below 100, without leading zeros.
pub open spec fn decimal(n: int) -> Seq<char> {
    if n < 10 {
        seq![('0' as u8 + n) as char]
    } else {
        seq![('0' as u8 + n / 10) as char, ('0' as u8 + n % 10) as char]
    }
}

/// Appends the decimal digits of a number below 100.
pub fn push_decimal(out: &mut String, n: u8)
    requires
        n < 100,
    ensures
        final(out)@ == old(out)@ + decimal(n as int),
{
    if n >= 10 {
        push_char(out, (48 + n / 10) as char);
    }
    push_char(out, (48 + n % 10) as char);
    assert(out@ =~= old(out)@ + decimal(n as int));
}

/// Writing a counter changes that counter to the value written and no other.
pub proof fn lemma_set_count(h: Hand, kind: int, n: u32)
    requires
        Hand::holds_kind(kind),
        n <= Hand::max_count(kind),
    ensures
        h.spec_set(kind, n).count(kind) == n,
        forall|k: int| Hand::holds_kind(k) && k != kind ==> h.spec_set(kind, n).count(k) == h.count(k),
        h.count(kind) <= Hand::max_count(kind),
{
    let off = Hand::offset(kind);
    let top = Hand::max_count(kind);
    assert forall|k: int| Hand::holds_kind(k) && k != kind implies h.spec_set(kind, n).count(k)
        == h.count(k) by {
        lemma_field_write(h.0, n, off, top, Hand::offset(k), Hand::max_count(k));
    }
    lemma_field_write(h.0, n, off, top, if off == 0 {
        5
    } else {
        0
    }, if off == 0 {
        3
    } else {
        31
    });
}

/// Setting a count and reading it gives the count back.
pub proof fn lemma_set_then_num(h: Hand, kind: int, n: u32)
    requires
        Hand::holds_kind(kind),
        n <= Hand::max_count(kind),
    ensures
        h.spec_set(kind, n).count(kind) == n,
{
    lemma_set_count(h, kind, n);
}

/// Adding a piece and taking it away again, or the other way round, gives the same hand,
/// as long as the counter stays between zero and its largest value.
pub proof fn lemma_inc_dec_inverse(h: Hand, kind: int)
    requires
        Hand::holds_kind(kind),
    ensures
        h.count(kind) < Hand::max_count(kind) ==> h.spec_inc(kind).spec_dec(kind) == h,
        h.count(kind) > 0 ==> h.spec_dec(kind).spec_inc(kind) == h,
{
    let off = Hand::offset(kind);
    let top = Hand::max_count(kind);
    let off2: u32 = if off == 0 {
        5
    } else {
        0
    };
    let top2: u32 = if off == 0 {
        3
    } else {
        31
    };
    lemma_set_count(h, kind, 0);
    let c = h.count(kind) as u32;
    lemma_field_write(h.0, c, off, top, off2, top2);
    if c < top {
        let up = h.spec_inc(kind);
        lemma_set_count(h, kind, (c + 1) as u32);
        lemma_field_write(h.0, (c + 1) as u32, off, top, off2, top2);
        assert(up.spec_dec(kind).0 == (up.0 & !(top << off)) | (c << off));
        assert(up.spec_dec(kind) == h);
    }
    if c > 0 {
        let down = h.spec_dec(kind);
        lemma_set_count(h, kind, (c - 1) as u32);
        lemma_field_write(h.0, (c - 1) as u32, off, top, off2, top2);
        assert(down.spec_inc(kind).0 == (down.0 & !(top << off)) | (c << off));
        assert(down.spec_inc(kind) == h);
    }
}

impl Default for Hand {
    fn default() -> (r: Self)
        ensures
            r.0 == 0,
    {
        Self(0)
    }
}

} // verus!
