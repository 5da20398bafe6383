use vstd::prelude::*;

verus! {

pub const NUM_SQUARES: u8 = 81;

pub const BOARD_LEN: u8 = 9;

/// Rank of the board index `i`: rank 0 is the first player's back rank.
pub open spec fn rank_of(i: int) -> int {
    i / 9
}

/// File of the board index `i`.
pub open spec fn file_of(i: int) -> int {
    i % 9
}

/// Whether `i` is one of the 81 board indices.
pub open spec fn on_board(i: int) -> bool {
    0 <= i < 81
}

/// Whether a rank and a file name a square of the board.
pub open spec fn rf_on_board(rank: int, file: int) -> bool {
    0 <= rank < 9 && 0 <= file < 9
}

/// A board index: `rank * 9 + file`, both in `0..9`. The value 81 stands for "no square".
#[derive(Debug, Copy, Clone, Default, PartialEq, Eq, PartialOrd, Ord, Structural)]
pub struct Square(pub u8);

impl Square {
    /// Raw value of the square that is not on the board.
    pub const INVALID: u8 = 81;

    pub open spec fn view(self) -> int {
        self.0 as int
    }

    /// Whether the square lies on the 9x9 board.
    pub open spec fn valid(self) -> bool {
        on_board(self@)
    }

    #[must_use]
    pub fn rank(&self) -> (r: u8)
        ensures
            r == rank_of(self@),
    {
        self.0 / BOARD_LEN
    }

    #[must_use]
    pub fn file(&self) -> (r: u8)
        ensures
            r == file_of(self@),
    {
        self.0 % BOARD_LEN
    }

    #[must_use]
    pub fn as_usize(&self) -> (r: usize)
        ensures
            r == self@,
    {
        self.0 as usize
    }

    #[must_use]
    pub fn as_u16(&self) -> (r: u16)
        ensures
            r == self@,
    {
        self.0 as u16
    }

    /// The square on the given rank and file.
    #[must_use]
    pub fn from_rf(rank: u8, file: u8) -> (r: Self)
        requires
            rank * 9 + file <= u8::MAX,
        ensures
            r@ == rank * 9 + file,
            rf_on_board(rank as int, file as int) ==> r.valid() && rank_of(r@) == rank && file_of(
                r@,
            ) == file,
    {
        Self(rank * BOARD_LEN + file)
    }
}

} // verus!
