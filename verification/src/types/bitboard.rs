use crate::bits::{
    bit_at, is_set, lemma_set_clear_lowest, lemma_set_lsb, lemma_set_msb, lemma_set_ops,
    lemma_set_shl, lemma_set_shr, lemma_set_single, lemma_set_zero, lsb_index, msb_index,
};
use crate::types::piece::push_char;
use crate::types::square::{file_of, on_board, rank_of, Square};
use vstd::prelude::*;

verus! {

/// The nine squares of file 0.
pub const FILEMASK: u128 =
    0b1_000000001_000000001_000000001_000000001_000000001_000000001_000000001_000000001;

/// The nine squares of rank 0.
pub const RANKMASK: u128 = 0b111111111;

/// The 81 squares of the board.
pub const FULLMASK: u128 = 0x1_FFFF_FFFF_FFFF_FFFF_FFFF;

/// A set of squares, one bit for each: bit `i` stands for the board index `i`.
///
/// The word is wider than the board. Bits 81 to 127 stand for no square; the set
/// operations carry them along like any other bit.
#[derive(Debug, Copy, Clone, PartialEq, Eq, Structural)]
pub struct Bitboard(pub u128);

/// One bit of each of the three masks.
pub proof fn lemma_mask_bits(j: u8)
    by (bit_vector)
    requires
        j < 128,
    ensures
        bit_at(FILEMASK, j) == (j <= 72 && j % 9 == 0),
        bit_at(RANKMASK, j) == (j < 9),
        bit_at(FULLMASK, j) == (j < 81),
{
}

/// `x & (x - 1)` is non-zero exactly when the lowest and the highest set bit of `x`
/// differ.
pub proof fn lemma_multiple_bits(x: u128, y: u128)
    by (bit_vector)
    ensures
        (x & ((x - 1) as u128) != 0) == (x != 0 && lsb_index(x) != msb_index(x)),
        0u128 & y == 0,
{
}

/// The bits of the three masks.
pub proof fn lemma_masks()
    ensures
        forall|i: int| #[trigger] is_set(FILEMASK, i) == (on_board(i) && file_of(i) == 0),
        forall|i: int| #[trigger] is_set(RANKMASK, i) == (0 <= i < 9),
        forall|i: int| #[trigger] is_set(FULLMASK, i) == on_board(i),
{
    assert forall|i: int| #[trigger] is_set(FILEMASK, i) == (on_board(i) && file_of(i) == 0) by {
        if 0 <= i < 128 {
            lemma_mask_bits(i as u8);
        }
    }
    assert forall|i: int| #[trigger] is_set(RANKMASK, i) == (0 <= i < 9) by {
        if 0 <= i < 128 {
            lemma_mask_bits(i as u8);
        }
    }
    assert forall|i: int| #[trigger] is_set(FULLMASK, i) == on_board(i) by {
        if 0 <= i < 128 {
            lemma_mask_bits(i as u8);
        }
    }
}

/// How many of the bits `0..n` of `x` are set.
pub open spec fn count_below(x: u128, n: int) -> int
    decreases n,
{
    if n <= 0 {
        0
    } else {
        count_below(x, n - 1) + if is_set(x, n - 1) {
            1int
        } else {
            0int
        }
    }
}

/// How many bits of `x` are set.
pub open spec fn count_ones(x: u128) -> int {
    count_below(x, 128)
}

/// The set bits of `x` below `n`, as squares in rising order.
pub open spec fn squares_below(x: u128, n: int) -> Seq<Square>
    decreases n,
{
    if n <= 0 {
        Seq::empty()
    } else if is_set(x, n - 1) {
        squares_below(x, n - 1).push(Square((n - 1) as u8))
    } else {
        squares_below(x, n - 1)
    }
}

/// The indices below `n` for which `p` holds, as squares in rising order.
pub open spec fn squares_where(p: spec_fn(int) -> bool, n: int) -> Seq<Square>
    decreases n,
{
    if n <= 0 {
        Seq::empty()
    } else if p(n - 1) {
        squares_where(p, n - 1).push(Square((n - 1) as u8))
    } else {
        squares_where(p, n - 1)
    }
}

/// The squares of a word are the indices for which a predicate holds, where the bits of
/// the word say when it does.
pub proof fn lemma_squares_where(x: u128, p: spec_fn(int) -> bool, n: int)
    requires
        0 <= n <= 128,
        forall|i: int| 0 <= i < n ==> is_set(x, i) == #[trigger] p(i),
    ensures
        squares_below(x, n) == squares_where(p, n),
    decreases n,
{
    if n > 0 {
        lemma_squares_where(x, p, n - 1);
    }
}

/// A count of bits lies between zero and the number of bits looked at.
pub proof fn lemma_count_bounds(x: u128, n: int)
    requires
        0 <= n,
    ensures
        0 <= count_below(x, n) <= n,
    decreases n,
{
    if n > 0 {
        lemma_count_bounds(x, n - 1);
    }
}

/// Taking one set bit out of a word lowers the count by one from that bit on.
pub proof fn lemma_count_without(x: u128, y: u128, l: int, n: int)
    requires
        0 <= n <= 128,
        is_set(x, l),
        forall|i: int| 0 <= i < 128 ==> is_set(y, i) == (is_set(x, i) && i != l),
    ensures
        count_below(y, n) == count_below(x, n) - if l < n {
            1int
        } else {
            0int
        },
    decreases n,
{
    if n > 0 {
        lemma_count_without(x, y, l, n - 1);
    }
}

/// Where a word has no bit from `lo` up to `hi`, the squares below `hi` are those below `lo`.
pub proof fn lemma_squares_gap(x: u128, lo: int, hi: int)
    requires
        0 <= lo <= hi,
        forall|i: int| lo <= i < hi ==> !is_set(x, i),
    ensures
        squares_below(x, hi) == squares_below(x, lo),
    decreases hi - lo,
{
    if lo < hi {
        lemma_squares_gap(x, lo, hi - 1);
    }
}

/// The squares below `n` are exactly the set bits below `n`, each once, in rising order.
pub proof fn lemma_squares_below(x: u128, n: int)
    requires
        0 <= n <= 128,
    ensures
        forall|k: int|
            0 <= k < squares_below(x, n).len() ==> 0 <= (#[trigger] squares_below(x, n)[k])@ < n
                && is_set(x, squares_below(x, n)[k]@),
        forall|j: int, k: int|
            0 <= j < k < squares_below(x, n).len() ==> squares_below(x, n)[j]@ < squares_below(
                x,
                n,
            )[k]@,
        forall|i: int|
            0 <= i < n && is_set(x, i) ==> exists|k: int|
                0 <= k < squares_below(x, n).len() && (#[trigger] squares_below(x, n)[k])@ == i,
        squares_below(x, n).len() == count_below(x, n),
    decreases n,
{
    if n > 0 {
        lemma_squares_below(x, n - 1);
        let prev = squares_below(x, n - 1);
        let cur = squares_below(x, n);
        if is_set(x, n - 1) {
            assert(cur[prev.len() as int]@ == n - 1);
        }
        assert forall|i: int| 0 <= i < n && is_set(x, i) implies exists|k: int|
            0 <= k < cur.len() && (#[trigger] cur[k])@ == i by {
            if i < n - 1 {
                let k = choose|k: int| 0 <= k < prev.len() && (#[trigger] prev[k])@ == i;
                assert(cur[k]@ == i);
            } else {
                assert(cur[prev.len() as int]@ == i);
            }
        }
    }
}

impl Bitboard {
    pub const EMPTY: u128 = 0;

    pub const FULL: u128 = FULLMASK;

    /// Whether the board index `sq` is in the set.
    #[verifier::inline]
    pub open spec fn contains(self, sq: int) -> bool {
        is_set(self.0, sq)
    }

    /// The set of indices whose bit is set.
    pub open spec fn view(self) -> Set<int> {
        Set::new(|i: int| is_set(self.0, i))
    }

    /// The set that holds `sq` alone.
    #[must_use]
    pub fn from_square(sq: Square) -> (r: Self)
        requires
            sq@ < 128,
        ensures
            r.0 == 1u128 << sq.0,
            forall|i: int| #[trigger] r.contains(i) == (i == sq@),
    {
        proof {
            lemma_set_single(sq.0);
        }
        Self(1u128 << sq.0)
    }

    /// The set that holds the index `idx` alone.
    #[must_use]
    pub fn from_idx(idx: i32) -> (r: Self)
        requires
            0 <= idx < 128,
        ensures
            r.0 == 1u128 << (idx as u8),
            forall|i: int| #[trigger] r.contains(i) == (i == idx),
    {
        proof {
            lemma_set_single(idx as u8);
        }
        Self(1u128 << (idx as u8))
    }

    /// The indices of one rank: those of `rank * 9` to `rank * 9 + 8` that the word can hold.
    #[must_use]
    pub fn from_rank(rank: u8) -> (r: Self)
        requires
            rank * 9 < 128,
        ensures
            r.0 == RANKMASK << ((9 * rank) as u8),
            forall|i: int| #[trigger] r.contains(i) == (0 <= i < 128 && rank_of(i) == rank),
    {
        proof {
            lemma_masks();
            lemma_set_shl(RANKMASK, (9 * rank) as u8);
        }
        Self(RANKMASK << (9 * rank))
    }

    /// The squares of one file of the board.
    #[must_use]
    pub fn from_file(file: u8) -> (r: Self)
        requires
            file < 128,
        ensures
            r.0 == FILEMASK << file,
            file < 9 ==> forall|i: int|
                #[trigger] r.contains(i) == (on_board(i) && file_of(i) == file),
    {
        proof {
            lemma_masks();
            lemma_set_shl(FILEMASK, file);
        }
        Self(FILEMASK << file)
    }

    /// The index of the lowest member.
    #[must_use]
    pub fn lsb(&self) -> (r: u8)
        requires
            self.0 != 0,
        ensures
            r == lsb_index(self.0),
            r < 128,
            self.contains(r as int),
            forall|j: int| 0 <= j < r ==> !self.contains(j),
    {
        proof {
            lemma_set_lsb(self.0);
        }
        let x: u128 = self.0;
        let n6: u8 = if x & 0xFFFF_FFFF_FFFF_FFFFu128 == 0 {
            64u8
        } else {
            0u8
        };
        let x6: u128 = x >> n6;
        let n5: u8 = if x6 & 0xFFFF_FFFFu128 == 0 {
            32u8
        } else {
            0u8
        };
        let x5: u128 = x6 >> n5;
        let n4: u8 = if x5 & 0xFFFFu128 == 0 {
            16u8
        } else {
            0u8
        };
        let x4: u128 = x5 >> n4;
        let n3: u8 = if x4 & 0xFFu128 == 0 {
            8u8
        } else {
            0u8
        };
        let x3: u128 = x4 >> n3;
        let n2: u8 = if x3 & 0xFu128 == 0 {
            4u8
        } else {
            0u8
        };
        let x2: u128 = x3 >> n2;
        let n1: u8 = if x2 & 0x3u128 == 0 {
            2u8
        } else {
            0u8
        };
        let x1: u128 = x2 >> n1;
        let n0: u8 = if x1 & 0x1u128 == 0 {
            1u8
        } else {
            0u8
        };
        n6 + n5 + n4 + n3 + n2 + n1 + n0
    }

    /// The index of the highest member.
    #[must_use]
    pub fn msb(&self) -> (r: u8)
        requires
            self.0 != 0,
        ensures
            r == msb_index(self.0),
            r < 128,
            self.contains(r as int),
            forall|j: int| r < j ==> !self.contains(j),
    {
        proof {
            lemma_set_msb(self.0);
        }
        let x: u128 = self.0;
        let n6: u8 = if x >> 64u8 != 0 {
            64u8
        } else {
            0u8
        };
        let x6: u128 = x >> n6;
        let n5: u8 = if x6 >> 32u8 != 0 {
            32u8
        } else {
            0u8
        };
        let x5: u128 = x6 >> n5;
        let n4: u8 = if x5 >> 16u8 != 0 {
            16u8
        } else {
            0u8
        };
        let x4: u128 = x5 >> n4;
        let n3: u8 = if x4 >> 8u8 != 0 {
            8u8
        } else {
            0u8
        };
        let x3: u128 = x4 >> n3;
        let n2: u8 = if x3 >> 4u8 != 0 {
            4u8
        } else {
            0u8
        };
        let x2: u128 = x3 >> n2;
        let n1: u8 = if x2 >> 2u8 != 0 {
            2u8
        } else {
            0u8
        };
        let x1: u128 = x2 >> n1;
        let n0: u8 = if x1 >> 1u8 != 0 {
            1u8
        } else {
            0u8
        };
        n6 + n5 + n4 + n3 + n2 + n1 + n0
    }

    /// Takes the lowest member out of the set and returns its index.
    pub fn pop_lsb(&mut self) -> (r: u8)
        requires
            old(self).0 != 0,
        ensures
            r == lsb_index(old(self).0),
            r < 128,
            old(self).contains(r as int),
            forall|j: int| 0 <= j < r ==> !old(self).contains(j),
            forall|i: int| #[trigger] final(self).contains(i) == (old(self).contains(i) && i != r),
    {
        let lsb: u8 = self.lsb();
        proof {
            lemma_set_clear_lowest(self.0);
        }
        self.0 = self.0 & (self.0 - 1);
        lsb
    }

    /// The number of members.
    #[must_use]
    pub fn popcount(&self) -> (r: u32)
        ensures
            r == count_ones(self.0),
    {
        let mut rest: u128 = self.0;
        let mut n: u32 = 0;
        proof {
            lemma_count_bounds(self.0, 128);
            lemma_set_zero();
        }
        while rest != 0
            invariant
                n + count_ones(rest) == count_ones(self.0),
                0 <= count_ones(self.0) <= 128,
                0 <= count_ones(rest),
            decreases count_ones(rest),
        {
            proof {
                lemma_set_clear_lowest(rest);
                lemma_set_lsb(rest);
                let next = rest & ((rest - 1) as u128);
                lemma_count_without(rest, next, lsb_index(rest) as int, 128);
                lemma_count_bounds(next, 128);
            }
            rest = rest & (rest - 1);
            n = n + 1;
        }
        proof {
            lemma_count_zero(128);
        }
        n
    }

    #[must_use]
    pub fn is_empty(&self) -> (r: bool)
        ensures
            r == (self.0 == 0),
            r == (forall|i: int| !self.contains(i)),
    {
        proof {
            lemma_empty(self.0);
        }
        self.0 == 0
    }

    #[must_use]
    pub fn is_not_empty(&self) -> (r: bool)
        ensures
            r == (self.0 != 0),
            r == (exists|i: int| self.contains(i)),
    {
        proof {
            lemma_empty(self.0);
        }
        self.0 != 0
    }

    #[must_use]
    pub fn has_bits(&self) -> (r: bool)
        ensures
            r == (self.0 != 0),
            r == (exists|i: int| self.contains(i)),
    {
        proof {
            lemma_empty(self.0);
        }
        self.0 != 0
    }

    #[must_use]
    pub fn raw(&self) -> (r: u128)
        ensures
            r == self.0,
    {
        self.0
    }

    /// Whether the set has two members or more.
    #[must_use]
    pub fn contains_multiple(self) -> (r: bool)
        ensures
            r == (exists|i: int, j: int| i != j && self.contains(i) && self.contains(j)),
    {
        proof {
            lemma_multiple(self.0);
        }
        (self.0 & self.0.wrapping_sub(1)) != 0
    }

    /// Whether the set has exactly one member.
    #[must_use]
    pub fn contains_one(self) -> (r: bool)
        ensures
            r == (exists|i: int|
                self.contains(i) && forall|j: int| self.contains(j) ==> j == i),
    {
        let some = !self.is_empty();
        let many = self.contains_multiple();
        proof {
            if some && !many {
                let i = choose|i: int| self.contains(i);
                assert(forall|j: int| self.contains(j) ==> j == i);
            }
        }
        some && !many
    }

    /// Union.
    #[must_use]
    pub fn bitor(self, rhs: Self) -> (r: Self)
        ensures
            r.0 == self.0 | rhs.0,
            forall|i: int| #[trigger] r.contains(i) == (self.contains(i) || rhs.contains(i)),
            r@ == self@.union(rhs@),
    {
        proof {
            lemma_set_ops(self.0, rhs.0);
            assert(Self(self.0 | rhs.0)@ =~= self@.union(rhs@));
        }
        Self(self.0 | rhs.0)
    }

    /// Intersection.
    #[must_use]
    pub fn bitand(self, rhs: Self) -> (r: Self)
        ensures
            r.0 == self.0 & rhs.0,
            forall|i: int| #[trigger] r.contains(i) == (self.contains(i) && rhs.contains(i)),
            r@ == self@.intersect(rhs@),
    {
        proof {
            lemma_set_ops(self.0, rhs.0);
            assert(Self(self.0 & rhs.0)@ =~= self@.intersect(rhs@));
        }
        Self(self.0 & rhs.0)
    }

    /// Symmetric difference.
    #[must_use]
    pub fn bitxor(self, rhs: Self) -> (r: Self)
        ensures
            r.0 == self.0 ^ rhs.0,
            forall|i: int| #[trigger] r.contains(i) == (self.contains(i) != rhs.contains(i)),
    {
        proof {
            lemma_set_ops(self.0, rhs.0);
        }
        Self(self.0 ^ rhs.0)
    }

    /// Complement within the 128 bits of the word.
    #[must_use]
    pub fn not(self) -> (r: Self)
        ensures
            r.0 == !self.0,
            forall|i: int| #[trigger] r.contains(i) == (0 <= i < 128 && !self.contains(i)),
    {
        proof {
            lemma_set_ops(self.0, self.0);
        }
        Self(!self.0)
    }

    /// Every member moved up by `rhs`; members pushed past bit 127 are lost.
    #[must_use]
    pub fn shl(self, rhs: u8) -> (r: Self)
        requires
            rhs < 128,
        ensures
            r.0 == self.0 << rhs,
            forall|i: int| #[trigger] r.contains(i) == (rhs <= i < 128 && self.contains(i - rhs)),
    {
        proof {
            lemma_set_shl(self.0, rhs);
        }
        Self(self.0 << rhs)
    }

    /// Every member moved down by `rhs`; members pushed below bit 0 are lost.
    #[must_use]
    pub fn shr(self, rhs: u8) -> (r: Self)
        requires
            rhs < 128,
        ensures
            r.0 == self.0 >> rhs,
            forall|i: int| #[trigger] r.contains(i) == (0 <= i && self.contains(i + rhs)),
    {
        proof {
            lemma_set_shr(self.0, rhs);
        }
        Self(self.0 >> rhs)
    }

    /// The members as squares, lowest first.
    pub fn squares(&self) -> (r: Vec<Square>)
        ensures
            r@ == squares_below(self.0, 128),
    {
        let mut rest = *self;
        let mut out: Vec<Square> = Vec::new();
        let ghost mut done: int = 0;
        proof {
            lemma_count_bounds(rest.0, 128);
        }
        while rest.0 != 0
            invariant
                0 <= done <= 128,
                out@ == squares_below(self.0, done),
                forall|i: int| #[trigger] rest.contains(i) == (self.contains(i) && done <= i),
                0 <= count_ones(rest.0),
            decreases count_ones(rest.0),
        {
            let ghost before = rest;
            let sq: u8 = rest.pop_lsb();
            proof {
                lemma_count_without(before.0, rest.0, sq as int, 128);
                lemma_count_bounds(rest.0, 128);
                assert forall|i: int| done <= i < sq implies !is_set(self.0, i) by {
                    assert(!before.contains(i));
                }
                lemma_squares_gap(self.0, done, sq as int);
                done = sq + 1;
            }
            out.push(Square(sq));
        }
        proof {
            lemma_set_zero();
            assert forall|i: int| done <= i < 128 implies !is_set(self.0, i) by {
                assert(!rest.contains(i));
            }
            lemma_squares_gap(self.0, done, 128);
        }
        out
    }

    /// The squares of every file of the board that holds a member on the board.
    #[must_use]
    pub fn file_fill(&self) -> (r: Self)
        ensures
            forall|i: int| #[trigger]
                r.contains(i) == (on_board(i) && exists|j: int|
                    on_board(j) && file_of(j) == file_of(i) && self.contains(j)),
    {
        let mut out = Self(0);
        let mut file: u8 = 0;
        proof {
            lemma_set_zero();
        }
        while file < 9
            invariant
                file <= 9,
                forall|i: int| #[trigger]
                    out.contains(i) == (on_board(i) && file_of(i) < file && exists|j: int|
                        on_board(j) && file_of(j) == file_of(i) && self.contains(j)),
            decreases 9 - file,
        {
            let column = Self::from_file(file);
            let hit = self.bitand(column);
            if hit.is_not_empty() {
                proof {
                    let j = choose|j: int| hit.contains(j);
                    assert(on_board(j) && file_of(j) == file && self.contains(j));
                }
                out = out.bitor(column);
            } else {
                assert forall|j: int| on_board(j) && file_of(j) == file implies !self.contains(
                    j,
                ) by {
                    assert(!hit.contains(j));
                }
            }
            file = file + 1;
        }
        out
    }

    /// The text of the board part of the set: nine lines of nine digits, the highest rank
    /// first, `1` for a member and `0` for any other square, each line closed by a line feed.
    pub open spec fn spec_text(self) -> Seq<char> {
        Seq::new(
            90,
            |k: int|
                if k % 10 == 9 {
                    '\n'
                } else if self.contains((8 - k / 10) * 9 + k % 10) {
                    '1'
                } else {
                    '0'
                },
        )
    }

    /// Renders the board part of the set as text.
    pub fn to_string(&self) -> (r: String)
        ensures
            r@ == self.spec_text(),
    {
        let mut out = String::new();
        let mut row: u8 = 0;
        while row < 9
            invariant
                row <= 9,
                out@ == self.spec_text().take(row * 10),
            decreases 9 - row,
        {
            let mut file: u8 = 0;
            while file < 9
                invariant
                    row < 9,
                    file <= 9,
                    out@ == self.spec_text().take(row * 10 + file),
                decreases 9 - file,
            {
                let idx: u8 = (8 - row) * 9 + file;
                let single = Self::from_square(Square(idx));
                let hit = self.bitand(single);
                let ghost k = row * 10 + file;
                if hit.is_not_empty() {
                    push_char(&mut out, '1');
                } else {
                    assert(!hit.contains(idx as int));
                    push_char(&mut out, '0');
                }
                assert(out@ =~= self.spec_text().take(k + 1));
                file = file + 1;
            }
            push_char(&mut out, '\n');
            assert(out@ =~= self.spec_text().take(row * 10 + 10));
            row = row + 1;
        }
        assert(out@ =~= self.spec_text());
        out
    }
}

/// Below any bound, the zero word counts no bit.
pub proof fn lemma_count_zero(n: int)
    ensures
        count_below(0, n) == 0,
    decreases n,
{
    lemma_set_zero();
    if n > 0 {
        lemma_count_zero(n - 1);
    }
}

/// A word is zero exactly when it has no bit.
pub proof fn lemma_empty(x: u128)
    ensures
        (x == 0) == (forall|i: int| !is_set(x, i)),
        (x != 0) == (exists|i: int| is_set(x, i)),
{
    lemma_set_zero();
    if x != 0 {
        lemma_set_lsb(x);
    }
}

/// `x & (x - 1)`, with the subtraction wrapping, is non-zero exactly when `x` has two
/// bits or more.
pub proof fn lemma_multiple(x: u128)
    ensures
        (x & x.wrapping_sub(1) != 0) == (exists|i: int, j: int|
            i != j && is_set(x, i) && is_set(x, j)),
{
    lemma_multiple_bits(x, x.wrapping_sub(1));
    lemma_set_zero();
    if x == 0 {
        assert(x & x.wrapping_sub(1) == 0);
    } else {
        assert(x.wrapping_sub(1) == (x - 1) as u128);
        lemma_set_lsb(x);
        lemma_set_msb(x);
        lemma_set_clear_lowest(x);
        let y = x & ((x - 1) as u128);
        if y != 0 {
            assert(is_set(x, lsb_index(x) as int) && is_set(x, msb_index(x) as int));
        } else {
            assert forall|i: int, j: int| i != j && is_set(x, i) implies !is_set(x, j) by {
                if is_set(x, j) {
                    assert(is_set(y, i) || is_set(y, j));
                }
            }
        }
    }
}

impl Default for Bitboard {
    fn default() -> (r: Self)
        ensures
            r.0 == 0,
    {
        Self(0)
    }
}

} // verus!
