use crate::board::Position;
use crate::types::hand::Hand;
use crate::types::piece::Piece;
use crate::types::square::Square;
use vstd::prelude::*;

verus! {

/// What the board field of a position string has placed so far.
pub struct RankScan {
    /// The piece on each of the 81 squares.
    pub cells: Seq<Piece>,
    /// The square that the next piece goes on.
    pub next: int,
    /// Whether a `+` waits for its piece.
    pub promoted: bool,
}

/// What the hand field of a position string has counted so far.
pub struct HandScan {
    /// The hand of the first player.
    pub sente: Hand,
    /// The hand of the second player.
    pub gote: Hand,
    /// The count read and not yet used, if any digit was read.
    pub pending: Option<int>,
}

/// What a position string says.
pub struct SfenView {
    /// The piece on each of the 81 squares.
    pub cells: Seq<Piece>,
    /// The hand of the first player.
    pub sente: Hand,
    /// The hand of the second player.
    pub gote: Hand,
    /// The side to move.
    pub stm: int,
    /// The ply counter, where the string has one.
    pub ply: Option<int>,
}

/// A position read from a string: the board and the hands, the side to move, and the ply
/// counter where the string gives one. No checkers are recorded in the position.
#[derive(Debug, Clone, Copy)]
pub struct Sfen {
    pub position: Position,
    pub stm: u8,
    pub ply: Option<i16>,
}

/// Whether a byte is ASCII white space: blank, tab, line feed, form feed, carriage return.
pub open spec fn is_space(c: u8) -> bool {
    c == 32 || c == 9 || c == 10 || c == 12 || c == 13
}

/// The first index from `i` on that holds no white space, or the length.
pub open spec fn skip_spaces(b: Seq<u8>, i: int) -> int
    decreases b.len() - i,
{
    if 0 <= i < b.len() && is_space(b[i]) {
        skip_spaces(b, i + 1)
    } else {
        i
    }
}

/// The first index from `i` on that holds white space, or the length.
pub open spec fn skip_word(b: Seq<u8>, i: int) -> int
    decreases b.len() - i,
{
    if 0 <= i < b.len() && !is_space(b[i]) {
        skip_word(b, i + 1)
    } else {
        i
    }
}

/// The kind and the owner that a piece letter stands for: lower case for the second
/// player, upper case for the first.
pub open spec fn letter_piece(c: u8) -> Option<(int, int)> {
    if c == 'p' as u8 {
        Some((0, 1))
    } else if c == 'P' as u8 {
        Some((0, 0))
    } else if c == 'l' as u8 {
        Some((1, 1))
    } else if c == 'L' as u8 {
        Some((1, 0))
    } else if c == 'n' as u8 {
        Some((2, 1))
    } else if c == 'N' as u8 {
        Some((2, 0))
    } else if c == 's' as u8 {
        Some((3, 1))
    } else if c == 'S' as u8 {
        Some((3, 0))
    } else if c == 'b' as u8 {
        Some((4, 1))
    } else if c == 'B' as u8 {
        Some((4, 0))
    } else if c == 'r' as u8 {
        Some((5, 1))
    } else if c == 'R' as u8 {
        Some((5, 0))
    } else if c == 'g' as u8 {
        Some((6, 1))
    } else if c == 'G' as u8 {
        Some((6, 0))
    } else if c == 'k' as u8 {
        Some((7, 1))
    } else if c == 'K' as u8 {
        Some((7, 0))
    } else {
        None
    }
}

/// Whether a byte is a decimal digit.
pub open spec fn is_digit(c: u8) -> bool {
    48 <= c <= 57
}

/// One byte of the board field. A `+` promotes the piece that follows. A letter puts its
/// piece on the next square, which has to be on the board; gold and king cannot be
/// promoted. A digit leaves that many squares empty, and may not lead past the end of the
/// board. Any other byte is an error.
pub open spec fn rank_step(st: Option<RankScan>, c: u8) -> Option<RankScan> {
    match st {
        None => None,
        Some(s) => {
            if c == '+' as u8 {
                Some(RankScan { promoted: true, ..s })
            } else if letter_piece(c) is Some {
                let (kind, side) = letter_piece(c)->0;
                if s.next >= 81 || (kind >= 6 && s.promoted) {
                    None
                } else {
                    Some(
                        RankScan {
                            cells: s.cells.update(
                                s.next,
                                Piece(
                                    (side * 16 + kind + if s.promoted {
                                        8int
                                    } else {
                                        0int
                                    }) as u8,
                                ),
                            ),
                            next: s.next + 1,
                            promoted: false,
                        },
                    )
                }
            } else if is_digit(c) {
                if s.next + (c - 48) > 81 {
                    None
                } else {
                    Some(RankScan { next: s.next + (c - 48), ..s })
                }
            } else {
                None
            }
        },
    }
}

/// The bytes `lo..hi` of one rank, read from left to right.
pub open spec fn scan_rank(b: Seq<u8>, lo: int, hi: int, st: Option<RankScan>) -> Option<RankScan>
    decreases hi - lo,
{
    if hi <= lo {
        st
    } else {
        rank_step(scan_rank(b, lo, hi - 1, st), b[hi - 1])
    }
}

/// The index of the last `/` among the bytes `lo..hi`, or `lo - 1` where there is none.
pub open spec fn last_slash(b: Seq<u8>, lo: int, hi: int) -> int
    decreases hi - lo,
{
    if hi <= lo {
        lo - 1
    } else if b[hi - 1] == '/' as u8 {
        hi - 1
    } else {
        last_slash(b, lo, hi - 1)
    }
}

/// A scan at the start of a rank: no `+` is carried over from the rank before.
pub open spec fn fresh_rank(st: Option<RankScan>) -> Option<RankScan> {
    match st {
        None => None,
        Some(s) => Some(RankScan { promoted: false, ..s }),
    }
}

/// The board field in the bytes `lo..hi`: ranks parted by `/`. The last rank of the field
/// is read first and fills the board from square 0 on; within a rank the squares are
/// filled from left to right.
pub open spec fn scan_ranks(b: Seq<u8>, lo: int, hi: int, st: Option<RankScan>) -> Option<
    RankScan,
>
    decreases hi - lo,
{
    let cut = last_slash(b, lo, hi);
    let done = scan_rank(b, cut + 1, hi, fresh_rank(st));
    if cut < lo || cut >= hi {
        done
    } else {
        scan_ranks(b, lo, cut, done)
    }
}

/// One byte of the hand field. Digits build a decimal count. A letter of a kind that a
/// hand can hold sets the counter of that kind, for the owner that its case names, to the
/// count before it, or to 1 where there is none; the count has to fit the counter. Any
/// other byte is an error.
pub open spec fn hand_step(st: Option<HandScan>, c: u8) -> Option<HandScan> {
    match st {
        None => None,
        Some(s) => {
            if is_digit(c) {
                Some(
                    HandScan {
                        pending: Some(
                            10 * (match s.pending {
                                Some(n) => n,
                                None => 0,
                            }) + (c - 48),
                        ),
                        ..s
                    },
                )
            } else if letter_piece(c) is Some && (letter_piece(c)->0).0 < 7 {
                let (kind, side) = letter_piece(c)->0;
                let count = match s.pending {
                    Some(n) => n,
                    None => 1,
                };
                if count > Hand::max_count(kind) {
                    None
                } else if side == 0 {
                    Some(
                        HandScan {
                            sente: s.sente.spec_set(kind, count as u32),
                            gote: s.gote,
                            pending: None,
                        },
                    )
                } else {
                    Some(
                        HandScan {
                            sente: s.sente,
                            gote: s.gote.spec_set(kind, count as u32),
                            pending: None,
                        },
                    )
                }
            } else {
                None
            }
        },
    }
}

/// The bytes `lo..hi` of the hand field, read from left to right.
pub open spec fn scan_hand(b: Seq<u8>, lo: int, hi: int, st: Option<HandScan>) -> Option<HandScan>
    decreases hi - lo,
{
    if hi <= lo {
        st
    } else {
        hand_step(scan_hand(b, lo, hi - 1, st), b[hi - 1])
    }
}

/// The two hands that the hand field in the bytes `lo..hi` gives: none for a lone `-`;
/// else what the bytes set, where no count is left over at the end.
pub open spec fn hand_field(b: Seq<u8>, lo: int, hi: int) -> Option<(Hand, Hand)> {
    if hi == lo + 1 && b[lo] == '-' as u8 {
        Some((Hand(0), Hand(0)))
    } else {
        match scan_hand(b, lo, hi, Some(HandScan { sente: Hand(0), gote: Hand(0), pending: None })) {
            None => None,
            Some(s) => if s.pending is Some {
                None
            } else {
                Some((s.sente, s.gote))
            },
        }
    }
}

/// The number that the decimal digits in the bytes `lo..hi` write, if they are all digits.
pub open spec fn digits_value(b: Seq<u8>, lo: int, hi: int) -> Option<int>
    decreases hi - lo,
{
    if hi <= lo {
        Some(0)
    } else {
        match digits_value(b, lo, hi - 1) {
            None => None,
            Some(n) => if is_digit(b[hi - 1]) {
                Some(10 * n + (b[hi - 1] - 48))
            } else {
                None
            },
        }
    }
}

/// The ply counter that the bytes `lo..hi` write: a decimal number of at least one digit,
/// with or without a sign before it, that a 16-bit counter can hold.
pub open spec fn ply_field(b: Seq<u8>, lo: int, hi: int) -> Option<int> {
    let signed = lo < hi && (b[lo] == '-' as u8 || b[lo] == '+' as u8);
    let start = if signed {
        lo + 1
    } else {
        lo
    };
    if start >= hi {
        None
    } else {
        match digits_value(b, start, hi) {
            None => None,
            Some(n) => {
                let value = if lo < hi && b[lo] == '-' as u8 {
                    -n
                } else {
                    n
                };
                if -32768 <= value <= 32767 {
                    Some(value)
                } else {
                    None
                }
            },
        }
    }
}

/// What the position string in `b` says, or nothing where it is malformed.
///
/// The string holds fields parted by white space: the board; the side to move, which is
/// the second player for `w` and the first for anything else; the hands; and, where there
/// is a fourth field, the ply counter. What follows a fourth field is not read.
pub open spec fn parse_spec(b: Seq<u8>) -> Option<SfenView> {
    let s1 = skip_spaces(b, 0);
    let e1 = skip_word(b, s1);
    let s2 = skip_spaces(b, e1);
    let e2 = skip_word(b, s2);
    let s3 = skip_spaces(b, e2);
    let e3 = skip_word(b, s3);
    let s4 = skip_spaces(b, e3);
    let e4 = skip_word(b, s4);
    if s3 >= b.len() {
        None
    } else {
        let board = scan_ranks(b, s1, e1, empty_scan());
        let hands = hand_field(b, s3, e3);
        let ply = ply_field(b, s4, e4);
        if board is None || hands is None || (s4 < b.len() && ply is None) {
            None
        } else {
            Some(
                SfenView {
                    cells: (board->0).cells,
                    sente: (hands->0).0,
                    gote: (hands->0).1,
                    stm: if e2 == s2 + 1 && b[s2] == 'w' as u8 {
                        1
                    } else {
                        0
                    },
                    ply: if s4 < b.len() {
                        ply
                    } else {
                        None
                    },
                },
            )
        }
    }
}

fn is_space_byte(c: u8) -> (r: bool)
    ensures
        r == is_space(c),
{
    c == 32 || c == 9 || c == 10 || c == 12 || c == 13
}

pub(crate) fn find_word(bytes: &[u8], from: usize) -> (r: usize)
    requires
        from <= bytes@.len(),
    ensures
        r == skip_spaces(bytes@, from as int),
        from <= r <= bytes@.len(),
        r < bytes@.len() ==> !is_space(bytes@[r as int]),
{
    let mut i = from;
    while i < bytes.len() && is_space_byte(bytes[i])
        invariant
            from <= i <= bytes@.len(),
            skip_spaces(bytes@, from as int) == skip_spaces(bytes@, i as int),
        decreases bytes@.len() - i,
    {
        i += 1;
    }
    i
}

pub(crate) fn find_word_end(bytes: &[u8], from: usize) -> (r: usize)
    requires
        from <= bytes@.len(),
    ensures
        r == skip_word(bytes@, from as int),
        from <= r <= bytes@.len(),
        from < bytes@.len() && !is_space(bytes@[from as int]) ==> from < r,
{
    let mut i = from;
    while i < bytes.len() && !is_space_byte(bytes[i])
        invariant
            from <= i <= bytes@.len(),
            skip_word(bytes@, from as int) == skip_word(bytes@, i as int),
        decreases bytes@.len() - i,
    {
        i += 1;
    }
    i
}

fn piece_of_letter(c: u8) -> (r: Option<(u8, u8)>)
    ensures
        match r {
            Some((kind, side)) => letter_piece(c) == Some((kind as int, side as int)) && kind < 8
                && side < 2,
            None => letter_piece(c) is None,
        },
{
    if c == 112 {
        Some((0, 1))
    } else if c == 80 {
        Some((0, 0))
    } else if c == 108 {
        Some((1, 1))
    } else if c == 76 {
        Some((1, 0))
    } else if c == 110 {
        Some((2, 1))
    } else if c == 78 {
        Some((2, 0))
    } else if c == 115 {
        Some((3, 1))
    } else if c == 83 {
        Some((3, 0))
    } else if c == 98 {
        Some((4, 1))
    } else if c == 66 {
        Some((4, 0))
    } else if c == 114 {
        Some((5, 1))
    } else if c == 82 {
        Some((5, 0))
    } else if c == 103 {
        Some((6, 1))
    } else if c == 71 {
        Some((6, 0))
    } else if c == 107 {
        Some((7, 1))
    } else if c == 75 {
        Some((7, 0))
    } else {
        None
    }
}

/// The scan of an empty board: no piece anywhere, the next piece goes on square 0.
pub open spec fn empty_scan() -> Option<RankScan> {
    Some(RankScan { cells: Seq::new(81, |i: int| Piece(14)), next: 0, promoted: false })
}

/// Whether a position under construction holds what a scan says: the pieces of the scan,
/// nothing on the squares not yet reached, and the bitboards in step.
pub open spec fn holds_scan(state: Position, next: u8, promoted: bool, scan: Option<RankScan>) -> bool {
    &&& scan is Some
    &&& state.wf()
    &&& state.mailbox@ == (scan->0).cells
    &&& next == (scan->0).next
    &&& promoted == (scan->0).promoted
    &&& next <= 81
    &&& forall|s: int| next <= s < 81 ==> (#[trigger] state.mailbox[s]).is_none()
    &&& state.hands[0].0 == 0
    &&& state.hands[1].0 == 0
    &&& state.checkers.0 == 0
    &&& state.diag_pin_mask.0 == 0
    &&& state.orth_pin_mask.0 == 0
}

/// Reads one rank of the board field into `state`. Returns the square that the next
/// piece goes on, or nothing where the rank is malformed.
fn read_rank(bytes: &[u8], lo: usize, hi: usize, state: &mut Position, next: u8, Ghost(
    before,
): Ghost<Option<RankScan>>) -> (r: Option<u8>)
    requires
        lo <= hi <= bytes@.len(),
        holds_scan(*old(state), next, false, fresh_rank(before)),
    ensures
        match r {
            Some(n) => holds_scan(
                *final(state),
                n,
                (scan_rank(bytes@, lo as int, hi as int, fresh_rank(before))->0).promoted,
                scan_rank(bytes@, lo as int, hi as int, fresh_rank(before)),
            ),
            None => scan_rank(bytes@, lo as int, hi as int, fresh_rank(before)) is None,
        },
{
    let mut i: u8 = next;
    let mut is_promoted = false;
    let mut at = lo;
    while at < hi
        invariant
            lo <= at <= hi <= bytes@.len(),
            holds_scan(
                *state,
                i,
                is_promoted,
                scan_rank(bytes@, lo as int, at as int, fresh_rank(before)),
            ),
        decreases hi - at,
    {
        let c = bytes[at];
        if c == 43 {
            is_promoted = true;
        } else {
            match piece_of_letter(c) {
                Some((kind, side)) => {
                    if i >= 81 || (kind >= 6 && is_promoted) {
                        proof {
                            lemma_rank_fails(bytes@, lo as int, at + 1, hi as int, fresh_rank(before));
                        }
                        return None;
                    }
                    let code: u8 = if is_promoted {
                        kind + 8
                    } else {
                        kind
                    };
                    let piece = Piece::new_unchecked(code, side);
                    state.add_piece(Square(i), piece);
                    is_promoted = false;
                    i += 1;
                },
                None => {
                    if 48 <= c && c <= 57 && i + (c - 48) <= 81 {
                        i += c - 48;
                    } else {
                        proof {
                            lemma_rank_fails(bytes@, lo as int, at + 1, hi as int, fresh_rank(before));
                        }
                        return None;
                    }
                },
            }
        }
        at += 1;
    }
    Some(i)
}

/// Once a rank has gone wrong, reading on does not mend it.
pub proof fn lemma_rank_fails(b: Seq<u8>, lo: int, mid: int, hi: int, st: Option<RankScan>)
    requires
        lo <= mid <= hi,
        scan_rank(b, lo, mid, st) is None,
    ensures
        scan_rank(b, lo, hi, st) is None,
    decreases hi - mid,
{
    if mid < hi {
        lemma_rank_fails(b, lo, mid, hi - 1, st);
    }
}

/// Once the hand field has gone wrong, reading on does not mend it.
pub proof fn lemma_hand_fails(b: Seq<u8>, lo: int, mid: int, hi: int, st: Option<HandScan>)
    requires
        lo <= mid <= hi,
        scan_hand(b, lo, mid, st) is None,
    ensures
        scan_hand(b, lo, hi, st) is None,
    decreases hi - mid,
{
    if mid < hi {
        lemma_hand_fails(b, lo, mid, hi - 1, st);
    }
}

/// Once a byte that is no digit has been read, the bytes write no number.
pub proof fn lemma_digits_fail(b: Seq<u8>, lo: int, mid: int, hi: int)
    requires
        lo <= mid <= hi,
        digits_value(b, lo, mid) is None,
    ensures
        digits_value(b, lo, hi) is None,
    decreases hi - mid,
{
    if mid < hi {
        lemma_digits_fail(b, lo, mid, hi - 1);
    }
}

fn find_last_slash(bytes: &[u8], lo: usize, hi: usize) -> (r: Option<usize>)
    requires
        lo <= hi <= bytes@.len(),
    ensures
        match r {
            Some(cut) => cut == last_slash(bytes@, lo as int, hi as int) && lo <= cut < hi,
            None => last_slash(bytes@, lo as int, hi as int) == lo - 1,
        },
{
    let mut at = hi;
    while at > lo
        invariant
            lo <= at <= hi <= bytes@.len(),
            last_slash(bytes@, lo as int, hi as int) == last_slash(bytes@, lo as int, at as int),
        decreases at,
    {
        if bytes[at - 1] == 47 {
            return Some(at - 1);
        }
        at -= 1;
    }
    None
}

/// Reads the board field in the bytes `lo..hi` into an empty position.
fn read_board(bytes: &[u8], lo: usize, hi: usize) -> (r: Option<Position>)
    requires
        lo <= hi <= bytes@.len(),
    ensures
        ({
            let scan = scan_ranks(bytes@, lo as int, hi as int, empty_scan());
            match r {
                Some(state) => scan is Some && holds_scan(
                    state,
                    (scan->0).next as u8,
                    (scan->0).promoted,
                    scan,
                ),
                None => scan is None,
            }
        }),
{
    let mut state = Position::default();
    let ghost start = empty_scan();
    let ghost mut scan: Option<RankScan> = start;
    assert(state.mailbox@ =~= (start->0).cells);
    let mut next: u8 = 0;
    let mut end = hi;
    loop
        invariant
            lo <= end <= hi <= bytes@.len(),
            scan is Some,
            start == empty_scan(),
            holds_scan(state, next, false, fresh_rank(scan)),
            scan_ranks(bytes@, lo as int, hi as int, start) == scan_ranks(
                bytes@,
                lo as int,
                end as int,
                scan,
            ),
        decreases end,
    {
        let cut = find_last_slash(bytes, lo, end);
        let from = match cut {
            Some(c) => c + 1,
            None => lo,
        };
        let ghost done = scan_rank(bytes@, from as int, end as int, fresh_rank(scan));
        let ghost whole = scan_ranks(bytes@, lo as int, end as int, scan);
        assert(whole == if from == lo {
            done
        } else {
            scan_ranks(bytes@, lo as int, from - 1, done)
        });
        match read_rank(bytes, from, end, &mut state, next, Ghost(scan)) {
            None => {
                proof {
                    lemma_ranks_fail(bytes@, lo as int, from - 1);
                }
                return None;
            },
            Some(n) => {
                next = n;
            },
        }
        match cut {
            None => {
                return Some(state);
            },
            Some(c) => {
                proof {
                    scan = done;
                }
                end = c;
            },
        }
    }
}

/// Once a rank has gone wrong, the ranks before it do not mend the board.
pub proof fn lemma_ranks_fail(b: Seq<u8>, lo: int, hi: int)
    ensures
        scan_ranks(b, lo, hi, None) is None,
    decreases hi - lo,
{
    let cut = last_slash(b, lo, hi);
    lemma_rank_none(b, cut + 1, hi);
    if !(cut < lo || cut >= hi) {
        lemma_ranks_fail(b, lo, cut);
    }
}

/// A rank read after an error is an error.
pub proof fn lemma_rank_none(b: Seq<u8>, lo: int, hi: int)
    ensures
        scan_rank(b, lo, hi, None) is None,
    decreases hi - lo,
{
    if lo < hi {
        lemma_rank_none(b, lo, hi - 1);
    }
}

/// Reads the hand field in the bytes `lo..hi`.
fn read_hands(bytes: &[u8], lo: usize, hi: usize) -> (r: Option<(Hand, Hand)>)
    requires
        lo < hi <= bytes@.len(),
    ensures
        r == hand_field(bytes@, lo as int, hi as int),
{
    if hi == lo + 1 && bytes[lo] == 45 {
        return Some((Hand(0), Hand(0)));
    }
    let mut sente = Hand(0);
    let mut gote = Hand(0);
    let mut any = false;
    let mut count: u32 = 0;
    let ghost start = Some(HandScan { sente: Hand(0), gote: Hand(0), pending: None });
    let mut at = lo;
    while at < hi
        invariant
            lo <= at <= hi <= bytes@.len(),
            !(hi == lo + 1 && bytes@[lo as int] == 45),
            start == Some(HandScan { sente: Hand(0), gote: Hand(0), pending: None }),
            ({
                let scan = scan_hand(bytes@, lo as int, at as int, start);
                &&& scan is Some
                &&& (scan->0).sente == sente
                &&& (scan->0).gote == gote
                &&& any == ((scan->0).pending is Some)
                &&& any ==> 0 <= (scan->0).pending->0 && count == if (scan->0).pending->0 < 1000 {
                    (scan->0).pending->0
                } else {
                    1000
                }
            }),
        decreases hi - at,
    {
        let c = bytes[at];
        if 48 <= c && c <= 57 {
            let grown: u32 = (if any {
                count
            } else {
                0
            }) * 10 + (c - 48) as u32;
            count = if grown < 1000 {
                grown
            } else {
                1000
            };
            any = true;
        } else {
            match piece_of_letter(c) {
                Some((kind, side)) => {
                    let n: u32 = if any {
                        count
                    } else {
                        1
                    };
                    let room: u32 = if kind == 0 {
                        31
                    } else if kind <= 3 {
                        7
                    } else {
                        3
                    };
                    if kind >= 7 || n > room {
                        proof {
                            lemma_hand_fails(bytes@, lo as int, at + 1, hi as int, start);
                        }
                        return None;
                    }
                    if side == 0 {
                        sente.set(Piece(kind), n);
                    } else {
                        gote.set(Piece(kind), n);
                    }
                    any = false;
                },
                None => {
                    proof {
                        lemma_hand_fails(bytes@, lo as int, at + 1, hi as int, start);
                    }
                    return None;
                },
            }
        }
        at += 1;
    }
    if any {
        None
    } else {
        Some((sente, gote))
    }
}

/// Reads the ply counter in the bytes `lo..hi`.
fn read_ply(bytes: &[u8], lo: usize, hi: usize) -> (r: Option<i16>)
    requires
        lo <= hi <= bytes@.len(),
    ensures
        match r {
            Some(n) => ply_field(bytes@, lo as int, hi as int) == Some(n as int),
            None => ply_field(bytes@, lo as int, hi as int) is None,
        },
{
    let negative = lo < hi && bytes[lo] == 45;
    let signed = lo < hi && (bytes[lo] == 45 || bytes[lo] == 43);
    let start: usize = if signed {
        lo + 1
    } else {
        lo
    };
    if start >= hi {
        return None;
    }
    let mut value: i32 = 0;
    let mut at = start;
    while at < hi
        invariant
            lo <= start <= at <= hi <= bytes@.len(),
            start < hi,
            signed == (lo < hi && (bytes@[lo as int] == 45 || bytes@[lo as int] == 43)),
            start == if signed {
                lo + 1
            } else {
                lo as int
            },
            digits_value(bytes@, start as int, at as int) is Some,
            0 <= digits_value(bytes@, start as int, at as int)->0,
            value == if digits_value(bytes@, start as int, at as int)->0 < 100000 {
                digits_value(bytes@, start as int, at as int)->0
            } else {
                100000
            },
        decreases hi - at,
    {
        let c = bytes[at];
        if !(48 <= c && c <= 57) {
            proof {
                lemma_digits_fail(bytes@, start as int, at + 1, hi as int);
            }
            return None;
        }
        let grown: i32 = value * 10 + (c - 48) as i32;
        value = if grown < 100000 {
            grown
        } else {
            100000
        };
        at += 1;
    }
    let result: i32 = if negative {
        -value
    } else {
        value
    };
    if -32768 <= result && result <= 32767 {
        Some(result as i16)
    } else {
        None
    }
}

/// Whether `r` is the position that a string says: a well-formed position with the
/// pieces, hands, side and ply counter of `v`, and no checkers recorded.
pub open spec fn reads_as(r: Sfen, v: SfenView) -> bool {
    &&& r.position.wf()
    &&& r.position.mailbox@ == v.cells
    &&& r.position.hands[0] == v.sente
    &&& r.position.hands[1] == v.gote
    &&& r.position.checkers.0 == 0
    &&& r.position.diag_pin_mask.0 == 0
    &&& r.position.orth_pin_mask.0 == 0
    &&& r.stm == v.stm
    &&& match r.ply {
        Some(n) => v.ply == Some(n as int),
        None => v.ply is None,
    }
}

/// Reads a position string.
pub fn parse_sfen(bytes: &[u8]) -> (r: Option<Sfen>)
    ensures
        match r {
            Some(read) => parse_spec(bytes@) is Some && reads_as(read, parse_spec(bytes@)->0),
            None => parse_spec(bytes@) is None,
        },
{
    let s1 = find_word(bytes, 0);
    let e1 = find_word_end(bytes, s1);
    let s2 = find_word(bytes, e1);
    let e2 = find_word_end(bytes, s2);
    let s3 = find_word(bytes, e2);
    let e3 = find_word_end(bytes, s3);
    let s4 = find_word(bytes, e3);
    let e4 = find_word_end(bytes, s4);
    if s3 >= bytes.len() {
        return None;
    }
    let mut position = match read_board(bytes, s1, e1) {
        Some(p) => p,
        None => {
            return None;
        },
    };
    let stm: u8 = if e2 == s2 + 1 && bytes[s2] == 119 {
        1
    } else {
        0
    };
    let (sente, gote) = match read_hands(bytes, s3, e3) {
        Some(h) => h,
        None => {
            return None;
        },
    };
    position.hands[0] = sente;
    position.hands[1] = gote;
    let ply = if s4 < bytes.len() {
        match read_ply(bytes, s4, e4) {
            Some(n) => Some(n),
            None => {
                return None;
            },
        }
    } else {
        None
    };
    Some(Sfen { position, stm, ply })
}

} // verus!

