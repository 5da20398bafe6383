use crate::board::Board;
use crate::sfen::{
    digits_value, find_word, find_word_end, lemma_digits_fail, parse_spec, skip_spaces, skip_word,
};
use crate::types::action::{list_get, list_len};
use vstd::prelude::*;
use vstd::string::StringSliceAdditionalSpecFns;

verus! {

/// The standard starting position.
pub const STARTPOS: &'static str =
    "lnsgkgsnl/1r5b1/ppppppppp/9/9/9/PPPPPPPPP/1B5R1/LNSGKGSNL b - 1";

/// The receiving end of the text protocol: it owns the board that the commands act on.
pub struct UsiManager {
    pub board: Board,
}

impl Default for UsiManager {
    /// A manager with a new board.
    fn default() -> (r: Self)
        ensures
            r.board.is_fresh(),
    {
        Self { board: Board::default() }
    }
}

/// What a command line asks for, once the manager has done its own part of it.
#[derive(Debug, Clone, Copy, PartialEq, Eq, Structural)]
pub enum Reply {
    /// The line was empty: the session ends.
    Empty,
    /// `quit`: the session ends.
    Quit,
    /// `position` or `makemove`: the board was changed as asked.
    Done,
    /// `position` or `makemove` with arguments that cannot be carried out: the board is
    /// left as it was.
    Refused,
    /// `print`: the caller shows the board.
    Print,
    /// `perft` with a depth: the caller counts and times.
    Perft(u8),
    /// `splitperft` with a depth: the caller counts move by move and times.
    SplitPerft(u8),
    /// `perft` or `splitperft` without a depth that can be read.
    BadDepth,
    /// Any other word.
    Invalid,
}

/// The first word of a line.
pub open spec fn first_word(b: Seq<u8>) -> Seq<u8> {
    b.subrange(word_at(b, 0).0, word_at(b, 0).1)
}

/// The start and end of the word that begins at or after `from`.
pub open spec fn word_at(b: Seq<u8>, from: int) -> (int, int) {
    (skip_spaces(b, from), skip_word(b, skip_spaces(b, from)))
}

/// The bytes of the position string that a `position` command names: the standard
/// starting position for `startpos`; else the three words after the command word, and
/// the fourth unless it is `moves`, with one blank between them. Nothing where words
/// are missing.
pub open spec fn position_sfen(b: Seq<u8>) -> Option<Seq<u8>> {
    let (s1, e1) = word_at(b, 0);
    let (s2, e2) = word_at(b, e1);
    let (s3, e3) = word_at(b, e2);
    let (s4, e4) = word_at(b, e3);
    let (s5, e5) = word_at(b, e4);
    if s2 >= b.len() {
        None
    } else if b.subrange(s2, e2) == STARTPOS_WORD.spec_bytes() {
        Some(STARTPOS.spec_bytes())
    } else if s4 >= b.len() {
        None
    } else {
        let three = b.subrange(s2, e2) + seq![32u8] + b.subrange(s3, e3) + seq![32u8]
            + b.subrange(s4, e4);
        if s5 < b.len() && b.subrange(s5, e5) != MOVES_WORD.spec_bytes() {
            Some(three + seq![32u8] + b.subrange(s5, e5))
        } else {
            Some(three)
        }
    }
}

pub const STARTPOS_WORD: &'static str = "startpos";

pub const MOVES_WORD: &'static str = "moves";

pub const POSITION_WORD: &'static str = "position";

pub const PRINT_WORD: &'static str = "print";

pub const QUIT_WORD: &'static str = "quit";

pub const PERFT_WORD: &'static str = "perft";

pub const SPLITPERFT_WORD: &'static str = "splitperft";

pub const MAKEMOVE_WORD: &'static str = "makemove";

/// The number that the word in the bytes `lo..hi` writes: decimal digits, with or without
/// a `+` before them.
pub open spec fn number_at(b: Seq<u8>, lo: int, hi: int) -> Option<int> {
    let start = if lo < hi && b[lo] == 43 {
        lo + 1
    } else {
        lo
    };
    if start >= hi {
        None
    } else {
        digits_value(b, start, hi)
    }
}

/// Whether the bytes `lo..hi` spell the word `word`.
fn word_is(bytes: &[u8], lo: usize, hi: usize, word: &str) -> (r: bool)
    requires
        lo <= hi <= bytes@.len(),
    ensures
        r == (bytes@.subrange(lo as int, hi as int) == word.spec_bytes()),
{
    let w = word.as_bytes();
    if w.len() != hi - lo {
        return false;
    }
    let mut i: usize = 0;
    while i < w.len()
        invariant
            lo <= hi <= bytes@.len(),
            w@ == word.spec_bytes(),
            w@.len() == hi - lo,
            i <= w@.len(),
            forall|j: int| 0 <= j < i ==> bytes@[lo + j] == w@[j],
        decreases w@.len() - i,
    {
        if bytes[lo + i] != w[i] {
            return false;
        }
        i += 1;
    }
    assert(bytes@.subrange(lo as int, hi as int) =~= w@);
    true
}

/// Appends the bytes `lo..hi` to `out`.
fn append_range(out: &mut Vec<u8>, bytes: &[u8], lo: usize, hi: usize)
    requires
        lo <= hi <= bytes@.len(),
    ensures
        final(out)@ == old(out)@ + bytes@.subrange(lo as int, hi as int),
{
    let mut i = lo;
    while i < hi
        invariant
            lo <= i <= hi <= bytes@.len(),
            out@ == old(out)@ + bytes@.subrange(lo as int, i as int),
        decreases hi - i,
    {
        out.push(bytes[i]);
        i += 1;
    }
}

/// Reads the number in the bytes `lo..hi`; a number of a million or more is read as a
/// million.
fn read_number(bytes: &[u8], lo: usize, hi: usize) -> (r: Option<u32>)
    requires
        lo <= hi <= bytes@.len(),
    ensures
        match r {
            Some(n) => number_at(bytes@, lo as int, hi as int) is Some && n == if number_at(
                bytes@,
                lo as int,
                hi as int,
            )->0 < 1000000 {
                number_at(bytes@, lo as int, hi as int)->0
            } else {
                1000000
            },
            None => number_at(bytes@, lo as int, hi as int) is None,
        },
{
    let start: usize = if lo < hi && bytes[lo] == 43 {
        lo + 1
    } else {
        lo
    };
    if start >= hi {
        return None;
    }
    let mut value: u32 = 0;
    let mut at = start;
    while at < hi
        invariant
            lo <= start <= at <= hi <= bytes@.len(),
            start < hi,
            start == if lo < hi && bytes@[lo as int] == 43 {
                lo + 1
            } else {
                lo as int
            },
            digits_value(bytes@, start as int, at as int) is Some,
            0 <= digits_value(bytes@, start as int, at as int)->0,
            value == if digits_value(bytes@, start as int, at as int)->0 < 1000000 {
                digits_value(bytes@, start as int, at as int)->0
            } else {
                1000000
            },
        decreases hi - at,
    {
        let c = bytes[at];
        if !(48 <= c && c <= 57) {
            proof {
                lemma_digits_fail(bytes@, start as int, at + 1, hi as int);
            }
            return None;
        }
        let grown: u32 = value * 10 + (c - 48) as u32;
        value = if grown < 1000000 {
            grown
        } else {
            1000000
        };
        at += 1;
    }
    Some(value)
}

impl UsiManager {
    /// Whether a `position` command can be carried out: it names a position string, and
    /// the string can be loaded.
    pub open spec fn position_ok(b: Seq<u8>) -> bool {
        position_sfen(b) is Some && Board::loadable(position_sfen(b)->0)
    }

    /// Carries a `position` command out where it can be, and says whether it could: the
    /// board becomes a new board with the position of the command loaded. A command that
    /// cannot be carried out leaves the board as it was.
    pub fn try_position(&mut self, command_msg: &str) -> (ok: bool)
        requires
            old(self).board.wf(),
        ensures
            ok == Self::position_ok(command_msg.spec_bytes()),
            final(self).board.wf(),
            ok ==> exists|seed: Board|
                seed.is_fresh() && final(self).board.loaded_from(
                    seed,
                    parse_spec(position_sfen(command_msg.spec_bytes())->0)->0,
                ),
            !ok ==> final(self).board.same_as(old(self).board),
    {
        let bytes = command_msg.as_bytes();
        let s1 = find_word(bytes, 0);
        let e1 = find_word_end(bytes, s1);
        let s2 = find_word(bytes, e1);
        let e2 = find_word_end(bytes, s2);
        let s3 = find_word(bytes, e2);
        let e3 = find_word_end(bytes, s3);
        let s4 = find_word(bytes, e3);
        let e4 = find_word_end(bytes, s4);
        let s5 = find_word(bytes, e4);
        let e5 = find_word_end(bytes, s5);
        if s2 >= bytes.len() {
            return false;
        }
        let mut fresh = Board::default();
        let ghost seed = fresh;
        let loaded = if word_is(bytes, s2, e2, STARTPOS_WORD) {
            fresh.try_load_bytes(STARTPOS.as_bytes())
        } else {
            if s4 >= bytes.len() {
                return false;
            }
            let mut fen: Vec<u8> = Vec::new();
            append_range(&mut fen, bytes, s2, e2);
            fen.push(32);
            append_range(&mut fen, bytes, s3, e3);
            fen.push(32);
            append_range(&mut fen, bytes, s4, e4);
            if s5 < bytes.len() && !word_is(bytes, s5, e5, MOVES_WORD) {
                fen.push(32);
                append_range(&mut fen, bytes, s5, e5);
            }
            assert(fen@ =~= position_sfen(bytes@)->0);
            fresh.try_load_bytes(fen.as_slice())
        };
        if loaded {
            self.board = fresh;
            assert(seed.is_fresh() && self.board.loaded_from(
                seed,
                parse_spec(position_sfen(command_msg.spec_bytes())->0)->0,
            ));
        }
        loaded
    }

    /// Carries a `position` command out.
    pub fn position(&mut self, command_msg: &str)
        requires
            old(self).board.wf(),
            Self::position_ok(command_msg.spec_bytes()),
        ensures
            final(self).board.wf(),
            exists|seed: Board|
                seed.is_fresh() && final(self).board.loaded_from(
                    seed,
                    parse_spec(position_sfen(command_msg.spec_bytes())->0)->0,
                ),
    {
        let ok = self.try_position(command_msg);
    }

    /// The index that a `makemove` command names: the number in its second word.
    pub open spec fn move_index(b: Seq<u8>) -> Option<int> {
        let (s1, e1) = word_at(b, 0);
        let (s2, e2) = word_at(b, e1);
        if s2 >= b.len() {
            None
        } else {
            number_at(b, s2, e2)
        }
    }

    /// Whether a `makemove` command can be carried out: it names an index into the list
    /// of actions of the side to move, the list has room for all of them, and the action
    /// at the index can be carried out.
    pub open spec fn move_ok(self, b: Seq<u8>) -> bool {
        &&& Self::move_index(b) is Some
        &&& self.board.pseudo_legal_actions().len() <= 600
        &&& Self::move_index(b)->0 < self.board.pseudo_legal_actions().len()
        &&& self.board.can_perform(self.board.pseudo_legal_actions()[Self::move_index(b)->0])
    }

    /// Carries a `makemove` command out where it can be, and says whether it could: the
    /// action at the index that the command names is carried out on the board. A command
    /// that cannot be carried out leaves the board as it was.
    pub fn try_make_move(&mut self, command_msg: &str) -> (ok: bool)
        requires
            old(self).board.wf(),
        ensures
            ok == old(self).move_ok(command_msg.spec_bytes()),
            final(self).board.wf(),
            ok ==> old(self).board.performed(
                old(self).board.pseudo_legal_actions()[Self::move_index(
                    command_msg.spec_bytes(),
                )->0],
                final(self).board,
            ),
            !ok ==> final(self).board.same_as(old(self).board),
    {
        let bytes = command_msg.as_bytes();
        let s1 = find_word(bytes, 0);
        let e1 = find_word_end(bytes, s1);
        let s2 = find_word(bytes, e1);
        let e2 = find_word_end(bytes, s2);
        if s2 >= bytes.len() {
            return false;
        }
        let index = match read_number(bytes, s2, e2) {
            Some(n) => n as usize,
            None => {
                return false;
            },
        };
        let list = match self.board.try_get_actions() {
            Some(l) => l,
            None => {
                return false;
            },
        };
        if index >= list_len(&list) {
            return false;
        }
        let action = list_get(&list, index);
        if !self.board.is_performable(action) {
            return false;
        }
        self.board.perform_action(action);
        true
    }

    /// Carries a `makemove` command out.
    pub fn make_move(&mut self, command_msg: &str)
        requires
            old(self).board.wf(),
            old(self).move_ok(command_msg.spec_bytes()),
        ensures
            final(self).board.wf(),
            old(self).board.performed(
                old(self).board.pseudo_legal_actions()[Self::move_index(
                    command_msg.spec_bytes(),
                )->0],
                final(self).board,
            ),
    {
        let ok = self.try_make_move(command_msg);
    }

    /// The depth that a `perft` or `splitperft` command names: the number in its second
    /// word, where it is at most 255.
    pub open spec fn depth_of(b: Seq<u8>) -> Option<int> {
        let (s1, e1) = word_at(b, 0);
        let (s2, e2) = word_at(b, e1);
        if s2 >= b.len() {
            None
        } else {
            match number_at(b, s2, e2) {
                Some(n) => if n <= 255 {
                    Some(n)
                } else {
                    None
                },
                None => None,
            }
        }
    }

    /// What a command line asks for, going by its first word.
    pub open spec fn reply_to(self, b: Seq<u8>) -> Reply {
        let (s1, e1) = word_at(b, 0);
        let word = b.subrange(s1, e1);
        if s1 >= b.len() {
            Reply::Empty
        } else if word == PERFT_WORD.spec_bytes() {
            match Self::depth_of(b) {
                Some(d) => Reply::Perft(d as u8),
                None => Reply::BadDepth,
            }
        } else if word == SPLITPERFT_WORD.spec_bytes() {
            match Self::depth_of(b) {
                Some(d) => Reply::SplitPerft(d as u8),
                None => Reply::BadDepth,
            }
        } else if word == POSITION_WORD.spec_bytes() {
            if Self::position_ok(b) {
                Reply::Done
            } else {
                Reply::Refused
            }
        } else if word == PRINT_WORD.spec_bytes() {
            Reply::Print
        } else if word == QUIT_WORD.spec_bytes() {
            Reply::Quit
        } else if word == MAKEMOVE_WORD.spec_bytes() {
            if self.move_ok(b) {
                Reply::Done
            } else {
                Reply::Refused
            }
        } else {
            Reply::Invalid
        }
    }

    /// Takes one command line: changes the board where the command asks for it, and says
    /// what is left for the caller to do. Only `position` and `makemove` change the board.
    pub fn interpret_command(&mut self, command_msg: &str) -> (r: Reply)
        requires
            old(self).board.wf(),
        ensures
            r == old(self).reply_to(command_msg.spec_bytes()),
            final(self).board.wf(),
            r != Reply::Done ==> final(self).board.same_as(old(self).board),
            r == Reply::Done && first_word(command_msg.spec_bytes()) == POSITION_WORD.spec_bytes()
                ==> exists|seed: Board|
                seed.is_fresh() && final(self).board.loaded_from(
                    seed,
                    parse_spec(position_sfen(command_msg.spec_bytes())->0)->0,
                ),
            r == Reply::Done && first_word(command_msg.spec_bytes()) != POSITION_WORD.spec_bytes()
                ==> old(self).board.performed(
                old(self).board.pseudo_legal_actions()[Self::move_index(
                    command_msg.spec_bytes(),
                )->0],
                final(self).board,
            ),
    {
        let bytes = command_msg.as_bytes();
        let s1 = find_word(bytes, 0);
        let e1 = find_word_end(bytes, s1);
        if s1 >= bytes.len() {
            return Reply::Empty;
        }
        if word_is(bytes, s1, e1, PERFT_WORD) {
            match Self::read_depth(bytes) {
                Some(d) => Reply::Perft(d),
                None => Reply::BadDepth,
            }
        } else if word_is(bytes, s1, e1, SPLITPERFT_WORD) {
            match Self::read_depth(bytes) {
                Some(d) => Reply::SplitPerft(d),
                None => Reply::BadDepth,
            }
        } else if word_is(bytes, s1, e1, POSITION_WORD) {
            if self.try_position(command_msg) {
                Reply::Done
            } else {
                Reply::Refused
            }
        } else if word_is(bytes, s1, e1, PRINT_WORD) {
            Reply::Print
        } else if word_is(bytes, s1, e1, QUIT_WORD) {
            Reply::Quit
        } else if word_is(bytes, s1, e1, MAKEMOVE_WORD) {
            if self.try_make_move(command_msg) {
                Reply::Done
            } else {
                Reply::Refused
            }
        } else {
            Reply::Invalid
        }
    }

    fn read_depth(bytes: &[u8]) -> (r: Option<u8>)
        ensures
            match r {
                Some(d) => Self::depth_of(bytes@) == Some(d as int),
                None => Self::depth_of(bytes@) is None,
            },
    {
        let s1 = find_word(bytes, 0);
        let e1 = find_word_end(bytes, s1);
        let s2 = find_word(bytes, e1);
        let e2 = find_word_end(bytes, s2);
        if s2 >= bytes.len() {
            return None;
        }
        match read_number(bytes, s2, e2) {
            Some(n) => if n <= 255 {
                Some(n as u8)
            } else {
                None
            },
            None => None,
        }
    }
}

} // verus!
