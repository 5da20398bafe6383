use crate::bits::{
    is_set, lemma_set_ext, lemma_set_no_bits_above, lemma_set_ops, lemma_set_single,
    lemma_set_subset_le, lemma_set_zero,
};
use crate::movegen::classical::{
    bishop_reach, get_bishop_attacks_internal as scan_bishop,
    get_lance_attacks_internal as scan_lance, get_rook_attacks_internal as scan_rook, rook_reach,
    slide_hits,
};
use crate::movegen::lookups::{blocker_mask, is_blocker_square, on_inner_ray, on_ray};
use crate::types::bitboard::{count_below, lemma_count_bounds, lemma_count_without, Bitboard};
use crate::types::square::{on_board, Square};
use vstd::prelude::*;

verus! {

/// The bits of `v` dealt out to the set bits of `m` below `n`: the lowest set bit of `m`
/// gets bit 0 of `v`, the next one bit 1, and so on.
pub open spec fn pdep_below(v: u128, m: u128, n: int) -> u128
    decreases n,
{
    if n <= 0 {
        0
    } else if is_set(m, n - 1) && is_set(v, count_below(m, n - 1)) {
        pdep_below(v, m, n - 1) | (1u128 << ((n - 1) as u8))
    } else {
        pdep_below(v, m, n - 1)
    }
}

/// Parallel bits deposit: the bits of `v` dealt out to the set bits of `m`.
pub open spec fn pdep_spec(v: u128, m: u128) -> u128 {
    pdep_below(v, m, 128)
}

/// The bits of `a` at the set bits of `m` below `n`, packed together: the bit of `a` at
/// the lowest set bit of `m` becomes bit 0, the one at the next becomes bit 1, and so on.
pub open spec fn pext_below(a: u128, m: u128, n: int) -> u128
    decreases n,
{
    if n <= 0 {
        0
    } else if is_set(m, n - 1) && is_set(a, n - 1) {
        pext_below(a, m, n - 1) | (1u128 << (count_below(m, n - 1) as u8))
    } else {
        pext_below(a, m, n - 1)
    }
}

/// Parallel bits extract: the bits of `a` at the set bits of `m`, packed together.
pub open spec fn pext_spec(a: u128, m: u128) -> u128 {
    pext_below(a, m, 128)
}

/// The word that holds the indices below `n` for which `p` holds.
pub open spec fn word_below(p: spec_fn(int) -> bool, n: int) -> u128
    decreases n,
{
    if n <= 0 {
        0
    } else if p(n - 1) {
        word_below(p, n - 1) | (1u128 << ((n - 1) as u8))
    } else {
        word_below(p, n - 1)
    }
}

/// The bits of a word built from a predicate.
pub proof fn lemma_word_bits(p: spec_fn(int) -> bool, n: int)
    requires
        0 <= n <= 128,
    ensures
        forall|i: int| #[trigger] is_set(word_below(p, n), i) == (0 <= i < n && p(i)),
    decreases n,
{
    lemma_set_zero();
    if n > 0 {
        lemma_word_bits(p, n - 1);
        lemma_set_single((n - 1) as u8);
        lemma_set_ops(word_below(p, n - 1), 1u128 << ((n - 1) as u8));
    }
}

/// Where a word has no bit from `lo` up to `hi`, it counts as many bits below `hi` as
/// below `lo`.
pub proof fn lemma_count_gap(x: u128, lo: int, hi: int)
    requires
        0 <= lo <= hi,
        forall|i: int| lo <= i < hi ==> !is_set(x, i),
    ensures
        count_below(x, hi) == count_below(x, lo),
    decreases hi - lo,
{
    if lo < hi {
        lemma_count_gap(x, lo, hi - 1);
    }
}

/// The count of bits below an index grows with the index, and grows past every set bit.
pub proof fn lemma_count_rises(x: u128, i: int, k: int)
    requires
        0 <= i <= k,
    ensures
        count_below(x, i) <= count_below(x, k),
        i < k && is_set(x, i) ==> count_below(x, i) < count_below(x, k),
    decreases k - i,
{
    if i < k {
        lemma_count_rises(x, i, k - 1);
    }
}

/// Which bits a deposit has: those set bits of the mask whose turn finds a set bit in `v`.
pub proof fn lemma_pdep_bits(v: u128, m: u128, n: int)
    requires
        0 <= n <= 128,
    ensures
        forall|i: int| #[trigger]
            is_set(pdep_below(v, m, n), i) == (0 <= i < n && is_set(m, i) && is_set(
                v,
                count_below(m, i),
            )),
    decreases n,
{
    lemma_set_zero();
    if n > 0 {
        lemma_pdep_bits(v, m, n - 1);
        lemma_set_single((n - 1) as u8);
        lemma_set_ops(pdep_below(v, m, n - 1), 1u128 << ((n - 1) as u8));
    }
}

/// Which bits an extract has: bit `j` is set where the set bit of the mask whose turn is
/// `j` lies below `n` and is set in `a`.
pub proof fn lemma_pext_bits(a: u128, m: u128, n: int)
    requires
        0 <= n <= 128,
    ensures
        forall|j: int| #[trigger]
            is_set(pext_below(a, m, n), j) == exists|i: int|
                0 <= i < n && is_set(m, i) && is_set(a, i) && count_below(m, i) == j,
    decreases n,
{
    lemma_set_zero();
    if n > 0 {
        lemma_pext_bits(a, m, n - 1);
        let turn = count_below(m, n - 1);
        lemma_count_bounds(m, n - 1);
        lemma_set_single(turn as u8);
        lemma_set_ops(pext_below(a, m, n - 1), 1u128 << (turn as u8));
        assert forall|j: int| #[trigger]
            is_set(pext_below(a, m, n), j) == exists|i: int|
                0 <= i < n && is_set(m, i) && is_set(a, i) && count_below(m, i) == j by {
            let before = exists|i: int|
                0 <= i < n - 1 && is_set(m, i) && is_set(a, i) && count_below(m, i) == j;
            let now = exists|i: int|
                0 <= i < n && is_set(m, i) && is_set(a, i) && count_below(m, i) == j;
            if before {
                let i = choose|i: int|
                    0 <= i < n - 1 && is_set(m, i) && is_set(a, i) && count_below(m, i) == j;
                assert(0 <= i < n && is_set(m, i) && is_set(a, i) && count_below(m, i) == j);
            }
            if is_set(m, n - 1) && is_set(a, n - 1) && j == turn {
                assert(0 <= n - 1 < n && is_set(m, n - 1) && is_set(a, n - 1) && count_below(
                    m,
                    n - 1,
                ) == j);
            }
            if now {
                let i = choose|i: int|
                    0 <= i < n && is_set(m, i) && is_set(a, i) && count_below(m, i) == j;
                if i < n - 1 {
                    assert(before);
                }
            }
        }
    }
}

/// Extracting with a mask and depositing again with the same mask gives back the bits
/// under the mask.
pub proof fn lemma_pdep_pext(a: u128, m: u128)
    ensures
        pdep_spec(pext_spec(a, m), m) == a & m,
{
    let packed = pext_spec(a, m);
    lemma_pext_bits(a, m, 128);
    lemma_pdep_bits(packed, m, 128);
    lemma_set_ops(a, m);
    assert forall|i: int| 0 <= i < 128 implies is_set(pdep_spec(packed, m), i) == is_set(a & m, i) by {
        if is_set(m, i) {
            let j = count_below(m, i);
            if is_set(a, i) {
                assert(0 <= i < 128 && is_set(m, i) && is_set(a, i) && count_below(m, i) == j);
            }
            if is_set(packed, j) {
                let k = choose|k: int|
                    0 <= k < 128 && is_set(m, k) && is_set(a, k) && count_below(m, k) == j;
                if k < i {
                    lemma_count_rises(m, k, i);
                }
                if i < k {
                    lemma_count_rises(m, i, k);
                }
            }
        }
    }
    lemma_set_ext(pdep_spec(packed, m), a & m);
}

/// No extract with a mask is larger than the extract of the mask itself, which packs a
/// one for every bit of the mask.
pub proof fn lemma_pext_bound(a: u128, m: u128)
    ensures
        pext_spec(a, m) <= pext_spec(m, m),
{
    lemma_pext_bits(a, m, 128);
    lemma_pext_bits(m, m, 128);
    assert forall|j: int| is_set(pext_spec(a, m), j) implies is_set(pext_spec(m, m), j) by {
        let i = choose|i: int|
            0 <= i < 128 && is_set(m, i) && is_set(a, i) && count_below(m, i) == j;
        assert(0 <= i < 128 && is_set(m, i) && is_set(m, i) && count_below(m, i) == j);
    }
    lemma_set_subset_le(pext_spec(a, m), pext_spec(m, m));
}

/// The extract with a mask that lies within the board is a number of at most 81 bits.
pub proof fn lemma_pext_small(a: u128, m: u128)
    requires
        forall|i: int| is_set(m, i) ==> on_board(i),
    ensures
        pext_spec(a, m) < 0x2_0000_0000_0000_0000_0000u128,
{
    lemma_pext_bits(a, m, 128);
    let packed = pext_below(a, m, 128);
    assert forall|j: int| 81 <= j implies !is_set(packed, j) by {
        if is_set(packed, j) {
            let i = choose|i: int|
                0 <= i < 128 && is_set(m, i) && is_set(a, i) && count_below(m, i) == j;
            assert(on_board(i));
            lemma_count_bounds(m, i);
        }
    }
    lemma_set_no_bits_above(packed);
}

/// Parallel bits extract of a 128-bit word, bit by bit.
pub fn pext128(a: Bitboard, mask: Bitboard) -> (r: u128)
    ensures
        r == pext_spec(a.0, mask.0),
{
    let mut rest = mask;
    let mut out: u128 = 0;
    let mut turn: u8 = 0;
    let ghost mut done: int = 0;
    proof {
        lemma_count_bounds(rest.0, 128);
    }
    while rest.0 != 0
        invariant
            0 <= done <= 128,
            turn == count_below(mask.0, done),
            out == pext_below(a.0, mask.0, done),
            forall|i: int| #[trigger] rest.contains(i) == (mask.contains(i) && done <= i),
            0 <= count_below(rest.0, 128),
        decreases count_below(rest.0, 128),
    {
        let ghost before = rest;
        let at: u8 = rest.pop_lsb();
        proof {
            lemma_count_without(before.0, rest.0, at as int, 128);
            lemma_count_bounds(rest.0, 128);
            assert forall|i: int| done <= i < at implies !is_set(mask.0, i) by {
                assert(!before.contains(i));
            }
            lemma_count_gap(mask.0, done, at as int);
            lemma_pext_gap(a.0, mask.0, done, at as int);
            lemma_count_bounds(mask.0, at as int);
        }
        if (a.0 >> at) & 1 == 1 {
            out = out | (1u128 << turn);
        }
        turn = turn + 1;
        proof {
            done = at + 1;
        }
    }
    proof {
        lemma_set_zero();
        assert forall|i: int| done <= i < 128 implies !is_set(mask.0, i) by {
            assert(!rest.contains(i));
        }
        lemma_pext_gap(a.0, mask.0, done, 128);
    }
    out
}

/// Where the mask has no bit from `lo` up to `hi`, the extract below `hi` is the one
/// below `lo`.
pub proof fn lemma_pext_gap(a: u128, m: u128, lo: int, hi: int)
    requires
        0 <= lo <= hi,
        forall|i: int| lo <= i < hi ==> !is_set(m, i),
    ensures
        pext_below(a, m, hi) == pext_below(a, m, lo),
    decreases hi - lo,
{
    if lo < hi {
        lemma_pext_gap(a, m, lo, hi - 1);
    }
}

/// Where the mask has no bit from `lo` up to `hi`, the deposit below `hi` is the one
/// below `lo`.
pub proof fn lemma_pdep_gap(v: u128, m: u128, lo: int, hi: int)
    requires
        0 <= lo <= hi,
        forall|i: int| lo <= i < hi ==> !is_set(m, i),
    ensures
        pdep_below(v, m, hi) == pdep_below(v, m, lo),
    decreases hi - lo,
{
    if lo < hi {
        lemma_pdep_gap(v, m, lo, hi - 1);
    }
}

/// Parallel bits deposit: deals the low bits of `v` out to the set bits of `mask`,
/// lowest first.
pub fn pdep(v: Bitboard, mask: Bitboard) -> (r: Bitboard)
    ensures
        r.0 == pdep_spec(v.0, mask.0),
{
    let mut rest = mask;
    let mut dst: u128 = 0;
    let mut turn: u8 = 0;
    let ghost mut done: int = 0;
    proof {
        lemma_count_bounds(rest.0, 128);
    }
    while rest.0 != 0
        invariant
            0 <= done <= 128,
            turn == count_below(mask.0, done),
            dst == pdep_below(v.0, mask.0, done),
            forall|i: int| #[trigger] rest.contains(i) == (mask.contains(i) && done <= i),
            0 <= count_below(rest.0, 128),
        decreases count_below(rest.0, 128),
    {
        let ghost before = rest;
        let at: u8 = rest.pop_lsb();
        proof {
            lemma_count_without(before.0, rest.0, at as int, 128);
            lemma_count_bounds(rest.0, 128);
            assert forall|i: int| done <= i < at implies !is_set(mask.0, i) by {
                assert(!before.contains(i));
            }
            lemma_count_gap(mask.0, done, at as int);
            lemma_pdep_gap(v.0, mask.0, done, at as int);
            lemma_count_bounds(mask.0, at as int);
        }
        if (v.0 >> turn) & 1 == 1 {
            dst = dst | (1u128 << at);
        }
        turn = turn + 1;
        proof {
            done = at + 1;
        }
    }
    proof {
        lemma_set_zero();
        assert forall|i: int| done <= i < 128 implies !is_set(mask.0, i) by {
            assert(!rest.contains(i));
        }
        lemma_pdep_gap(v.0, mask.0, done, 128);
    }
    Bitboard(dst)
}

/// Whether a slider on `sq` attacks `t`: for `kind` 0 the first player's lance, for 1 the
/// second player's, for 2 a bishop, for 3 a rook.
pub open spec fn slider_reach(kind: int, sq: int, occ: Bitboard, t: int) -> bool {
    if kind == 0 {
        slide_hits(0, sq, occ, t)
    } else if kind == 1 {
        slide_hits(1, sq, occ, t)
    } else if kind == 2 {
        bishop_reach(sq, occ, t)
    } else {
        rook_reach(sq, occ, t)
    }
}

/// The blocker mask of a slider, as a word.
pub open spec fn mask_word(kind: int, sq: int) -> u128 {
    word_below(|t: int| is_blocker_square(kind, sq, t), 128)
}

/// Along one direction, a slider's attacks depend only on the squares of the inner ray:
/// two occupancies that agree there give the same attacks.
pub proof fn lemma_slide_inner(dir: int, sq: int, occ: Bitboard, other: Bitboard, t: int)
    requires
        forall|b: int| on_inner_ray(dir, sq, b) ==> occ.contains(b) == other.contains(b),
    ensures
        slide_hits(dir, sq, occ, t) == slide_hits(dir, sq, other, t),
{
    if on_ray(dir, sq, t) {
        assert forall|b: int| on_ray(dir, sq, b) && on_ray(dir, b, t) implies occ.contains(b)
            == other.contains(b) by {
            assert(on_inner_ray(dir, sq, b));
        }
    }
}

/// A slider's attacks depend only on the squares of its blocker mask.
pub proof fn lemma_mask_decides(kind: int, sq: int, occ: Bitboard, other: Bitboard, t: int)
    requires
        0 <= kind < 4,
        forall|b: int| is_blocker_square(kind, sq, b) ==> occ.contains(b) == other.contains(b),
    ensures
        slider_reach(kind, sq, occ, t) == slider_reach(kind, sq, other, t),
{
    if kind == 0 {
        lemma_slide_inner(0, sq, occ, other, t);
    } else if kind == 1 {
        lemma_slide_inner(1, sq, occ, other, t);
    } else if kind == 2 {
        lemma_slide_inner(4, sq, occ, other, t);
        lemma_slide_inner(5, sq, occ, other, t);
        lemma_slide_inner(6, sq, occ, other, t);
        lemma_slide_inner(7, sq, occ, other, t);
    } else {
        lemma_slide_inner(0, sq, occ, other, t);
        lemma_slide_inner(1, sq, occ, other, t);
        lemma_slide_inner(2, sq, occ, other, t);
        lemma_slide_inner(3, sq, occ, other, t);
    }
}

/// Whether `table` is the attack table of a slider on `sq`: it has an entry for every
/// index up to the one that the blocker mask extracts from itself, and for every
/// occupancy the entry at the index that the mask extracts from it holds the squares
/// that the slider attacks.
pub open spec fn table_ok(kind: int, sq: int, table: Seq<Bitboard>) -> bool {
    &&& table.len() == pext_spec(mask_word(kind, sq), mask_word(kind, sq)) + 1
    &&& forall|occ: u128| (#[trigger] pext_spec(occ, mask_word(kind, sq))) < table.len()
    &&& forall|occ: u128, t: int|
        #![trigger table[pext_spec(occ, mask_word(kind, sq)) as int].contains(t)]
        #![trigger slider_reach(kind, sq, Bitboard(occ), t)]
        table[pext_spec(occ, mask_word(kind, sq)) as int].contains(t) == slider_reach(
            kind,
            sq,
            Bitboard(occ),
            t,
        )
}

/// Whether `tables` holds the attack table of a slider for each of the 81 squares.
pub open spec fn tables_ok(kind: int, tables: Seq<Vec<Bitboard>>) -> bool {
    &&& tables.len() == 81
    &&& forall|sq: int| 0 <= sq < 81 ==> table_ok(kind, sq, (#[trigger] tables[sq])@)
}

/// The squares that a slider attacks, as a word.
pub open spec fn attack_word(kind: int, sq: int, occ: u128) -> u128 {
    word_below(|t: int| slider_reach(kind, sq, Bitboard(occ), t), 128)
}

/// The attacks of a slider, by scanning its rays.
pub fn scan_slider(kind: u8, sq: Square, occ: Bitboard) -> (r: Bitboard)
    requires
        kind < 4,
        sq.valid(),
    ensures
        forall|t: int| #[trigger] r.contains(t) == slider_reach(kind as int, sq@, occ, t),
        r.0 == attack_word(kind as int, sq@, occ.0),
{
    let r = if kind == 0 {
        scan_lance(sq, occ, 0)
    } else if kind == 1 {
        scan_lance(sq, occ, 1)
    } else if kind == 2 {
        scan_bishop(sq, occ)
    } else {
        scan_rook(sq, occ)
    };
    proof {
        assert(Bitboard(occ.0) == occ);
        lemma_word_bits(|t: int| slider_reach(kind as int, sq@, Bitboard(occ.0), t), 128);
        lemma_set_ext(r.0, attack_word(kind as int, sq@, occ.0));
    }
    r
}

/// The blocker mask of a slider, with the word that it is.
pub fn mask_of(kind: u8, sq: Square) -> (r: Bitboard)
    requires
        kind < 4,
        sq.valid(),
    ensures
        r.0 == mask_word(kind as int, sq@),
        forall|t: int| #[trigger] r.contains(t) == is_blocker_square(kind as int, sq@, t),
        forall|t: int| r.contains(t) ==> on_board(t),
{
    let mask = blocker_mask(kind, sq);
    proof {
        lemma_word_bits(|t: int| is_blocker_square(kind as int, sq@, t), 128);
        lemma_set_ext(mask.0, mask_word(kind as int, sq@));
    }
    mask
}

/// Builds the attack table of one slider on one square: one entry for each way of
/// taking squares of the blocker mask, in the order of the indices that the mask
/// extracts.
pub fn init_square(kind: u8, sq: Square) -> (r: Vec<Bitboard>)
    requires
        kind < 4,
        sq.valid(),
    ensures
        table_ok(kind as int, sq@, r@),
{
    let mask = mask_of(kind, sq);
    let top: u128 = pext128(mask, mask);
    proof {
        lemma_pext_small(mask.0, mask.0);
    }
    let mut table: Vec<Bitboard> = Vec::new();
    let mut blocker_id: u128 = 0;
    while blocker_id <= top
        invariant
            kind < 4,
            sq.valid(),
            mask.0 == mask_word(kind as int, sq@),
            forall|t: int| #[trigger] mask.contains(t) == is_blocker_square(kind as int, sq@, t),
            top == pext_spec(mask.0, mask.0),
            top < 0x2_0000_0000_0000_0000_0000u128,
            blocker_id <= top + 1,
            table@.len() == blocker_id,
            forall|id: int, t: int|
                0 <= id < blocker_id ==> (#[trigger] table@[id].contains(t)) == slider_reach(
                    kind as int,
                    sq@,
                    Bitboard(pdep_spec(id as u128, mask.0)),
                    t,
                ),
        decreases top + 1 - blocker_id,
    {
        let blockers = pdep(Bitboard(blocker_id), mask);
        let attacks = scan_slider(kind, sq, blockers);
        table.push(attacks);
        blocker_id = blocker_id + 1;
    }
    proof {
        assert forall|occ: u128| (#[trigger] pext_spec(occ, mask_word(kind as int, sq@)))
            < table@.len() by {
            lemma_pext_bound(occ, mask.0);
        }
        assert forall|occ: u128, t: int|
            #![trigger table@[pext_spec(occ, mask_word(kind as int, sq@)) as int].contains(t)]
            #![trigger slider_reach(kind as int, sq@, Bitboard(occ), t)]
            table@[pext_spec(occ, mask_word(kind as int, sq@)) as int].contains(t)
                == slider_reach(kind as int, sq@, Bitboard(occ), t) by {
            let id = pext_spec(occ, mask.0);
            lemma_pext_bound(occ, mask.0);
            lemma_pdep_pext(occ, mask.0);
            lemma_set_ops(occ, mask.0);
            assert(table@[id as int].contains(t) == slider_reach(
                kind as int,
                sq@,
                Bitboard(pdep_spec(id, mask.0)),
                t,
            ));
            lemma_mask_decides(kind as int, sq@, Bitboard(occ & mask.0), Bitboard(occ), t);
        }
    }
    table
}

/// Builds the attack tables of one slider for all squares.
pub fn init_kind(kind: u8) -> (r: Vec<Vec<Bitboard>>)
    requires
        kind < 4,
    ensures
        tables_ok(kind as int, r@),
{
    let mut res: Vec<Vec<Bitboard>> = Vec::new();
    let mut sq: u8 = 0;
    while sq < 81
        invariant
            kind < 4,
            sq <= 81,
            res@.len() == sq,
            forall|s: int| 0 <= s < sq ==> table_ok(kind as int, s, (#[trigger] res@[s])@),
        decreases 81 - sq,
    {
        let table = init_square(kind, Square(sq));
        res.push(table);
        sq = sq + 1;
    }
    res
}

/// The attack tables of the two lances: the first player's, then the second player's.
pub fn init_lance() -> (r: (Vec<Vec<Bitboard>>, Vec<Vec<Bitboard>>))
    ensures
        tables_ok(0, r.0@),
        tables_ok(1, r.1@),
{
    (init_kind(0), init_kind(1))
}

/// The attack tables of the rook.
pub fn init_rook() -> (r: Vec<Vec<Bitboard>>)
    ensures
        tables_ok(3, r@),
{
    init_kind(3)
}

/// The attack tables of the bishop.
pub fn init_bishop() -> (r: Vec<Vec<Bitboard>>)
    ensures
        tables_ok(2, r@),
{
    init_kind(2)
}

/// The attack tables of the sliders, indexed by extracted blockers.
pub struct PextTables {
    pub lance_sente: Vec<Vec<Bitboard>>,
    pub lance_gote: Vec<Vec<Bitboard>>,
    pub bishop: Vec<Vec<Bitboard>>,
    pub rook: Vec<Vec<Bitboard>>,
}

impl PextTables {
    /// Every table holds, for every square and every occupancy, the attacks of its slider.
    pub open spec fn wf(self) -> bool {
        &&& tables_ok(0, self.lance_sente@)
        &&& tables_ok(1, self.lance_gote@)
        &&& tables_ok(2, self.bishop@)
        &&& tables_ok(3, self.rook@)
    }

    /// Builds all the tables.
    pub fn new() -> (r: Self)
        ensures
            r.wf(),
    {
        let (lance_sente, lance_gote) = init_lance();
        Self { lance_sente, lance_gote, bishop: init_bishop(), rook: init_rook() }
    }
}

/// Looks the attacks of a slider on `sq` up in the table of that square: the blocker
/// mask extracts the index from the occupancy.
pub fn pext_attacks(kind: u8, table: &Vec<Bitboard>, sq: Square, occ: Bitboard) -> (r: Bitboard)
    requires
        kind < 4,
        sq.valid(),
        table_ok(kind as int, sq@, table@),
    ensures
        forall|t: int| #[trigger] r.contains(t) == slider_reach(kind as int, sq@, occ, t),
{
    let mask = mask_of(kind, sq);
    let idx = pext128(occ, mask);
    assert(pext_spec(occ.0, mask_word(kind as int, sq@)) < table@.len());
    let entries = table.len();
    assert(idx < entries);
    let found = table[idx as usize];
    proof {
        assert(Bitboard(occ.0) == occ);
        assert forall|t: int| #[trigger]
            found.contains(t) == slider_reach(kind as int, sq@, occ, t) by {
            assert(table@[pext_spec(occ.0, mask_word(kind as int, sq@)) as int].contains(t)
                == slider_reach(kind as int, sq@, Bitboard(occ.0), t));
        }
    }
    found
}

/// Looks the attacks of a slider up in the tables of all squares.
fn lookup(kind: u8, tables: &Vec<Vec<Bitboard>>, sq: Square, occ: Bitboard) -> (r: Bitboard)
    requires
        kind < 4,
        sq.valid(),
        tables_ok(kind as int, tables@),
    ensures
        forall|t: int| #[trigger] r.contains(t) == slider_reach(kind as int, sq@, occ, t),
{
    pext_attacks(kind, &tables[sq.as_usize()], sq, occ)
}

/// The squares that a lance of `stm` on `sq` attacks, from the tables.
pub fn get_lance_attacks_internal(tables: &PextTables, sq: Square, occ: Bitboard, stm: u8) -> (r:
    Bitboard)
    requires
        tables.wf(),
        sq.valid(),
    ensures
        forall|t: int|
            #[trigger] r.contains(t) == crate::movegen::classical::lance_reach(
                stm as int,
                sq@,
                occ,
                t,
            ),
{
    if stm == 0 {
        lookup(0, &tables.lance_sente, sq, occ)
    } else {
        lookup(1, &tables.lance_gote, sq, occ)
    }
}

/// The squares that a rook on `sq` attacks, from the tables.
pub fn get_rook_attacks_internal(tables: &PextTables, sq: Square, occ: Bitboard) -> (r: Bitboard)
    requires
        tables.wf(),
        sq.valid(),
    ensures
        forall|t: int| #[trigger] r.contains(t) == rook_reach(sq@, occ, t),
{
    lookup(3, &tables.rook, sq, occ)
}

/// The squares that a bishop on `sq` attacks, from the tables.
pub fn get_bishop_attacks_internal(tables: &PextTables, sq: Square, occ: Bitboard) -> (r: Bitboard)
    requires
        tables.wf(),
        sq.valid(),
    ensures
        forall|t: int| #[trigger] r.contains(t) == bishop_reach(sq@, occ, t),
{
    lookup(2, &tables.bishop, sq, occ)
}

} // verus!
