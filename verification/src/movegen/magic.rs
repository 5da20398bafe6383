use crate::bits::{is_set, lemma_set_ext, lemma_set_ops};
use crate::movegen::pext::{
    attack_word, lemma_mask_decides, lemma_pdep_bits, lemma_pdep_pext, lemma_pext_bound,
    lemma_pext_small, lemma_word_bits, mask_of, mask_word, pdep, pdep_spec, pext128, pext_spec,
    scan_slider, slider_reach,
};
use crate::types::bitboard::{Bitboard, FULLMASK};
use crate::types::square::Square;
use vstd::prelude::*;

verus! {

/// A small pseudo-random generator of four 128-bit words.
pub struct Generator {
    pub a: u128,
    pub b: u128,
    pub c: u128,
    pub d: u128,
}

/// `x` with its bits rotated to the left by `k` places.
pub open spec fn rotl_spec(x: u128, k: u8) -> u128 {
    (x << k) | (x >> ((128 - k) as u8))
}

fn rotl(x: u128, k: u8) -> (r: u128)
    requires
        0 < k < 128,
    ensures
        r == rotl_spec(x, k),
{
    (x << k) | (x >> (128 - k))
}

impl Generator {
    /// The generator after one step.
    pub open spec fn stepped(self) -> Generator {
        let e = self.a.wrapping_sub(rotl_spec(self.b, 7));
        let a = self.b ^ rotl_spec(self.c, 13);
        let b = self.c.wrapping_add(rotl_spec(self.d, 37));
        let c = self.d.wrapping_add(e);
        let d = e.wrapping_add(a);
        Generator { a, b, c, d }
    }

    /// The generator after `n` steps.
    pub open spec fn stepped_by(self, n: nat) -> Generator
        decreases n,
    {
        if n == 0 {
            self
        } else {
            self.stepped_by((n - 1) as nat).stepped()
        }
    }

    /// A generator seeded with `seed`: all four words start as the seed, and fifteen steps
    /// mix them.
    pub fn new(seed: u128) -> (r: Self)
        ensures
            r == (Generator { a: seed, b: seed, c: seed, d: seed }).stepped_by(15),
    {
        let mut thing = Self { a: seed, b: seed, c: seed, d: seed };
        let mut i: u8 = 0;
        while i < 15
            invariant
                i <= 15,
                thing == (Generator { a: seed, b: seed, c: seed, d: seed }).stepped_by(i as nat),
            decreases 15 - i,
        {
            let _num = thing.next();
            i += 1;
        }
        thing
    }

    /// Steps the generator and returns the number that the step gives: the last of its
    /// four words.
    pub fn next(&mut self) -> (r: u128)
        ensures
            *final(self) == old(self).stepped(),
            r == old(self).stepped().d,
    {
        let e = self.a.wrapping_sub(rotl(self.b, 7));
        self.a = self.b ^ rotl(self.c, 13);
        self.b = self.c.wrapping_add(rotl(self.d, 37));
        self.c = self.d.wrapping_add(e);
        self.d = e.wrapping_add(self.a);
        self.d
    }

    /// The candidate multiplier that the next two numbers give: a word with few bits,
    /// within the 81 bits of the board.
    pub open spec fn candidate(self) -> u128 {
        (self.stepped().d & self.stepped().stepped().d) & FULLMASK
    }

    /// Draws a candidate multiplier.
    pub fn next_candidate(&mut self) -> (r: u128)
        ensures
            *final(self) == old(self).stepped().stepped(),
            r == old(self).candidate(),
    {
        let first = self.next();
        let second = self.next();
        (first & second) & FULLMASK
    }
}

pub const LANCE_SHIFT: u8 = 7;

pub const ROOK_SHIFT: u8 = 14;

pub const BISHOP_SHIFT: u8 = 12;

/// The number of index bits of the table of a slider: 7 for the lances, 12 for the
/// bishop, 14 for the rook.
pub open spec fn shift_of(kind: int) -> u8 {
    if kind <= 1 {
        LANCE_SHIFT
    } else if kind == 2 {
        BISHOP_SHIFT
    } else {
        ROOK_SHIFT
    }
}

/// The slot of a set of blockers: the blockers times the multiplier, cut to the 81 bits
/// of the board, and of those the top `shift`.
pub open spec fn magic_index(blockers: u128, magic: u128, shift: u8) -> u128 {
    (blockers.wrapping_mul(magic) & FULLMASK) >> ((81 - shift) as u8)
}

/// The top `shift` of the 81 bits of a product are a number below `1 << shift`.
pub proof fn lemma_index_small(product: u128, shift: u8)
    by (bit_vector)
    requires
        shift <= 14,
    ensures
        (product & 0x1_FFFF_FFFF_FFFF_FFFF_FFFFu128) >> ((81 - shift) as u8) < (1u128 << shift),
        (1u128 << shift) <= 16384,
{
}

/// The slot that a multiplier gives the occupancy `occ` for a slider on `sq`.
pub open spec fn slot(kind: int, sq: int, magic: u128, occ: u128) -> int {
    magic_index(occ & mask_word(kind, sq), magic, shift_of(kind)) as int
}

/// Whether a multiplier sends two occupancies with different attacks to one slot.
pub open spec fn magic_collides(kind: int, sq: int, magic: u128) -> bool {
    exists|x: u128, y: u128|
        #![trigger slot(kind, sq, magic, x), slot(kind, sq, magic, y)]
        slot(kind, sq, magic, x) == slot(kind, sq, magic, y) && attack_word(
            kind,
            sq,
            x & mask_word(kind, sq),
        ) != attack_word(kind, sq, y & mask_word(kind, sq))
}

/// Whether `table` is the attack table of a slider on `sq` under a multiplier: it has a
/// slot for every index, for every occupancy the slot of the occupancy holds the squares
/// that the slider attacks, and a slot that no occupancy is sent to holds no square.
pub open spec fn magic_table_ok(kind: int, sq: int, magic: u128, table: Seq<Bitboard>) -> bool {
    &&& table.len() == (1u128 << shift_of(kind))
    &&& forall|j: int|
        0 <= j < table.len() && (forall|occ: u128| slot(kind, sq, magic, occ) != j)
            ==> (#[trigger] table[j]).0 == 0
    &&& forall|occ: u128| 0 <= (#[trigger] slot(kind, sq, magic, occ)) < table.len()
    &&& forall|occ: u128, t: int|
        #![trigger table[slot(kind, sq, magic, occ)].contains(t)]
        #![trigger slider_reach(kind, sq, Bitboard(occ), t)]
        table[slot(kind, sq, magic, occ)].contains(t) == slider_reach(kind, sq, Bitboard(occ), t)
}

fn shift_for(kind: u8) -> (r: u8)
    requires
        kind < 4,
    ensures
        r == shift_of(kind as int),
        r <= 14,
{
    if kind <= 1 {
        LANCE_SHIFT
    } else if kind == 2 {
        BISHOP_SHIFT
    } else {
        ROOK_SHIFT
    }
}

fn index_of(blockers: u128, magic: u128, shift: u8) -> (r: usize)
    requires
        shift <= 14,
    ensures
        r == magic_index(blockers, magic, shift),
        r < (1u128 << shift),
        r < 16384,
{
    let product = blockers.wrapping_mul(magic);
    proof {
        lemma_index_small(product, shift);
    }
    ((product & FULLMASK) >> (81 - shift)) as usize
}

/// A deposit has no bit outside its mask.
pub proof fn lemma_pdep_within(v: u128, m: u128)
    ensures
        pdep_spec(v, m) & m == pdep_spec(v, m),
{
    lemma_pdep_bits(v, m, 128);
    lemma_set_ops(pdep_spec(v, m), m);
    lemma_set_ext(pdep_spec(v, m) & m, pdep_spec(v, m));
}

/// Tries a multiplier for a slider on `sq`: builds the table that it gives, unless it
/// sends two occupancies with different attacks to one slot. Every way of taking squares
/// of the blocker mask is held against the attacks found by scanning the rays.
pub fn try_magic(kind: u8, sq: Square, magic: u128) -> (r: Option<Vec<Bitboard>>)
    requires
        kind < 4,
        sq.valid(),
    ensures
        r is None <==> magic_collides(kind as int, sq@, magic),
        r is Some ==> magic_table_ok(kind as int, sq@, magic, (r->0)@),
{
    let shift = shift_for(kind);
    let mask = mask_of(kind, sq);
    let top: u128 = pext128(mask, mask);
    proof {
        lemma_pext_small(mask.0, mask.0);
        lemma_index_small(0, shift);
    }
    let size: usize = 1usize << shift;
    assert(size == (1u128 << shift)) by (bit_vector)
        requires
            shift <= 14,
            size == 1usize << shift,
    ;
    let mut table: Vec<Bitboard> = Vec::new();
    let mut used: Vec<bool> = Vec::new();
    let mut n: usize = 0;
    while n < size
        invariant
            n <= size,
            table@.len() == n,
            used@.len() == n,
            forall|j: int| 0 <= j < n ==> !(#[trigger] used@[j]),
            forall|j: int| 0 <= j < n ==> (#[trigger] table@[j]).0 == 0,
        decreases size - n,
    {
        table.push(Bitboard(0));
        used.push(false);
        n += 1;
    }
    let ghost mut owner: Seq<u128> = Seq::new(size as nat, |j: int| 0u128);
    let ghost k = kind as int;
    let mut blocker_id: u128 = 0;
    while blocker_id <= top
        invariant
            kind < 4,
            k == kind,
            sq.valid(),
            shift == shift_of(k),
            shift <= 14,
            size == (1u128 << shift),
            mask.0 == mask_word(k, sq@),
            top == pext_spec(mask.0, mask.0),
            top < 0x2_0000_0000_0000_0000_0000u128,
            blocker_id <= top + 1,
            table@.len() == size,
            used@.len() == size,
            owner.len() == size,
            forall|id: u128|
                id < blocker_id ==> 0 <= (#[trigger] slot(k, sq@, magic, pdep_spec(id, mask.0)))
                    < size && used@[slot(k, sq@, magic, pdep_spec(id, mask.0))] && table@[slot(
                    k,
                    sq@,
                    magic,
                    pdep_spec(id, mask.0),
                )].0 == attack_word(k, sq@, pdep_spec(id, mask.0)),
            forall|j: int|
                0 <= j < size && #[trigger] used@[j] ==> slot(k, sq@, magic, owner[j]) == j
                    && table@[j].0 == attack_word(k, sq@, owner[j] & mask.0),
            forall|j: int| 0 <= j < size && !used@[j] ==> (#[trigger] table@[j]).0 == 0,
        decreases top + 1 - blocker_id,
    {
        let blockers = pdep(Bitboard(blocker_id), mask);
        let attacks = scan_slider(kind, sq, blockers);
        let idx = index_of(blockers.0, magic, shift);
        proof {
            lemma_pdep_within(blocker_id, mask.0);
            assert(idx == slot(k, sq@, magic, blockers.0));
        }
        if !used[idx] {
            table[idx] = attacks;
            used[idx] = true;
            proof {
                owner = owner.update(idx as int, blockers.0);
            }
        } else if table[idx].0 != attacks.0 {
            proof {
                let x = owner[idx as int];
                let y = blockers.0;
                assert(slot(k, sq@, magic, x) == slot(k, sq@, magic, y));
                assert(magic_collides(k, sq@, magic));
            }
            return None;
        }
        blocker_id = blocker_id + 1;
    }
    proof {
        assert forall|occ: u128| 0 <= (#[trigger] slot(k, sq@, magic, occ)) < table@.len() by {
            lemma_index_small((occ & mask.0).wrapping_mul(magic), shift);
        }
        assert forall|occ: u128| #[trigger]
            table@[slot(k, sq@, magic, occ)].0 == attack_word(k, sq@, occ & mask.0) by {
            let id = pext_spec(occ, mask.0);
            lemma_pext_bound(occ, mask.0);
            lemma_pdep_pext(occ, mask.0);
            lemma_pdep_within(id, mask.0);
            assert(used@[slot(k, sq@, magic, pdep_spec(id, mask.0))]);
            assert(slot(k, sq@, magic, pdep_spec(id, mask.0)) == slot(k, sq@, magic, occ));
        }
        assert forall|occ: u128, t: int|
            #![trigger table@[slot(k, sq@, magic, occ)].contains(t)]
            #![trigger slider_reach(k, sq@, Bitboard(occ), t)]
            table@[slot(k, sq@, magic, occ)].contains(t) == slider_reach(
                k,
                sq@,
                Bitboard(occ),
                t,
            ) by {
            assert(table@[slot(k, sq@, magic, occ)].0 == attack_word(k, sq@, occ & mask.0));
            lemma_word_bits(|t: int| slider_reach(k, sq@, Bitboard(occ & mask.0), t), 128);
            lemma_set_ops(occ, mask.0);
            lemma_mask_decides(k, sq@, Bitboard(occ & mask.0), Bitboard(occ), t);
        }
        assert forall|j: int|
            0 <= j < table@.len() && (forall|occ: u128| slot(k, sq@, magic, occ) != j) implies (
        #[trigger] table@[j]).0 == 0 by {
            if used@[j] {
                assert(slot(k, sq@, magic, owner[j]) == j);
            }
        }
        if magic_collides(k, sq@, magic) {
            let (x, y) = choose|x: u128, y: u128|
                #![trigger slot(k, sq@, magic, x), slot(k, sq@, magic, y)]
                slot(k, sq@, magic, x) == slot(k, sq@, magic, y) && attack_word(
                    k,
                    sq@,
                    x & mask_word(k, sq@),
                ) != attack_word(k, sq@, y & mask_word(k, sq@));
            assert(table@[slot(k, sq@, magic, x)].0 == attack_word(k, sq@, x & mask.0));
            assert(table@[slot(k, sq@, magic, y)].0 == attack_word(k, sq@, y & mask.0));
        }
    }
    Some(table)
}

/// Looks the attacks of a slider on `sq` up in the table of its multiplier.
pub fn magic_attacks(kind: u8, magic: u128, table: &Vec<Bitboard>, sq: Square, occ: Bitboard) -> (r:
    Bitboard)
    requires
        kind < 4,
        sq.valid(),
        magic_table_ok(kind as int, sq@, magic, table@),
    ensures
        forall|t: int| #[trigger] r.contains(t) == slider_reach(kind as int, sq@, occ, t),
{
    let shift = shift_for(kind);
    let mask = mask_of(kind, sq);
    let blockers = occ.bitand(mask);
    let idx = index_of(blockers.0, magic, shift);
    assert(idx == slot(kind as int, sq@, magic, occ.0));
    let found = table[idx];
    proof {
        assert(Bitboard(occ.0) == occ);
        assert forall|t: int| #[trigger]
            found.contains(t) == slider_reach(kind as int, sq@, occ, t) by {
            assert(table@[slot(kind as int, sq@, magic, occ.0)].contains(t) == slider_reach(
                kind as int,
                sq@,
                Bitboard(occ.0),
                t,
            ));
        }
    }
    found
}

/// The first of the next `tries` candidates of a generator that sends no two occupancies
/// with different attacks to one slot, if there is one.
pub open spec fn first_magic(gen: Generator, kind: int, sq: int, tries: nat) -> Option<u128>
    decreases tries,
{
    if tries == 0 {
        None
    } else if !magic_collides(kind, sq, gen.candidate()) {
        Some(gen.candidate())
    } else {
        first_magic(gen.stepped().stepped(), kind, sq, (tries - 1) as nat)
    }
}

/// The generator after the search for a multiplier: two steps on for every candidate
/// drawn.
pub open spec fn after_search(gen: Generator, kind: int, sq: int, tries: nat) -> Generator
    decreases tries,
{
    if tries == 0 {
        gen
    } else if !magic_collides(kind, sq, gen.candidate()) {
        gen.stepped().stepped()
    } else {
        after_search(gen.stepped().stepped(), kind, sq, (tries - 1) as nat)
    }
}

/// Searches a multiplier for a slider on `sq`: draws up to `tries` candidates and keeps
/// the first that passes `try_magic`, with its table.
pub fn find_magic(gen: &mut Generator, kind: u8, sq: Square, tries: u32) -> (r: Option<
    (u128, Vec<Bitboard>),
>)
    requires
        kind < 4,
        sq.valid(),
    ensures
        match r {
            Some((magic, table)) => first_magic(*old(gen), kind as int, sq@, tries as nat) == Some(
                magic,
            ) && magic_table_ok(kind as int, sq@, magic, table@),
            None => first_magic(*old(gen), kind as int, sq@, tries as nat) is None,
        },
        *final(gen) == after_search(*old(gen), kind as int, sq@, tries as nat),
{
    let mut left = tries;
    while left > 0
        invariant
            kind < 4,
            sq.valid(),
            first_magic(*old(gen), kind as int, sq@, tries as nat) == first_magic(
                *gen,
                kind as int,
                sq@,
                left as nat,
            ),
            after_search(*old(gen), kind as int, sq@, tries as nat) == after_search(
                *gen,
                kind as int,
                sq@,
                left as nat,
            ),
        decreases left,
    {
        let num = gen.next_candidate();
        match try_magic(kind, sq, num) {
            Some(table) => {
                return Some((num, table));
            },
            None => {},
        }
        left -= 1;
    }
    None
}

/// The multipliers of one slider for the squares below `n`, searched square by square
/// with up to `tries` candidates each, or nothing where the search fails for a square.
pub open spec fn magics_found(gen: Generator, kind: int, tries: nat, n: int) -> Option<Seq<u128>>
    decreases n, 0nat,
{
    if n <= 0 {
        Some(Seq::empty())
    } else {
        match magics_found(gen, kind, tries, n - 1) {
            None => None,
            Some(found) => match first_magic(
                gen_after(gen, kind, tries, n - 1),
                kind,
                n - 1,
                tries,
            ) {
                None => None,
                Some(magic) => Some(found.push(magic)),
            },
        }
    }
}

/// The generator after the search for the multipliers of the squares below `n`; the
/// search ends with the first square for which it fails.
pub open spec fn gen_after(gen: Generator, kind: int, tries: nat, n: int) -> Generator
    decreases n, 1nat,
{
    if n <= 0 {
        gen
    } else if magics_found(gen, kind, tries, n - 1) is None {
        gen_after(gen, kind, tries, n - 1)
    } else {
        after_search(gen_after(gen, kind, tries, n - 1), kind, n - 1, tries)
    }
}

/// Once the search has failed for a square, it has failed for good, and the generator
/// stays as it was.
pub proof fn lemma_search_stays_failed(gen: Generator, kind: int, tries: nat, n: int, m: int)
    requires
        0 <= n <= m,
        magics_found(gen, kind, tries, n) is None,
    ensures
        magics_found(gen, kind, tries, m) is None,
        gen_after(gen, kind, tries, m) == gen_after(gen, kind, tries, n),
    decreases m - n,
{
    if n < m {
        lemma_search_stays_failed(gen, kind, tries, n, m - 1);
    }
}

/// The multipliers and the attack tables of one slider, square by square.
pub struct MagicTable {
    pub magics: Vec<u128>,
    pub tables: Vec<Vec<Bitboard>>,
}

impl MagicTable {
    /// There is a multiplier and a table for each of the 81 squares, and each table is
    /// the attack table of the slider on its square under its multiplier.
    pub open spec fn wf(self, kind: int) -> bool {
        &&& self.magics@.len() == 81
        &&& self.tables@.len() == 81
        &&& forall|sq: int|
            0 <= sq < 81 ==> magic_table_ok(
                kind,
                sq,
                #[trigger] self.magics@[sq],
                self.tables@[sq]@,
            )
    }

    /// Looks the attacks of the slider on `sq` up.
    pub fn attacks(&self, kind: u8, sq: Square, occ: Bitboard) -> (r: Bitboard)
        requires
            kind < 4,
            sq.valid(),
            self.wf(kind as int),
        ensures
            forall|t: int| #[trigger] r.contains(t) == slider_reach(kind as int, sq@, occ, t),
    {
        let magic = self.magics[sq.as_usize()];
        magic_attacks(kind, magic, &self.tables[sq.as_usize()], sq, occ)
    }
}

/// Searches the multipliers of one slider for all squares and builds their tables, with
/// up to `tries` candidates for each square. The search ends with the first square for
/// which no candidate passes.
pub fn init_kind(gen: &mut Generator, kind: u8, tries: u32) -> (r: Option<MagicTable>)
    requires
        kind < 4,
    ensures
        match r {
            Some(found) => found.wf(kind as int) && magics_found(
                *old(gen),
                kind as int,
                tries as nat,
                81,
            ) == Some(found.magics@),
            None => magics_found(*old(gen), kind as int, tries as nat, 81) is None,
        },
        *final(gen) == gen_after(*old(gen), kind as int, tries as nat, 81),
{
    let mut magics: Vec<u128> = Vec::new();
    let mut tables: Vec<Vec<Bitboard>> = Vec::new();
    let mut sq: u8 = 0;
    while sq < 81
        invariant
            kind < 4,
            sq <= 81,
            magics@.len() == sq,
            tables@.len() == sq,
            magics_found(*old(gen), kind as int, tries as nat, sq as int) == Some(magics@),
            *gen == gen_after(*old(gen), kind as int, tries as nat, sq as int),
            forall|s: int|
                0 <= s < sq ==> magic_table_ok(
                    kind as int,
                    s,
                    #[trigger] magics@[s],
                    tables@[s]@,
                ),
        decreases 81 - sq,
    {
        match find_magic(gen, kind, Square(sq), tries) {
            Some((magic, table)) => {
                magics.push(magic);
                tables.push(table);
            },
            None => {
                proof {
                    lemma_search_stays_failed(
                        *old(gen),
                        kind as int,
                        tries as nat,
                        sq + 1,
                        81,
                    );
                }
                return None;
            },
        }
        sq += 1;
    }
    Some(MagicTable { magics, tables })
}

/// Searches the multipliers of the two lances and builds their tables: the first
/// player's, then the second player's.
pub fn init_lance(gen: &mut Generator, tries: u32) -> (r: Option<(MagicTable, MagicTable)>)
    ensures
        r is Some ==> (r->0).0.wf(0) && (r->0).1.wf(1),
        r is Some ==> magics_found(*old(gen), 0, tries as nat, 81) == Some((r->0).0.magics@),
        r is Some ==> magics_found(
            gen_after(*old(gen), 0, tries as nat, 81),
            1,
            tries as nat,
            81,
        ) == Some((r->0).1.magics@),
        r is Some <==> magics_found(*old(gen), 0, tries as nat, 81) is Some && magics_found(
            gen_after(*old(gen), 0, tries as nat, 81),
            1,
            tries as nat,
            81,
        ) is Some,
        *final(gen) == if magics_found(*old(gen), 0, tries as nat, 81) is Some {
            gen_after(gen_after(*old(gen), 0, tries as nat, 81), 1, tries as nat, 81)
        } else {
            gen_after(*old(gen), 0, tries as nat, 81)
        },
{
    let sente = match init_kind(gen, 0, tries) {
        Some(t) => t,
        None => {
            return None;
        },
    };
    let gote = match init_kind(gen, 1, tries) {
        Some(t) => t,
        None => {
            return None;
        },
    };
    Some((sente, gote))
}

/// Searches the multipliers of the rook and builds its tables.
pub fn init_rook(gen: &mut Generator, tries: u32) -> (r: Option<MagicTable>)
    ensures
        r is Some ==> (r->0).wf(3),
        r is Some ==> magics_found(*old(gen), 3, tries as nat, 81) == Some((r->0).magics@),
        r is Some <==> magics_found(*old(gen), 3, tries as nat, 81) is Some,
        *final(gen) == gen_after(*old(gen), 3, tries as nat, 81),
{
    init_kind(gen, 3, tries)
}

/// Searches the multipliers of the bishop and builds its tables.
pub fn init_bishop(gen: &mut Generator, tries: u32) -> (r: Option<MagicTable>)
    ensures
        r is Some ==> (r->0).wf(2),
        r is Some ==> magics_found(*old(gen), 2, tries as nat, 81) == Some((r->0).magics@),
        r is Some <==> magics_found(*old(gen), 2, tries as nat, 81) is Some,
        *final(gen) == gen_after(*old(gen), 2, tries as nat, 81),
{
    init_kind(gen, 2, tries)
}

/// The squares that a lance of `stm` on `sq` attacks, from the tables of its multipliers.
pub fn get_lance_attacks_internal(
    tables: &(MagicTable, MagicTable),
    sq: Square,
    occ: Bitboard,
    stm: u8,
) -> (r: Bitboard)
    requires
        tables.0.wf(0),
        tables.1.wf(1),
        sq.valid(),
    ensures
        forall|t: int|
            #[trigger] r.contains(t) == crate::movegen::classical::lance_reach(
                stm as int,
                sq@,
                occ,
                t,
            ),
{
    if stm == 0 {
        tables.0.attacks(0, sq, occ)
    } else {
        tables.1.attacks(1, sq, occ)
    }
}

/// The squares that a rook on `sq` attacks, from the tables of its multipliers.
pub fn get_rook_attacks_internal(table: &MagicTable, sq: Square, occ: Bitboard) -> (r: Bitboard)
    requires
        table.wf(3),
        sq.valid(),
    ensures
        forall|t: int|
            #[trigger] r.contains(t) == crate::movegen::classical::rook_reach(sq@, occ, t),
{
    table.attacks(3, sq, occ)
}

/// The squares that a bishop on `sq` attacks, from the tables of its multipliers.
pub fn get_bishop_attacks_internal(table: &MagicTable, sq: Square, occ: Bitboard) -> (r: Bitboard)
    requires
        table.wf(2),
        sq.valid(),
    ensures
        forall|t: int|
            #[trigger] r.contains(t) == crate::movegen::classical::bishop_reach(sq@, occ, t),
{
    table.attacks(2, sq, occ)
}

/// The three backends hold the same attacks: for every occupancy, the entry that the
/// blocker mask extracts from a table of extracted blockers and the slot that a
/// multiplier gives in its table are both the set of squares that scanning the rays
/// finds.
pub proof fn lemma_tables_agree(
    kind: int,
    sq: int,
    occ: u128,
    extracted: Seq<Bitboard>,
    magic: u128,
    hashed: Seq<Bitboard>,
)
    requires
        crate::movegen::pext::table_ok(kind, sq, extracted),
        magic_table_ok(kind, sq, magic, hashed),
    ensures
        extracted[pext_spec(occ, mask_word(kind, sq)) as int].0 == attack_word(kind, sq, occ),
        hashed[slot(kind, sq, magic, occ)].0 == attack_word(kind, sq, occ),
        extracted[pext_spec(occ, mask_word(kind, sq)) as int] == hashed[slot(kind, sq, magic, occ)],
{
    let one = extracted[pext_spec(occ, mask_word(kind, sq)) as int];
    let other = hashed[slot(kind, sq, magic, occ)];
    lemma_word_bits(|t: int| slider_reach(kind, sq, Bitboard(occ), t), 128);
    assert forall|t: int| 0 <= t < 128 implies is_set(one.0, t) == is_set(
        attack_word(kind, sq, occ),
        t,
    ) by {
        assert(one.contains(t) == slider_reach(kind, sq, Bitboard(occ), t));
    }
    assert forall|t: int| 0 <= t < 128 implies is_set(other.0, t) == is_set(
        attack_word(kind, sq, occ),
        t,
    ) by {
        assert(other.contains(t) == slider_reach(kind, sq, Bitboard(occ), t));
    }
    lemma_set_ext(one.0, attack_word(kind, sq, occ));
    lemma_set_ext(other.0, attack_word(kind, sq, occ));
}

/// The three ways of finding a slider's attacks agree: two sets of squares that both
/// hold exactly the squares that the slider attacks are bit for bit the same, whichever
/// of ray scanning, bit extraction or multiplier hashing found them.
pub proof fn lemma_backends_agree(kind: int, sq: int, occ: Bitboard, one: Bitboard, other: Bitboard)
    requires
        forall|t: int| one.contains(t) == slider_reach(kind, sq, occ, t),
        forall|t: int| other.contains(t) == slider_reach(kind, sq, occ, t),
    ensures
        one == other,
{
    lemma_set_ext(one.0, other.0);
}

} // verus!
