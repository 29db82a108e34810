//! Occupancy-subset enumeration and magic-index compression for the
//! sliding-attack tables.

use vstd::prelude::*;
use vstd::arithmetic::power2::pow2;
use crate::bits::{bb_subset, count_bits, pop_count, subsets_of, lemma_pop_count_le, lemma_subset_count};
use crate::rng::{pcg_draw, SeededRng};
use crate::sliders::{
    bishop_attacks, bishop_attacks_bb, bishop_mask, bishop_mask_bb, lemma_bishop_mask_nonzero,
    lemma_rook_mask_nonzero, rook_attacks, rook_attacks_bb, rook_mask, rook_mask_bb,
};
use crate::types::{BitBoard, SquareCoord};

verus! {

/// Seed of the generator that proposes magic-number candidates.
pub const MAGIC_RNG_SEED: u64 = 42069;

/// How many candidate numbers are tried for one square before the search
/// is reported as exhausted.
pub const MAX_MAGIC_TRIES: u64 = 1000000;

/// A sliding-piece family: the orthogonal mover or the diagonal mover.
#[derive(Clone, Copy, PartialEq, Eq, Structural, Debug)]
pub enum SliderKind {
    RookLike,
    BishopLike,
}

/// The relevant-blockers mask of the family at square `s`.
pub open spec fn slider_mask_bb(kind: SliderKind, s: int) -> u64 {
    match kind {
        SliderKind::RookLike => rook_mask_bb(s),
        SliderKind::BishopLike => bishop_mask_bb(s),
    }
}

/// The attack set of the family at square `s` under occupancy `occ`.
pub open spec fn slider_attacks_bb(kind: SliderKind, s: int, occ: u64) -> u64 {
    match kind {
        SliderKind::RookLike => rook_attacks_bb(s, occ),
        SliderKind::BishopLike => bishop_attacks_bb(s, occ),
    }
}

/// The candidate number the search proposes on its try `t`: three
/// consecutive draws of the fixed-seed stream, intersected to thin the
/// set bits.
pub open spec fn magic_candidate(t: u64) -> u64
    recommends
        t < MAX_MAGIC_TRIES,
{
    pcg_draw(MAGIC_RNG_SEED, (3 * t) as u64) & pcg_draw(MAGIC_RNG_SEED, (3 * t + 1) as u64)
        & pcg_draw(MAGIC_RNG_SEED, (3 * t + 2) as u64)
}

/// A candidate number works for a square of a family when no two
/// occupancy subsets of the square's relevant-blockers mask hash to one
/// table slot while their ray-cast attack sets differ.
pub open spec fn candidate_works(number: u64, kind: SliderKind, s: int) -> bool {
    forall|o1: u64, o2: u64|
        bb_subset(o1, slider_mask_bb(kind, s)) && bb_subset(o2, slider_mask_bb(kind, s))
            && #[trigger] spec_magic_index(
            number,
            (64 - pop_count(slider_mask_bb(kind, s))) as u8,
            o1,
        ) == #[trigger] spec_magic_index(
            number,
            (64 - pop_count(slider_mask_bb(kind, s))) as u8,
            o2,
        ) ==> slider_attacks_bb(kind, s, o1) == slider_attacks_bb(kind, s, o2)
}

/// The search for a magic number ran through its whole candidate budget
/// without finding one.
#[derive(Clone, Copy, PartialEq, Eq, Structural, Debug)]
pub enum MagicError {
    SearchExhausted,
}

/// A multiplicative-hash description for one square: multiplying an
/// occupancy subset of `blocker_mask` by `number` and shifting right by
/// `shift` yields a slot index below `2^(64 - shift)`.
#[derive(Clone, Copy, PartialEq, Eq, Structural, Debug)]
pub struct MagicEntry {
    pub number: u64,
    pub blocker_mask: BitBoard,
    pub shift: u8,
}

/// The table slot an occupancy subset is hashed to.
pub open spec fn spec_magic_index(number: u64, shift: u8, occ: u64) -> int {
    (vstd::wrapping::u64_specs::wrapping_mul(occ, number) >> (shift as u64)) as int
}

/// A hashed slot index never reaches `2^(64 - shift)`.
pub broadcast proof fn lemma_magic_index_bound(number: u64, shift: u8, occ: u64)
    ensures
        shift < 64 ==> 0 <= #[trigger] spec_magic_index(number, shift, occ) < pow2(
            (64 - shift) as nat,
        ),
{
    if shift < 64 {
        let x = vstd::wrapping::u64_specs::wrapping_mul(occ, number);
        vstd::bits::lemma_u64_shr_is_div(x, shift as u64);
        vstd::arithmetic::power2::lemma_pow2_adds(shift as nat, (64 - shift) as nat);
        vstd::arithmetic::power2::lemma2_to64();
        vstd::arithmetic::div_mod::lemma_multiply_divide_lt(
            x as int,
            pow2(shift as nat) as int,
            pow2((64 - shift) as nat) as int,
        );
    }
}

impl MagicEntry {
    /// A magic candidate for the given blockers mask: the shift leaves
    /// exactly one hash slot per subset of the mask.
    pub fn new(blocker_mask: BitBoard, number: u64) -> (e: MagicEntry)
        ensures
            e.blocker_mask == blocker_mask,
            e.number == number,
            e.shift == 64 - pop_count(blocker_mask),
    {
        proof {
            lemma_pop_count_le(blocker_mask);
        }
        let number_of_bits_set = count_bits(blocker_mask);
        MagicEntry { number, blocker_mask, shift: 64 - number_of_bits_set }
    }

    /// The table slot of an occupancy subset.
    pub fn index_of(&self, occ: BitBoard) -> (i: u64)
        requires
            self.shift < 64,
        ensures
            i == spec_magic_index(self.number, self.shift, occ),
            i < pow2((64 - self.shift) as nat),
    {
        proof {
            lemma_magic_index_bound(self.number, self.shift, occ);
        }
        occ.wrapping_mul(self.number) >> (self.shift as u64)
    }
}

/// Hash every enumerated subset to its slot and store its attack set
/// there; fails exactly when two subsets collide on a slot while their
/// attack sets differ, which is what makes a candidate number unusable.
fn build_attack_table(
    entry: &MagicEntry,
    subsets: &Vec<BitBoard>,
    attack_sets: &Vec<BitBoard>,
) -> (r: Option<Vec<BitBoard>>)
    requires
        entry.shift < 64,
        subsets@.len() == pow2((64 - entry.shift) as nat),
        attack_sets@.len() == subsets@.len(),
    ensures
        r is Some ==> {
            &&& r.unwrap()@.len() == pow2((64 - entry.shift) as nat)
            &&& forall|i: int| 0 <= i < subsets@.len() ==> r.unwrap()@[spec_magic_index(
                entry.number,
                entry.shift,
                #[trigger] subsets@[i],
            )] == attack_sets@[i]
        },
        r is None ==> exists|i: int, j: int|
            0 <= i < subsets@.len() && 0 <= j < subsets@.len() && spec_magic_index(
                entry.number,
                entry.shift,
                #[trigger] subsets@[i],
            ) == spec_magic_index(entry.number, entry.shift, #[trigger] subsets@[j])
                && attack_sets@[i] != attack_sets@[j],
{
    broadcast use lemma_magic_index_bound;

    let len = subsets.len();
    let mut table: Vec<BitBoard> = vec![0u64; len];
    let mut used: Vec<bool> = vec![false; len];
    let mut i: usize = 0;
    while i < len
        invariant
            i <= len,
            len == subsets@.len(),
            attack_sets@.len() == len,
            table@.len() == len,
            used@.len() == len,
            entry.shift < 64,
            len == pow2((64 - entry.shift) as nat),
            forall|j: int| 0 <= j < i ==> table@[spec_magic_index(
                entry.number,
                entry.shift,
                #[trigger] subsets@[j],
            )] == attack_sets@[j],
            forall|j: int| 0 <= j < i ==> used@[spec_magic_index(
                entry.number,
                entry.shift,
                #[trigger] subsets@[j],
            )],
            forall|k: int| 0 <= k < len && #[trigger] used@[k] ==> exists|j: int|
                0 <= j < i && spec_magic_index(entry.number, entry.shift, subsets@[j]) == k,
        decreases len - i,
    {
        proof {
            assert forall|j: int| 0 <= j < subsets@.len() implies 0 <= spec_magic_index(
                entry.number,
                entry.shift,
                #[trigger] subsets@[j],
            ) < len as int by {
                lemma_magic_index_bound(entry.number, entry.shift, subsets@[j]);
            }
        }
        let slot = entry.index_of(subsets[i]) as usize;
        if used[slot] {
            if table[slot] != attack_sets[i] {
                proof {
                    let j = choose|j: int|
                        0 <= j < i && spec_magic_index(entry.number, entry.shift, subsets@[j])
                            == slot as int;
                    assert(spec_magic_index(entry.number, entry.shift, subsets@[i as int])
                        == spec_magic_index(entry.number, entry.shift, subsets@[j]));
                    assert(attack_sets@[i as int] != attack_sets@[j]);
                }
                return None;
            }
            i += 1;
        } else {
            table[slot] = attack_sets[i];
            used[slot] = true;
            i += 1;
        }
    }
    Some(table)
}

/// A built magic table for one square of one sliding family: a compact
/// array holding the attack set of every occupancy subset of the square's
/// relevant-blockers mask.
pub struct MagicTable {
    pub kind: SliderKind,
    pub square: SquareCoord,
    pub entry: MagicEntry,
    pub attacks: Vec<BitBoard>,
}

impl MagicTable {
    /// The table is sound: every subset of the relevant-blockers mask is
    /// hashed to a slot that holds exactly its ray-cast attack set.
    pub open spec fn wf(self) -> bool {
        &&& self.square.wf()
        &&& self.entry.blocker_mask == slider_mask_bb(self.kind, self.square.spec_index())
        &&& self.entry.shift == 64 - pop_count(self.entry.blocker_mask)
        &&& self.entry.shift < 64
        &&& self.attacks@.len() == pow2((64 - self.entry.shift) as nat)
        &&& forall|o: u64| bb_subset(o, self.entry.blocker_mask) ==> self.attacks@[spec_magic_index(
            self.entry.number,
            self.entry.shift,
            o,
        )] == slider_attacks_bb(self.kind, self.square.spec_index(), o)
    }

    /// The attack set of the table's square under any occupancy, looked
    /// up in one multiply, one shift and one load.
    pub fn lookup(&self, occ: BitBoard) -> (a: BitBoard)
        requires
            self.wf(),
        ensures
            a == slider_attacks_bb(
                self.kind,
                self.square.spec_index(),
                occ & self.entry.blocker_mask,
            ),
    {
        broadcast use lemma_magic_index_bound;

        let subset = occ & self.entry.blocker_mask;
        let table_len = self.attacks.len();
        proof {
            let m = self.entry.blocker_mask;
            assert((occ & m) & m == (occ & m)) by (bit_vector);
        }
        let slot = self.entry.index_of(subset) as usize;
        assert(slot < table_len);
        assert(bb_subset(subset, self.entry.blocker_mask));
        assert(self.attacks@[spec_magic_index(self.entry.number, self.entry.shift, subset)]
            == slider_attacks_bb(self.kind, self.square.spec_index(), subset));
        self.attacks[slot]
    }
}

/// A sound magic table reproduces the ray-cast attack set on every
/// occupancy subset of the square's relevant-blockers mask.
pub proof fn lemma_magic_lookup_matches_raycast(t: MagicTable, o: u64)
    requires
        t.wf(),
        bb_subset(o, t.entry.blocker_mask),
    ensures
        t.attacks@[spec_magic_index(t.entry.number, t.entry.shift, o)] == slider_attacks_bb(
            t.kind,
            t.square.spec_index(),
            o,
        ),
{
    broadcast use lemma_magic_index_bound;

}

/// Search for a working magic number for one square of one family: draw
/// candidates from a fixed-seed generator, keep the first that hashes
/// every occupancy subset without a damaging collision, and give up after
/// the candidate budget.  The draws are deterministic, so the search
/// fails exactly when none of the budgeted candidates works.
pub fn find_magics(square: SquareCoord, kind: SliderKind) -> (r: Result<MagicTable, MagicError>)
    requires
        square.wf(),
    ensures
        r is Ok ==> {
            &&& r.unwrap().wf()
            &&& r.unwrap().square == square
            &&& r.unwrap().kind == kind
            &&& exists|t: u64|
                t < MAX_MAGIC_TRIES && r.unwrap().entry.number == #[trigger] magic_candidate(t)
                    && candidate_works(magic_candidate(t), kind, square.spec_index())
        },
        r is Err <==> (forall|t: u64|
            t < MAX_MAGIC_TRIES ==> !candidate_works(
                #[trigger] magic_candidate(t),
                kind,
                square.spec_index(),
            )),
        r is Err ==> r == Err::<MagicTable, MagicError>(MagicError::SearchExhausted),
{
    broadcast use lemma_magic_index_bound;

    let mask = match kind {
        SliderKind::RookLike => rook_mask(square),
        SliderKind::BishopLike => bishop_mask(square),
    };
    proof {
        match kind {
            SliderKind::RookLike => lemma_rook_mask_nonzero(square.spec_index()),
            SliderKind::BishopLike => lemma_bishop_mask_nonzero(square.spec_index()),
        }
        lemma_pop_count_le(mask);
    }
    let subsets = get_all_blockers_subsets(mask);
    let mut attack_sets: Vec<BitBoard> = Vec::new();
    let mut i: usize = 0;
    while i < subsets.len()
        invariant
            i <= subsets@.len(),
            attack_sets@.len() == i,
            square.wf(),
            forall|j: int| 0 <= j < subsets@.len() ==> bb_subset(#[trigger] subsets@[j], mask),
            forall|j: int| 0 <= j < i ==> attack_sets@[j] == slider_attacks_bb(
                kind,
                square.spec_index(),
                #[trigger] subsets@[j],
            ),
        decreases subsets@.len() - i,
    {
        let a = match kind {
            SliderKind::RookLike => rook_attacks(square, subsets[i]),
            SliderKind::BishopLike => bishop_attacks(square, subsets[i]),
        };
        attack_sets.push(a);
        i += 1;
    }
    let mut rng = SeededRng::new(MAGIC_RNG_SEED);
    let mut tries: u64 = 0;
    while tries < MAX_MAGIC_TRIES
        invariant
            square.wf(),
            mask == slider_mask_bb(kind, square.spec_index()),
            mask != 0,
            pop_count(mask) <= 64,
            subsets@.len() == pow2(pop_count(mask)),
            attack_sets@.len() == subsets@.len(),
            forall|j: int| 0 <= j < subsets@.len() ==> bb_subset(#[trigger] subsets@[j], mask),
            forall|s: u64| bb_subset(s, mask) ==> subsets@.contains(s),
            forall|j: int| 0 <= j < subsets@.len() ==> attack_sets@[j] == slider_attacks_bb(
                kind,
                square.spec_index(),
                #[trigger] subsets@[j],
            ),
            rng.seed() == MAGIC_RNG_SEED,
            rng.drawn() == 3 * tries,
            tries <= MAX_MAGIC_TRIES,
            forall|t2: u64|
                t2 < tries ==> !candidate_works(
                    #[trigger] magic_candidate(t2),
                    kind,
                    square.spec_index(),
                ),
        decreases MAX_MAGIC_TRIES - tries,
    {
        let number = rng.next_key() & rng.next_key() & rng.next_key();
        let entry = MagicEntry::new(mask, number);
        proof {
            assert(pop_count(mask) >= 1);
            assert(number == magic_candidate(tries));
            assert((64 - pop_count(mask)) as u8 == entry.shift);
        }
        match build_attack_table(&entry, &subsets, &attack_sets) {
            Some(table) => {
                let result = MagicTable { kind, square, entry, attacks: table };
                proof {
                    assert forall|o: u64| bb_subset(o, result.entry.blocker_mask)
                        implies result.attacks@[spec_magic_index(
                        result.entry.number,
                        result.entry.shift,
                        o,
                    )] == slider_attacks_bb(result.kind, result.square.spec_index(), o) by {
                        let j = choose|j: int| 0 <= j < subsets@.len() && subsets@[j] == o;
                    }
                    assert(candidate_works(number, kind, square.spec_index())) by {
                        assert forall|o1: u64, o2: u64|
                            bb_subset(o1, mask) && bb_subset(o2, mask) && #[trigger] spec_magic_index(
                                number,
                                (64 - pop_count(mask)) as u8,
                                o1,
                            ) == #[trigger] spec_magic_index(
                                number,
                                (64 - pop_count(mask)) as u8,
                                o2,
                            ) implies slider_attacks_bb(kind, square.spec_index(), o1)
                            == slider_attacks_bb(kind, square.spec_index(), o2) by {
                            assert(result.attacks@[spec_magic_index(number, entry.shift, o1)]
                                == slider_attacks_bb(kind, square.spec_index(), o1));
                            assert(result.attacks@[spec_magic_index(number, entry.shift, o2)]
                                == slider_attacks_bb(kind, square.spec_index(), o2));
                        }
                    }
                    assert(tries < MAX_MAGIC_TRIES && result.entry.number == magic_candidate(tries)
                        && candidate_works(magic_candidate(tries), kind, square.spec_index()));
                }
                return Ok(result);
            },
            None => {
                proof {
                    let (ci, cj) = choose|ci: int, cj: int|
                        0 <= ci < subsets@.len() && 0 <= cj < subsets@.len() && spec_magic_index(
                            entry.number,
                            entry.shift,
                            subsets@[ci],
                        ) == spec_magic_index(entry.number, entry.shift, subsets@[cj])
                            && attack_sets@[ci] != attack_sets@[cj];
                    assert(!candidate_works(number, kind, square.spec_index())) by {
                        let o1 = subsets@[ci];
                        let o2 = subsets@[cj];
                        assert(bb_subset(o1, mask) && bb_subset(o2, mask));
                        assert(slider_attacks_bb(kind, square.spec_index(), o1)
                            != slider_attacks_bb(kind, square.spec_index(), o2));
                        assert(spec_magic_index(number, (64 - pop_count(mask)) as u8, o1)
                            == spec_magic_index(number, (64 - pop_count(mask)) as u8, o2));
                    }
                    assert forall|t2: u64| t2 < tries + 1 implies !candidate_works(
                        #[trigger] magic_candidate(t2),
                        kind,
                        square.spec_index(),
                    ) by {
                        if t2 == tries {
                            assert(!candidate_works(magic_candidate(t2), kind, square.spec_index()));
                        }
                    }
                }
            },
        }
        tries += 1;
    }
    Err(MagicError::SearchExhausted)
}



/// Carry-rippler step facts: from a proper subset `c` of `m`, the step
/// `(c - m) & m` (two's-complement subtraction) yields the numerically
/// smallest subset of `m` greater than `c`.
proof fn lemma_rippler_step(c: u64, m: u64, n: u64)
    requires
        c & m == c,
        c != m,
        n == vstd::wrapping::u64_specs::wrapping_sub(c, m) & m,
    ensures
        n & m == n,
        c < n <= m,
        forall|d: u64| d & m == d && d > c ==> n <= d,
{
    assert(c < m) by (bit_vector)
        requires c & m == c, c != m;
    let w = vstd::wrapping::u64_specs::wrapping_sub(c, m);
    assert(w == c - m + 0x1_0000_0000_0000_0000);
    assert(n & m == n && c < n && n <= m && (forall|d: u64| d & m == d && d > c ==> n <= d))
        by (bit_vector)
        requires
            c & m == c,
            c < m,
            w == c - m + 0x1_0000_0000_0000_0000,
            n == w & m;
}

/// Every subset of a mask enumerated exactly once, starting at the empty
/// set and ending at the mask itself, in strictly increasing order.
pub fn get_all_blockers_subsets(blocker_mask: BitBoard) -> (subsets: Vec<BitBoard>)
    ensures
        subsets@.len() == pow2(pop_count(blocker_mask)),
        forall|i: int| 0 <= i < subsets@.len() ==> bb_subset(#[trigger] subsets@[i], blocker_mask),
        subsets@[0] == 0,
        subsets@.last() == blocker_mask,
        forall|i: int, j: int| 0 <= i < j < subsets@.len() ==> subsets@[i] < subsets@[j],
        forall|s: u64| bb_subset(s, blocker_mask) ==> subsets@.contains(s),
{
    let mut subsets: Vec<BitBoard> = Vec::new();
    subsets.push(0);
    proof {
        assert(0u64 & blocker_mask == 0u64) by (bit_vector);
    }
    loop
        invariant
            subsets@.len() >= 1,
            subsets@[0] == 0,
            forall|i: int| 0 <= i < subsets@.len() ==> bb_subset(#[trigger] subsets@[i], blocker_mask),
            forall|i: int, j: int| 0 <= i < j < subsets@.len() ==> subsets@[i] < subsets@[j],
            forall|s: u64| bb_subset(s, blocker_mask) && s <= subsets@.last() ==> subsets@.contains(s),
        ensures
            subsets@.len() >= 1,
            subsets@[0] == 0,
            subsets@.last() == blocker_mask,
            forall|i: int| 0 <= i < subsets@.len() ==> bb_subset(#[trigger] subsets@[i], blocker_mask),
            forall|i: int, j: int| 0 <= i < j < subsets@.len() ==> subsets@[i] < subsets@[j],
            forall|s: u64| bb_subset(s, blocker_mask) && s <= subsets@.last() ==> subsets@.contains(s),
        decreases blocker_mask - subsets@.last(),
    {
        let current_subset = subsets[subsets.len() - 1];
        if current_subset == blocker_mask {
            break;
        }
        let next_subset: BitBoard = current_subset.wrapping_sub(blocker_mask) & blocker_mask;
        proof {
            lemma_rippler_step(current_subset, blocker_mask, next_subset);
            assert forall|s: u64| bb_subset(s, blocker_mask) && s <= subsets@.push(next_subset).last()
                implies subsets@.push(next_subset).contains(s) by {
                if s <= subsets@.last() {
                    let k = choose|k: int| 0 <= k < subsets@.len() && subsets@[k] == s;
                    assert(subsets@.push(next_subset)[k] == s);
                } else {
                    assert(subsets@.push(next_subset).last() == s);
                }
            }
        }
        subsets.push(next_subset);
    }
    proof {
        lemma_subset_count(blocker_mask);
        assert(blocker_mask & blocker_mask == blocker_mask) by (bit_vector);
        assert forall|s: u64| bb_subset(s, blocker_mask) implies subsets@.contains(s) by {
            assert(s & blocker_mask == s ==> s <= blocker_mask) by (bit_vector);
        }
        assert(subsets@.no_duplicates());
        assert(subsets@.to_set() =~= subsets_of(blocker_mask)) by {
            assert forall|s: u64| subsets@.to_set().contains(s)
                implies subsets_of(blocker_mask).contains(s) by {
                let k = choose|k: int| 0 <= k < subsets@.len() && subsets@[k] == s;
            }
        }
        subsets@.unique_seq_to_set();
    }
    subsets
}

} // verus!
