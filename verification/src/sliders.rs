//! Sliding-piece infrastructure: relevant-blockers masks and attack sets,
//! built by walking rays outward from a square.
//!
//! A relevant-blockers mask holds every square strictly between a square
//! and the board edge along the family's directions; the edge square of a
//! ray is left out because a piece standing there can only terminate the
//! ray, never be jumped over.  An attack set for a given occupancy walks
//! the same rays and stops at (and includes) the first occupied square.

use vstd::prelude::*;
use crate::bits::{bb_has, lemma_bb_empty, lemma_bb_or, lemma_bb_single};
use crate::types::{on_board, BitBoard, SquareCoord};

verus! {

/// Squares strictly between `(r, f)` and the board edge along the ray
/// stepping by `(dr, df)`.
pub open spec fn ray_mask_bb(r: int, f: int, dr: int, df: int, fuel: nat) -> u64
    decreases fuel,
{
    if fuel == 0 {
        0u64
    } else {
        let r2 = r + dr;
        let f2 = f + df;
        if !on_board(r2, f2) {
            0u64
        } else if !on_board(r2 + dr, f2 + df) {
            0u64
        } else {
            (1u64 << ((r2 * 8 + f2) as u64)) | ray_mask_bb(r2, f2, dr, df, (fuel - 1) as nat)
        }
    }
}

/// Squares reachable from `(r, f)` along the ray stepping by `(dr, df)`
/// under the occupancy `occ`: the walk includes each visited square and
/// stops at the first occupied one, which is itself included.
pub open spec fn ray_attacks_bb(r: int, f: int, dr: int, df: int, occ: u64, fuel: nat) -> u64
    decreases fuel,
{
    if fuel == 0 {
        0u64
    } else {
        let r2 = r + dr;
        let f2 = f + df;
        if !on_board(r2, f2) {
            0u64
        } else {
            let m = 1u64 << ((r2 * 8 + f2) as u64);
            if occ & m != 0 {
                m
            } else {
                m | ray_attacks_bb(r2, f2, dr, df, occ, (fuel - 1) as nat)
            }
        }
    }
}

/// The relevant-blockers mask of the rook (orthogonal) family.
pub open spec fn rook_mask_bb(s: int) -> u64 {
    ray_mask_bb(s / 8, s % 8, 1, 0, 8) | ray_mask_bb(s / 8, s % 8, -1, 0, 8) | ray_mask_bb(
        s / 8,
        s % 8,
        0,
        1,
        8,
    ) | ray_mask_bb(s / 8, s % 8, 0, -1, 8)
}

/// The relevant-blockers mask of the bishop (diagonal) family.
pub open spec fn bishop_mask_bb(s: int) -> u64 {
    ray_mask_bb(s / 8, s % 8, 1, 1, 8) | ray_mask_bb(s / 8, s % 8, 1, -1, 8) | ray_mask_bb(
        s / 8,
        s % 8,
        -1,
        1,
        8,
    ) | ray_mask_bb(s / 8, s % 8, -1, -1, 8)
}

/// The attack set of the rook family under the occupancy `occ`.
pub open spec fn rook_attacks_bb(s: int, occ: u64) -> u64 {
    ray_attacks_bb(s / 8, s % 8, 1, 0, occ, 8) | ray_attacks_bb(s / 8, s % 8, -1, 0, occ, 8)
        | ray_attacks_bb(s / 8, s % 8, 0, 1, occ, 8) | ray_attacks_bb(s / 8, s % 8, 0, -1, occ, 8)
}

/// The attack set of the bishop family under the occupancy `occ`.
pub open spec fn bishop_attacks_bb(s: int, occ: u64) -> u64 {
    ray_attacks_bb(s / 8, s % 8, 1, 1, occ, 8) | ray_attacks_bb(s / 8, s % 8, 1, -1, occ, 8)
        | ray_attacks_bb(s / 8, s % 8, -1, 1, occ, 8) | ray_attacks_bb(s / 8, s % 8, -1, -1, occ, 8)
}

/// Every member of a ray mask lies strictly inside the walked direction:
/// strictly past the origin and strictly before the board edge on each
/// moving axis, and aligned with the origin on each still axis.
pub proof fn lemma_ray_mask_bounds(r: int, f: int, dr: int, df: int, fuel: nat, t: int)
    requires
        -1 <= dr <= 1,
        -1 <= df <= 1,
        !(dr == 0 && df == 0),
        bb_has(ray_mask_bb(r, f, dr, df, fuel), t),
    ensures
        0 <= t < 64,
        dr == 1 ==> r < t / 8 < 7,
        dr == -1 ==> 0 < t / 8 < r,
        dr == 0 ==> t / 8 == r,
        df == 1 ==> f < t % 8 < 7,
        df == -1 ==> 0 < t % 8 < f,
        df == 0 ==> t % 8 == f,
    decreases fuel,
{
    lemma_bb_empty(t);
    let r2 = r + dr;
    let f2 = f + df;
    let single = 1u64 << ((r2 * 8 + f2) as u64);
    let rec = ray_mask_bb(r2, f2, dr, df, (fuel - 1) as nat);
    lemma_bb_or(single, rec, t);
    lemma_bb_single((r2 * 8 + f2) as u64, t);
    if bb_has(single, t) {
        assert(t / 8 == r2 && t % 8 == f2) by (nonlinear_arith)
            requires t == r2 * 8 + f2, 0 <= r2, 0 <= f2 < 8;
    } else {
        lemma_ray_mask_bounds(r2, f2, dr, df, (fuel - 1) as nat, t);
    }
}

/// A relevant-blockers mask of the rook family holds only squares aligned
/// with its own square, never the square itself, and never the edge square
/// in the direction of travel.
pub proof fn lemma_rook_mask_properties(s: int)
    requires
        0 <= s < 64,
    ensures
        !bb_has(rook_mask_bb(s), s),
        forall|t: int| #[trigger] bb_has(rook_mask_bb(s), t) ==> 0 <= t < 64 && t != s && (t / 8
            == s / 8 || t % 8 == s % 8),
        forall|t: int| #[trigger] bb_has(rook_mask_bb(s), t) && t / 8 == s / 8 ==> 1 <= t % 8 <= 6
            && t % 8 != s % 8,
        forall|t: int| #[trigger] bb_has(rook_mask_bb(s), t) && t % 8 == s % 8 ==> 1 <= t / 8 <= 6
            && t / 8 != s / 8,
{
    let r = s / 8;
    let f = s % 8;
    let n = ray_mask_bb(r, f, 1, 0, 8);
    let so = ray_mask_bb(r, f, -1, 0, 8);
    let e = ray_mask_bb(r, f, 0, 1, 8);
    let w = ray_mask_bb(r, f, 0, -1, 8);
    assert forall|t: int| #[trigger] bb_has(rook_mask_bb(s), t) implies 0 <= t < 64 && t != s && (t
        / 8 == s / 8 || t % 8 == s % 8) && (t / 8 == s / 8 ==> 1 <= t % 8 <= 6 && t % 8 != s % 8)
        && (t % 8 == s % 8 ==> 1 <= t / 8 <= 6 && t / 8 != s / 8) by {
        lemma_bb_or(n | so | e, w, t);
        lemma_bb_or(n | so, e, t);
        lemma_bb_or(n, so, t);
        if bb_has(n, t) {
            lemma_ray_mask_bounds(r, f, 1, 0, 8, t);
        } else if bb_has(so, t) {
            lemma_ray_mask_bounds(r, f, -1, 0, 8, t);
        } else if bb_has(e, t) {
            lemma_ray_mask_bounds(r, f, 0, 1, 8, t);
        } else {
            lemma_ray_mask_bounds(r, f, 0, -1, 8, t);
        }
    }
    assert(!bb_has(rook_mask_bb(s), s));
}

/// A relevant-blockers mask of the bishop family holds only squares off
/// every board edge, and never its own square.
pub proof fn lemma_bishop_mask_properties(s: int)
    requires
        0 <= s < 64,
    ensures
        !bb_has(bishop_mask_bb(s), s),
        forall|t: int| #[trigger] bb_has(bishop_mask_bb(s), t) ==> 0 <= t < 64 && t != s && 1 <= t
            / 8 <= 6 && 1 <= t % 8 <= 6,
{
    let r = s / 8;
    let f = s % 8;
    let ne = ray_mask_bb(r, f, 1, 1, 8);
    let nw = ray_mask_bb(r, f, 1, -1, 8);
    let se = ray_mask_bb(r, f, -1, 1, 8);
    let sw = ray_mask_bb(r, f, -1, -1, 8);
    assert forall|t: int| #[trigger] bb_has(bishop_mask_bb(s), t) implies 0 <= t < 64 && t != s && 1
        <= t / 8 <= 6 && 1 <= t % 8 <= 6 by {
        lemma_bb_or(ne | nw | se, sw, t);
        lemma_bb_or(ne | nw, se, t);
        lemma_bb_or(ne, nw, t);
        if bb_has(ne, t) {
            lemma_ray_mask_bounds(r, f, 1, 1, 8, t);
        } else if bb_has(nw, t) {
            lemma_ray_mask_bounds(r, f, 1, -1, 8, t);
        } else if bb_has(se, t) {
            lemma_ray_mask_bounds(r, f, -1, 1, 8, t);
        } else {
            lemma_ray_mask_bounds(r, f, -1, -1, 8, t);
        }
    }
    assert(!bb_has(bishop_mask_bb(s), s));
}

/// Every square has at least one relevant rook blocker: a neighbour along
/// its rank, away from the nearer edge.
pub proof fn lemma_rook_mask_nonzero(s: int)
    requires
        0 <= s < 64,
    ensures
        rook_mask_bb(s) != 0,
{
    let r = s / 8;
    let f = s % 8;
    let n = ray_mask_bb(r, f, 1, 0, 8);
    let so = ray_mask_bb(r, f, -1, 0, 8);
    let e = ray_mask_bb(r, f, 0, 1, 8);
    let w = ray_mask_bb(r, f, 0, -1, 8);
    if f <= 5 {
        let t = r * 8 + f + 1;
        lemma_bb_single((t) as u64, t);
        lemma_bb_or(1u64 << (t as u64), ray_mask_bb(r, f + 1, 0, 1, 7), t);
        assert(bb_has(e, t));
        lemma_bb_or(n | so, e, t);
        lemma_bb_or(n | so | e, w, t);
        lemma_bb_empty(t);
    } else {
        let t = r * 8 + f - 1;
        lemma_bb_single((t) as u64, t);
        lemma_bb_or(1u64 << (t as u64), ray_mask_bb(r, f - 1, 0, -1, 7), t);
        assert(bb_has(w, t));
        lemma_bb_or(n | so | e, w, t);
        lemma_bb_empty(t);
    }
}

/// Every square has at least one relevant bishop blocker: a diagonal
/// neighbour pointing away from the nearer edges.
pub proof fn lemma_bishop_mask_nonzero(s: int)
    requires
        0 <= s < 64,
    ensures
        bishop_mask_bb(s) != 0,
{
    let r = s / 8;
    let f = s % 8;
    let ne = ray_mask_bb(r, f, 1, 1, 8);
    let nw = ray_mask_bb(r, f, 1, -1, 8);
    let se = ray_mask_bb(r, f, -1, 1, 8);
    let sw = ray_mask_bb(r, f, -1, -1, 8);
    if r <= 5 && f <= 5 {
        let t = (r + 1) * 8 + f + 1;
        lemma_bb_single((t) as u64, t);
        lemma_bb_or(1u64 << (t as u64), ray_mask_bb(r + 1, f + 1, 1, 1, 7), t);
        assert(bb_has(ne, t));
        lemma_bb_or(ne, nw, t);
        lemma_bb_or(ne | nw, se, t);
        lemma_bb_or(ne | nw | se, sw, t);
        lemma_bb_empty(t);
    } else if r <= 5 && f > 5 {
        let t = (r + 1) * 8 + f - 1;
        lemma_bb_single((t) as u64, t);
        lemma_bb_or(1u64 << (t as u64), ray_mask_bb(r + 1, f - 1, 1, -1, 7), t);
        assert(bb_has(nw, t));
        lemma_bb_or(ne, nw, t);
        lemma_bb_or(ne | nw, se, t);
        lemma_bb_or(ne | nw | se, sw, t);
        lemma_bb_empty(t);
    } else if r > 5 && f <= 5 {
        let t = (r - 1) * 8 + f + 1;
        lemma_bb_single((t) as u64, t);
        lemma_bb_or(1u64 << (t as u64), ray_mask_bb(r - 1, f + 1, -1, 1, 7), t);
        assert(bb_has(se, t));
        lemma_bb_or(ne | nw, se, t);
        lemma_bb_or(ne | nw | se, sw, t);
        lemma_bb_empty(t);
    } else {
        let t = (r - 1) * 8 + f - 1;
        lemma_bb_single((t) as u64, t);
        lemma_bb_or(1u64 << (t as u64), ray_mask_bb(r - 1, f - 1, -1, -1, 7), t);
        assert(bb_has(sw, t));
        lemma_bb_or(ne | nw | se, sw, t);
        lemma_bb_empty(t);
    }
}

/// One ray of a relevant-blockers mask, walked square by square.
fn ray_mask_walk(rank: i8, file: i8, dr: i8, df: i8, fuel: u8) -> (m: u64)
    requires
        0 <= rank < 8,
        0 <= file < 8,
        -1 <= dr <= 1,
        -1 <= df <= 1,
    ensures
        m == ray_mask_bb(rank as int, file as int, dr as int, df as int, fuel as nat),
    decreases fuel,
{
    if fuel == 0 {
        return 0;
    }
    let r2 = rank + dr;
    let f2 = file + df;
    if !(0 <= r2 && r2 < 8 && 0 <= f2 && f2 < 8) {
        return 0;
    }
    let r3 = r2 + dr;
    let f3 = f2 + df;
    if !(0 <= r3 && r3 < 8 && 0 <= f3 && f3 < 8) {
        return 0;
    }
    let sq: u64 = (r2 as u64) * 8 + (f2 as u64);
    (1u64 << sq) | ray_mask_walk(r2, f2, dr, df, fuel - 1)
}

/// One ray of an attack set, walked square by square until the first
/// occupied square or the board edge.
fn ray_attacks_walk(rank: i8, file: i8, dr: i8, df: i8, occ: u64, fuel: u8) -> (m: u64)
    requires
        0 <= rank < 8,
        0 <= file < 8,
        -1 <= dr <= 1,
        -1 <= df <= 1,
    ensures
        m == ray_attacks_bb(rank as int, file as int, dr as int, df as int, occ, fuel as nat),
    decreases fuel,
{
    if fuel == 0 {
        return 0;
    }
    let r2 = rank + dr;
    let f2 = file + df;
    if !(0 <= r2 && r2 < 8 && 0 <= f2 && f2 < 8) {
        return 0;
    }
    let sq: u64 = (r2 as u64) * 8 + (f2 as u64);
    let m = 1u64 << sq;
    if occ & m != 0 {
        m
    } else {
        m | ray_attacks_walk(r2, f2, dr, df, occ, fuel - 1)
    }
}

/// The relevant-blockers mask of the rook family at `square`.
pub fn rook_mask(square: SquareCoord) -> (m: BitBoard)
    requires
        square.wf(),
    ensures
        m == rook_mask_bb(square.spec_index()),
{
    let r = square.rank as i8;
    let f = square.file as i8;
    proof {
        vstd::arithmetic::div_mod::lemma_fundamental_div_mod(square.spec_index(), 8);
        assert(square.spec_index() / 8 == square.rank && square.spec_index() % 8 == square.file);
    }
    ray_mask_walk(r, f, 1, 0, 8) | ray_mask_walk(r, f, -1, 0, 8) | ray_mask_walk(r, f, 0, 1, 8)
        | ray_mask_walk(r, f, 0, -1, 8)
}

/// The relevant-blockers mask of the bishop family at `square`.
pub fn bishop_mask(square: SquareCoord) -> (m: BitBoard)
    requires
        square.wf(),
    ensures
        m == bishop_mask_bb(square.spec_index()),
{
    let r = square.rank as i8;
    let f = square.file as i8;
    proof {
        vstd::arithmetic::div_mod::lemma_fundamental_div_mod(square.spec_index(), 8);
        assert(square.spec_index() / 8 == square.rank && square.spec_index() % 8 == square.file);
    }
    ray_mask_walk(r, f, 1, 1, 8) | ray_mask_walk(r, f, 1, -1, 8) | ray_mask_walk(r, f, -1, 1, 8)
        | ray_mask_walk(r, f, -1, -1, 8)
}

/// The attack set of the rook family at `square` under the occupancy `occ`.
pub fn rook_attacks(square: SquareCoord, occ: BitBoard) -> (m: BitBoard)
    requires
        square.wf(),
    ensures
        m == rook_attacks_bb(square.spec_index(), occ),
{
    let r = square.rank as i8;
    let f = square.file as i8;
    proof {
        vstd::arithmetic::div_mod::lemma_fundamental_div_mod(square.spec_index(), 8);
        assert(square.spec_index() / 8 == square.rank && square.spec_index() % 8 == square.file);
    }
    ray_attacks_walk(r, f, 1, 0, occ, 8) | ray_attacks_walk(r, f, -1, 0, occ, 8)
        | ray_attacks_walk(r, f, 0, 1, occ, 8) | ray_attacks_walk(r, f, 0, -1, occ, 8)
}

/// The attack set of the bishop family at `square` under the occupancy `occ`.
pub fn bishop_attacks(square: SquareCoord, occ: BitBoard) -> (m: BitBoard)
    requires
        square.wf(),
    ensures
        m == bishop_attacks_bb(square.spec_index(), occ),
{
    let r = square.rank as i8;
    let f = square.file as i8;
    proof {
        vstd::arithmetic::div_mod::lemma_fundamental_div_mod(square.spec_index(), 8);
        assert(square.spec_index() / 8 == square.rank && square.spec_index() % 8 == square.file);
    }
    ray_attacks_walk(r, f, 1, 1, occ, 8) | ray_attacks_walk(r, f, 1, -1, occ, 8)
        | ray_attacks_walk(r, f, -1, 1, occ, 8) | ray_attacks_walk(r, f, -1, -1, occ, 8)
}

/// The relevant-blockers mask of the rook family for every square.
pub fn generate_rook_blockers_masks() -> (masks: Vec<BitBoard>)
    ensures
        masks@.len() == 64,
        forall|s: int| 0 <= s < 64 ==> masks@[s] == rook_mask_bb(s),
{
    let mut masks: Vec<BitBoard> = Vec::new();
    let mut i: usize = 0;
    while i < 64
        invariant
            i <= 64,
            masks@.len() == i,
            forall|s: int| 0 <= s < i ==> masks@[s] == rook_mask_bb(s),
        decreases 64 - i,
    {
        masks.push(rook_mask(SquareCoord::from_index(i)));
        i += 1;
    }
    masks
}

/// The relevant-blockers mask of the bishop family for every square.
pub fn generate_bishop_blockers_masks() -> (masks: Vec<BitBoard>)
    ensures
        masks@.len() == 64,
        forall|s: int| 0 <= s < 64 ==> masks@[s] == bishop_mask_bb(s),
{
    let mut masks: Vec<BitBoard> = Vec::new();
    let mut i: usize = 0;
    while i < 64
        invariant
            i <= 64,
            masks@.len() == i,
            forall|s: int| 0 <= s < i ==> masks@[s] == bishop_mask_bb(s),
        decreases 64 - i,
    {
        masks.push(bishop_mask(SquareCoord::from_index(i)));
        i += 1;
    }
    masks
}

} // verus!
