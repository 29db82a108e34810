//! The Zobrist key table: one pseudo-random 64-bit key per piece, side and
//! square, per castling-rights combination, per en-passant file, and one
//! for the side to move.  The table is generated once from a seed, so two
//! tables built from the same seed are identical and positions hashed by
//! different instances stay comparable.

use vstd::prelude::*;
use crate::rng::{pcg_draw, SeededRng};
use crate::types::Side;

verus! {

/// An incrementally maintained 64-bit summary of full position state.
pub type ZobristKey = u64;

/// Seed a key table is built from when the caller names none.
pub const DEFAULT_RNG_SEED: u64 = 42069;

/// The Zobrist key table.
pub struct Zobrist {
    pieces_hash: Vec<u64>,
    side_hashes: u64,
    castling_hashes: Vec<u64>,
    enpassant_hashes: Vec<u64>,
}

impl Zobrist {
    /// The table holds its full complement of keys.
    pub closed spec fn wf(self) -> bool {
        &&& self.pieces_hash@.len() == 768
        &&& self.castling_hashes@.len() == 16
        &&& self.enpassant_hashes@.len() == 8
    }

    /// The key of piece kind `piece` of side `side` standing on `square`.
    pub closed spec fn spec_piece(self, side: int, piece: int, square: int) -> u64
        recommends
            0 <= side < 2,
            0 <= piece < 6,
            0 <= square < 64,
    {
        self.pieces_hash@[(piece + side * 6) * 64 + square]
    }

    /// The key of a 4-bit castling-rights combination.
    pub closed spec fn spec_castling(self, castling: int) -> u64
        recommends
            0 <= castling < 16,
    {
        self.castling_hashes@[castling]
    }

    /// The key of an en-passant file.
    pub closed spec fn spec_enpassant(self, file: int) -> u64
        recommends
            0 <= file < 8,
    {
        self.enpassant_hashes@[file]
    }

    /// The key folded in when the side to move is black.
    pub closed spec fn spec_side(self) -> u64 {
        self.side_hashes
    }

    /// Every key of the table equals the draw of the seeded stream at its
    /// fixed position: piece keys first, then the side key, the sixteen
    /// castling keys and the eight en-passant keys.
    pub closed spec fn keys_of_seed(self, seed: u64) -> bool {
        &&& forall|i: int| 0 <= i < 768 ==> self.pieces_hash@[i] == pcg_draw(seed, i as u64)
        &&& self.side_hashes == pcg_draw(seed, 768)
        &&& forall|i: int| 0 <= i < 16 ==> self.castling_hashes@[i] == pcg_draw(
            seed,
            (769 + i) as u64,
        )
        &&& forall|i: int| 0 <= i < 8 ==> self.enpassant_hashes@[i] == pcg_draw(
            seed,
            (785 + i) as u64,
        )
    }

    /// Build the table from the given seed, or from the default seed when
    /// none is given.
    pub fn new(seed: Option<u64>) -> (z: Zobrist)
        ensures
            z.wf(),
            z.keys_of_seed(
                match seed {
                    Some(s) => s,
                    None => DEFAULT_RNG_SEED,
                },
            ),
    {
        let seed = match seed {
            Some(s) => s,
            None => DEFAULT_RNG_SEED,
        };
        let mut rng = SeededRng::new(seed);
        let mut pieces_hash: Vec<u64> = Vec::new();
        let mut i: usize = 0;
        while i < 768
            invariant
                i <= 768,
                pieces_hash@.len() == i,
                rng.seed() == seed,
                rng.drawn() == i,
                forall|j: int| 0 <= j < i ==> pieces_hash@[j] == pcg_draw(seed, j as u64),
            decreases 768 - i,
        {
            pieces_hash.push(rng.next_key());
            i += 1;
        }
        let side_hashes = rng.next_key();
        let mut castling_hashes: Vec<u64> = Vec::new();
        let mut i: usize = 0;
        while i < 16
            invariant
                i <= 16,
                castling_hashes@.len() == i,
                rng.seed() == seed,
                rng.drawn() == 769 + i,
                forall|j: int| 0 <= j < i ==> castling_hashes@[j] == pcg_draw(
                    seed,
                    (769 + j) as u64,
                ),
            decreases 16 - i,
        {
            castling_hashes.push(rng.next_key());
            i += 1;
        }
        let mut enpassant_hashes: Vec<u64> = Vec::new();
        let mut i: usize = 0;
        while i < 8
            invariant
                i <= 8,
                enpassant_hashes@.len() == i,
                rng.seed() == seed,
                rng.drawn() == 785 + i,
                forall|j: int| 0 <= j < i ==> enpassant_hashes@[j] == pcg_draw(
                    seed,
                    (785 + j) as u64,
                ),
            decreases 8 - i,
        {
            enpassant_hashes.push(rng.next_key());
            i += 1;
        }
        Zobrist { pieces_hash, side_hashes, castling_hashes, enpassant_hashes }
    }

    /// Look up the key of a piece of a side on a square.
    pub fn piece(&self, colour: Side, piece_type: usize, square: usize) -> (k: ZobristKey)
        requires
            self.wf(),
            colour < 2,
            piece_type < 6,
            square < 64,
        ensures
            k == self.spec_piece(colour as int, piece_type as int, square as int),
    {
        let piece_index = piece_type + colour * 6;
        self.pieces_hash[piece_index * 64 + square]
    }

    /// Look up the key of a castling-rights combination.
    pub fn castling(&self, castling: u8) -> (k: ZobristKey)
        requires
            self.wf(),
            castling < 16,
        ensures
            k == self.spec_castling(castling as int),
    {
        self.castling_hashes[castling as usize]
    }

    /// Look up the key of an en-passant file.
    pub fn enpassant(&self, file: u8) -> (k: ZobristKey)
        requires
            self.wf(),
            file < 8,
        ensures
            k == self.spec_enpassant(file as int),
    {
        self.enpassant_hashes[file as usize]
    }

    /// The side-to-move key.
    pub fn side(&self) -> (k: ZobristKey)
        requires
            self.wf(),
        ensures
            k == self.spec_side(),
    {
        self.side_hashes
    }
}

/// Two tables built from the same seed hand out the same key on every
/// lookup: positions hashed by independent instances stay comparable.
pub proof fn lemma_zobrist_deterministic(z1: Zobrist, z2: Zobrist, seed: u64)
    requires
        z1.wf(),
        z2.wf(),
        z1.keys_of_seed(seed),
        z2.keys_of_seed(seed),
    ensures
        forall|side: int, piece: int, square: int|
            0 <= side < 2 && 0 <= piece < 6 && 0 <= square < 64 ==> #[trigger] z1.spec_piece(
                side,
                piece,
                square,
            ) == z2.spec_piece(side, piece, square),
        forall|c: int| 0 <= c < 16 ==> #[trigger] z1.spec_castling(c) == z2.spec_castling(c),
        forall|f: int| 0 <= f < 8 ==> #[trigger] z1.spec_enpassant(f) == z2.spec_enpassant(f),
        z1.spec_side() == z2.spec_side(),
{
    assert forall|side: int, piece: int, square: int|
        0 <= side < 2 && 0 <= piece < 6 && 0 <= square < 64 implies #[trigger] z1.spec_piece(
        side,
        piece,
        square,
    ) == z2.spec_piece(side, piece, square) by {
        let i = (piece + side * 6) * 64 + square;
        assert(0 <= i < 768) by (nonlinear_arith)
            requires 0 <= side < 2, 0 <= piece < 6, 0 <= square < 64, i == (piece + side * 6) * 64 + square;
        assert(z1.pieces_hash@[i] == pcg_draw(seed, i as u64));
        assert(z2.pieces_hash@[i] == pcg_draw(seed, i as u64));
    }
}

} // verus!
