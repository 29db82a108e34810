//! The mutable board: per-side-per-kind bit-sets, derived per-side
//! occupancy, a dense square-to-piece mirror, the auxiliary game state and
//! the history stack, all kept synchronized under a single mutation
//! protocol, with the running Zobrist fingerprint maintained incrementally
//! on every mutation.

use vstd::prelude::*;
use crate::bits::{bb_has, lemma_bb_disjoint_member, lemma_bb_ext, lemma_bb_flip, lemma_bb_or, lemma_bb_single, lemma_xor_properties};
use crate::history::GameHistory;
use crate::state::GameState;
use crate::types::{BitBoard, CastlingRight, Piece, Side, SquareCoord};
use crate::zobrist::{Zobrist, ZobristKey};

verus! {

/// The flat slot of the bit-set of piece kind `kind` of side `side`.
pub open spec fn piece_slot(side: int, kind: int) -> int {
    side * 6 + kind
}

/// The union (bitwise or) of a side's six piece bit-sets.
pub open spec fn side_occ_of(pieces: Seq<u64>, side: int) -> u64 {
    pieces[side * 6] | pieces[side * 6 + 1] | pieces[side * 6 + 2] | pieces[side * 6 + 3]
        | pieces[side * 6 + 4] | pieces[side * 6 + 5]
}

/// A square is in a side's occupancy union exactly when one of the side's
/// piece bit-sets holds it.
proof fn lemma_side_occ_member(p: Seq<u64>, side: int, t: int)
    requires
        p.len() == 12,
        0 <= side < 2,
    ensures
        bb_has(side_occ_of(p, side), t) == exists|k: int|
            0 <= k < 6 && bb_has(#[trigger] p[piece_slot(side, k)], t),
{
    lemma_bb_or(
        p[side * 6] | p[side * 6 + 1] | p[side * 6 + 2] | p[side * 6 + 3] | p[side * 6 + 4],
        p[side * 6 + 5],
        t,
    );
    lemma_bb_or(p[side * 6] | p[side * 6 + 1] | p[side * 6 + 2] | p[side * 6 + 3], p[side * 6 + 4], t);
    lemma_bb_or(p[side * 6] | p[side * 6 + 1] | p[side * 6 + 2], p[side * 6 + 3], t);
    lemma_bb_or(p[side * 6] | p[side * 6 + 1], p[side * 6 + 2], t);
    lemma_bb_or(p[side * 6], p[side * 6 + 1], t);
    if bb_has(side_occ_of(p, side), t) {
        if bb_has(p[side * 6], t) {
            assert(bb_has(p[piece_slot(side, 0)], t));
        } else if bb_has(p[side * 6 + 1], t) {
            assert(bb_has(p[piece_slot(side, 1)], t));
        } else if bb_has(p[side * 6 + 2], t) {
            assert(bb_has(p[piece_slot(side, 2)], t));
        } else if bb_has(p[side * 6 + 3], t) {
            assert(bb_has(p[piece_slot(side, 3)], t));
        } else if bb_has(p[side * 6 + 4], t) {
            assert(bb_has(p[piece_slot(side, 4)], t));
        } else {
            assert(bb_has(p[piece_slot(side, 5)], t));
        }
    }
}

/// Toggling one square of one piece bit-set, where no other bit-set of
/// that side holds the square, toggles the same square of the side's
/// occupancy union and leaves the other side's union untouched.
proof fn lemma_side_occ_flip(p1: Seq<u64>, p2: Seq<u64>, side: int, kind: int, j: u64)
    requires
        p1.len() == 12,
        0 <= side < 2,
        0 <= kind < 6,
        j < 64,
        p2 == p1.update(piece_slot(side, kind), p1[piece_slot(side, kind)] ^ (1u64 << j)),
        forall|k2: int|
            0 <= k2 < 6 && k2 != kind ==> !bb_has(#[trigger] p1[piece_slot(side, k2)], j as int),
    ensures
        side_occ_of(p2, side) == side_occ_of(p1, side) ^ (1u64 << j),
        side_occ_of(p2, 1 - side) == side_occ_of(p1, 1 - side),
        bb_has(side_occ_of(p1, side), j as int) == bb_has(p1[piece_slot(side, kind)], j as int),
{
    let m = 1u64 << j;
    let slot = piece_slot(side, kind);
    let o1 = side_occ_of(p1, side);
    let o2 = side_occ_of(p2, side);
    lemma_bb_flip(p1[slot], j);
    lemma_bb_flip(o1, j);
    lemma_side_occ_member(p1, side, j as int);
    assert(bb_has(o1, j as int) == bb_has(p1[slot], j as int)) by {
        if bb_has(o1, j as int) {
            let k = choose|k: int| 0 <= k < 6 && bb_has(p1[piece_slot(side, k)], j as int);
            assert(k == kind);
        }
    }
    assert forall|t: int| bb_has(o2, t) == bb_has(o1 ^ m, t) by {
        lemma_side_occ_member(p1, side, t);
        lemma_side_occ_member(p2, side, t);
        crate::bits::lemma_bb_single(j, t);
        if t == j {
            assert(bb_has(o2, t) == bb_has(p2[slot], t)) by {
                if bb_has(o2, t) {
                    let k = choose|k: int| 0 <= k < 6 && bb_has(p2[piece_slot(side, k)], t);
                    assert(k == kind);
                }
            }
        } else {
            assert forall|k: int| 0 <= k < 6 implies bb_has(#[trigger] p2[piece_slot(side, k)], t)
                == bb_has(p1[piece_slot(side, k)], t) by {
                if k == kind {
                    assert(bb_has(p2[slot], t) == bb_has(p1[slot], t));
                }
            }
        }
    }
    lemma_bb_ext(o2, o1 ^ m);
    assert(side_occ_of(p2, 1 - side) == side_occ_of(p1, 1 - side)) by {
        assert(p2[(1 - side) * 6] == p1[(1 - side) * 6]);
        assert(p2[(1 - side) * 6 + 1] == p1[(1 - side) * 6 + 1]);
        assert(p2[(1 - side) * 6 + 2] == p1[(1 - side) * 6 + 2]);
        assert(p2[(1 - side) * 6 + 3] == p1[(1 - side) * 6 + 3]);
        assert(p2[(1 - side) * 6 + 4] == p1[(1 - side) * 6 + 4]);
        assert(p2[(1 - side) * 6 + 5] == p1[(1 - side) * 6 + 5]);
    }
}

/// The four key groups of the fingerprint commute past a new piece key.
proof fn lemma_fp_shuffle(pf: u64, c: u64, e: u64, s: u64, k: u64)
    ensures
        (((pf ^ k) ^ c) ^ e) ^ s == ((((pf ^ c) ^ e) ^ s) ^ k),
{
    lemma_xor_properties(pf, k, c);
    lemma_xor_properties(pf ^ c, k, e);
    lemma_xor_properties((pf ^ c) ^ e, k, s);
}

/// Replacing the en-passant contribution of a fingerprint: the old key
/// cancels and the new one takes its place.
proof fn lemma_fp_replace_e(pf: u64, c: u64, e1: u64, e2: u64, s: u64)
    ensures
        (((((pf ^ c) ^ e1) ^ s) ^ e1) ^ e2) == (((pf ^ c) ^ e2) ^ s),
{
    let a = pf ^ c;
    lemma_xor_properties(a ^ e1, s, e1);
    lemma_xor_properties(a, e1, s);
    lemma_xor_properties(a, e2, s);
}

/// Replacing the castling contribution of a fingerprint: the old key
/// cancels and the new one takes its place.
proof fn lemma_fp_replace_c(pf: u64, c1: u64, c2: u64, e: u64, s: u64)
    ensures
        (((((pf ^ c1) ^ e) ^ s) ^ c1) ^ c2) == (((pf ^ c2) ^ e) ^ s),
{
    lemma_xor_properties((pf ^ c1) ^ e, s, c1);
    lemma_xor_properties(pf ^ c1, e, c1);
    lemma_xor_properties(pf, c1, e);
    lemma_xor_properties(pf, e, c2);
    lemma_xor_properties(pf ^ e, s, c2);
}

/// The exclusive-or of the piece keys of every piece standing on the
/// board, folded over the flat space of (slot, square) pairs below `n`.
pub open spec fn pieces_fp(pieces: Seq<u64>, z: Zobrist, n: int) -> u64
    decreases n,
{
    if n <= 0 {
        0u64
    } else {
        let i = n - 1;
        (if bb_has(pieces[i / 64], i % 64) {
            z.spec_piece((i / 64) / 6, (i / 64) % 6, i % 64)
        } else {
            0u64
        }) ^ pieces_fp(pieces, z, i)
    }
}

/// The board.
pub struct Board {
    /// One bit-set per (side, piece kind), at slot `side * 6 + kind`.
    pub bb_pieces: Vec<BitBoard>,
    /// One derived occupancy bit-set per side.
    pub bb_sides: Vec<BitBoard>,
    /// The dense square-to-piece mirror.
    pub piece_list: Vec<Piece>,
    /// Auxiliary state, including the running fingerprint.
    pub game_state: GameState,
    /// Snapshots of auxiliary state around trial mutations.
    pub history: GameHistory,
    /// The key table that the fingerprint is built from.
    pub zobrist_hashmap: Zobrist,
}

impl Board {
    /// Every container has its fixed size and the scalar fields sit in
    /// their domains.
    pub open spec fn dims_wf(self) -> bool {
        &&& self.bb_pieces@.len() == 12
        &&& self.bb_sides@.len() == 2
        &&& self.piece_list@.len() == 64
        &&& self.game_state.wf()
        &&& self.zobrist_hashmap.wf()
    }

    /// No square is claimed by two piece bit-sets.
    pub open spec fn disjoint_wf(self) -> bool {
        forall|i: int, j: int|
            0 <= i < j < 12 ==> (#[trigger] self.bb_pieces@[i] & #[trigger] self.bb_pieces@[j])
                == 0
    }

    /// The union of a side's six piece bit-sets.
    pub open spec fn spec_side_occ(self, side: int) -> u64 {
        side_occ_of(self.bb_pieces@, side)
    }

    /// Each side's occupancy bit-set equals the union of its piece
    /// bit-sets.
    pub open spec fn sides_wf(self) -> bool {
        &&& self.bb_sides@[0] == self.spec_side_occ(0)
        &&& self.bb_sides@[1] == self.spec_side_occ(1)
    }

    /// The mirror agrees with the bit-sets: a square whose bit is set in
    /// some piece bit-set shows that kind, and a square showing a kind has
    /// its bit set in that kind's bit-set of some side.
    pub open spec fn mirror_wf(self) -> bool {
        &&& forall|side: int, kind: int, sq: int|
            0 <= side < 2 && 0 <= kind < 6 && 0 <= sq < 64 && #[trigger] bb_has(
                self.bb_pieces@[piece_slot(side, kind)],
                sq,
            ) ==> self.piece_list@[sq].spec_index() == kind
        &&& forall|sq: int|
            0 <= sq < 64 && #[trigger] self.piece_list@[sq] != Piece::Empty ==> exists|side: int|
                0 <= side < 2 && bb_has(
                    self.bb_pieces@[piece_slot(side, self.piece_list@[sq].spec_index())],
                    sq,
                )
    }

    /// The fingerprint a from-scratch rebuild would produce: the keys of
    /// every piece on its square, the active castling-rights key, the
    /// en-passant key when a target is set, and the side key when black is
    /// to move.
    pub open spec fn spec_fingerprint(self) -> u64 {
        self.pieces_fingerprint() ^ self.zobrist_hashmap.spec_castling(
            self.game_state.castling as int,
        ) ^ (match self.game_state.enpassant {
            Some(f) => self.zobrist_hashmap.spec_enpassant(f as int),
            None => 0u64,
        }) ^ (if self.game_state.active_color == 1 {
            self.zobrist_hashmap.spec_side()
        } else {
            0u64
        })
    }

    /// The piece-key part of the fingerprint.
    pub open spec fn pieces_fingerprint(self) -> u64 {
        pieces_fp(self.bb_pieces@, self.zobrist_hashmap, 768)
    }

    /// The incrementally maintained fingerprint equals the from-scratch
    /// one.
    pub open spec fn fingerprint_ok(self) -> bool {
        self.game_state.zobrist_key == self.spec_fingerprint()
    }

    /// The full invariant of the mutation protocol.
    pub open spec fn wf(self) -> bool {
        &&& self.dims_wf()
        &&& self.disjoint_wf()
        &&& self.sides_wf()
        &&& self.mirror_wf()
        &&& self.fingerprint_ok()
    }

    /// An empty board: no pieces anywhere, starting auxiliary state, an
    /// empty history, and a key table built from the default seed.  The
    /// caller derives the cached state with `init` before mutating.
    pub fn new() -> (b: Board)
        ensures
            b.dims_wf(),
            forall|i: int| 0 <= i < 12 ==> b.bb_pieces@[i] == 0u64,
            forall|i: int| 0 <= i < 2 ==> b.bb_sides@[i] == 0u64,
            forall|i: int| 0 <= i < 64 ==> b.piece_list@[i] == Piece::Empty,
            b.game_state == crate::state::initial_game_state(),
            b.history.snapshots() == Seq::<GameState>::empty(),
            b.zobrist_hashmap.keys_of_seed(crate::zobrist::DEFAULT_RNG_SEED),
    {
        Board {
            bb_pieces: vec![0u64; 12],
            bb_sides: vec![0u64; 2],
            piece_list: vec![Piece::Empty; 64],
            game_state: GameState::new(),
            history: GameHistory::new(),
            zobrist_hashmap: Zobrist::new(None),
        }
    }

    /// Recompute the fingerprint from scratch: fold in the key of every
    /// piece standing on the board, walking each bit-set lowest square
    /// first, then the castling, en-passant and side-to-move keys.
    pub fn init_zobrist_key(&self) -> (key: ZobristKey)
        requires
            self.dims_wf(),
        ensures
            key == self.spec_fingerprint(),
    {
        let ghost pcs = self.bb_pieces@;
        let ghost z = self.zobrist_hashmap;
        let mut key: u64 = 0;
        let mut slot: usize = 0;
        while slot < 12
            invariant
                slot <= 12,
                self.dims_wf(),
                pcs == self.bb_pieces@,
                z == self.zobrist_hashmap,
                key == pieces_fp(pcs, z, slot as int * 64),
            decreases 12 - slot,
        {
            let side = slot / 6;
            let piece_type = slot % 6;
            let mut w = self.bb_pieces[slot];
            let ghost orig = pcs[slot as int];
            let ghost mut cursor: int = 0;
            while w != 0
                invariant
                    self.dims_wf(),
                    pcs == self.bb_pieces@,
                    z == self.zobrist_hashmap,
                    slot < 12,
                    side == slot / 6,
                    piece_type == slot % 6,
                    orig == pcs[slot as int],
                    0 <= cursor <= 64,
                    forall|j: int| #[trigger] bb_has(w, j) == (bb_has(orig, j) && j >= cursor),
                    key == pieces_fp(pcs, z, slot as int * 64 + cursor),
                decreases w,
            {
                let (sq, rest) = crate::bits::pop_lowest_set_square(w);
                proof {
                    assert forall|j: int| cursor <= j < sq implies !bb_has(orig, j) by {
                        assert(!bb_has(w, j));
                        assert(bb_has(w, j) == (bb_has(orig, j) && j >= cursor));
                    }
                    lemma_fp_segment_clear(pcs, z, slot as int, cursor, sq as int, orig);
                    vstd::arithmetic::div_mod::lemma_fundamental_div_mod_converse(
                        slot as int * 64 + sq,
                        64,
                        slot as int,
                        sq as int,
                    );
                    assert forall|j: int| bb_has(rest, j) == (bb_has(orig, j) && j >= sq + 1) by {
                        assert(bb_has(rest, j) == (bb_has(w, j) && j != sq));
                        assert(bb_has(w, j) == (bb_has(orig, j) && j >= cursor));
                        if 0 <= j < sq {
                            assert(!bb_has(w, j));
                        }
                    }
                }
                let k = self.zobrist_hashmap.piece(side, piece_type, sq as usize);
                proof {
                    assert(bb_has(orig, sq as int));
                    assert(pieces_fp(pcs, z, slot as int * 64 + sq + 1) == k ^ pieces_fp(
                        pcs,
                        z,
                        slot as int * 64 + sq,
                    ));
                    lemma_xor_properties(key, k, 0);
                    cursor = sq as int + 1;
                }
                key = key ^ k;
                w = rest;
            }
            proof {
                assert forall|j: int| cursor <= j < 64 implies !bb_has(orig, j) by {
                    crate::bits::lemma_bb_empty(j);
                }
                lemma_fp_segment_clear(pcs, z, slot as int, cursor, 64, orig);
            }
            slot += 1;
        }
        let ck = self.zobrist_hashmap.castling(self.game_state.castling);
        proof {
            lemma_xor_properties(key, ck, 0);
        }
        key = key ^ ck;
        match self.game_state.enpassant {
            Some(f) => {
                let ek = self.zobrist_hashmap.enpassant(f);
                key = key ^ ek;
            },
            None => {
                proof {
                    lemma_xor_properties(key, 0, 0);
                }
            },
        }
        if self.game_state.active_color == 1 {
            let sk = self.zobrist_hashmap.side();
            key = key ^ sk;
        } else {
            proof {
                lemma_xor_properties(key, 0, 0);
            }
        }
        key
    }

    /// Derive the dense square-to-piece mirror from the piece bit-sets,
    /// walking each bit-set lowest square first.
    pub fn get_piece_list(&self) -> (list: Vec<Piece>)
        requires
            self.dims_wf(),
            self.disjoint_wf(),
        ensures
            list@.len() == 64,
            forall|side: int, kind: int, sq: int|
                0 <= side < 2 && 0 <= kind < 6 && 0 <= sq < 64 && #[trigger] bb_has(
                    self.bb_pieces@[piece_slot(side, kind)],
                    sq,
                ) ==> list@[sq].spec_index() == kind,
            forall|sq: int|
                0 <= sq < 64 && #[trigger] list@[sq] != Piece::Empty ==> exists|side: int|
                    0 <= side < 2 && bb_has(
                        self.bb_pieces@[piece_slot(side, list@[sq].spec_index())],
                        sq,
                    ),
    {
        let ghost pcs = self.bb_pieces@;
        let mut list: Vec<Piece> = vec![Piece::Empty; 64];
        let mut slot: usize = 0;
        while slot < 12
            invariant
                slot <= 12,
                self.dims_wf(),
                self.disjoint_wf(),
                pcs == self.bb_pieces@,
                list@.len() == 64,
                forall|s2: int, sq: int|
                    0 <= s2 < slot && 0 <= sq < 64 && #[trigger] bb_has(pcs[s2], sq)
                        ==> list@[sq].spec_index() == s2 % 6,
                forall|sq: int|
                    0 <= sq < 64 && #[trigger] list@[sq] != Piece::Empty ==> exists|s2: int|
                        0 <= s2 < slot && bb_has(pcs[s2], sq) && list@[sq].spec_index() == s2 % 6,
            decreases 12 - slot,
        {
            let piece = Piece::from_index(slot % 6);
            let mut w = self.bb_pieces[slot];
            let ghost orig = pcs[slot as int];
            while w != 0
                invariant
                    self.dims_wf(),
                    self.disjoint_wf(),
                    pcs == self.bb_pieces@,
                    slot < 12,
                    piece.spec_index() == slot % 6,
                    orig == pcs[slot as int],
                    list@.len() == 64,
                    forall|j: int| #[trigger] bb_has(w, j) ==> bb_has(orig, j),
                    forall|s2: int, sq: int|
                        0 <= s2 < slot && 0 <= sq < 64 && #[trigger] bb_has(pcs[s2], sq)
                            ==> list@[sq].spec_index() == s2 % 6,
                    forall|sq: int|
                        0 <= sq < 64 && bb_has(orig, sq) && !bb_has(w, sq)
                            ==> #[trigger] list@[sq].spec_index() == slot % 6,
                    forall|sq: int|
                        0 <= sq < 64 && #[trigger] list@[sq] != Piece::Empty ==> exists|s2: int|
                            0 <= s2 <= slot && bb_has(pcs[s2], sq) && list@[sq].spec_index() == s2
                                % 6,
                decreases w,
            {
                let (sq, rest) = crate::bits::pop_lowest_set_square(w);
                proof {
                    assert forall|j: int| bb_has(rest, j) implies bb_has(orig, j) by {
                        assert(bb_has(rest, j) == (bb_has(w, j) && j != sq));
                    }
                    assert forall|s2: int| 0 <= s2 < 12 && s2 != slot implies !bb_has(
                        pcs[s2],
                        sq as int,
                    ) by {
                        if s2 < slot {
                            crate::bits::lemma_bb_disjoint_member(
                                pcs[s2],
                                pcs[slot as int],
                                sq as int,
                            );
                        } else {
                            crate::bits::lemma_bb_disjoint_member(
                                pcs[slot as int],
                                pcs[s2],
                                sq as int,
                            );
                        }
                    }
                }
                list[sq as usize] = piece;
                w = rest;
            }
            proof {
                assert forall|j: int| 0 <= j < 64 implies !bb_has(w, j) by {
                    crate::bits::lemma_bb_empty(j);
                }
            }
            slot += 1;
        }
        proof {
            assert forall|side: int, kind: int, sq: int|
                0 <= side < 2 && 0 <= kind < 6 && 0 <= sq < 64 && #[trigger] bb_has(
                    pcs[piece_slot(side, kind)],
                    sq,
                ) implies list@[sq].spec_index() == kind by {
                let s2 = piece_slot(side, kind);
                assert(s2 % 6 == kind) by (nonlinear_arith)
                    requires s2 == side * 6 + kind, 0 <= kind < 6, 0 <= side;
            }
            assert forall|sq: int| 0 <= sq < 64 && #[trigger] list@[sq] != Piece::Empty
                implies exists|side: int|
                0 <= side < 2 && bb_has(pcs[piece_slot(side, list@[sq].spec_index())], sq) by {
                let s2 = choose|s2: int|
                    0 <= s2 < 12 && bb_has(pcs[s2], sq) && list@[sq].spec_index() == s2 % 6;
                let side = s2 / 6;
                vstd::arithmetic::div_mod::lemma_fundamental_div_mod(s2, 6);
                assert(0 <= side < 2) by (nonlinear_arith)
                    requires 0 <= s2 < 12, side == s2 / 6;
                assert(piece_slot(side, s2 % 6) == s2);
                assert(bb_has(pcs[piece_slot(side, list@[sq].spec_index())], sq));
            }
        }
        list
    }

    /// Place a piece on an empty square: set its bit in the piece and
    /// occupancy bit-sets, record it in the mirror, and fold its key into
    /// the fingerprint.
    pub fn put_piece(&mut self, piece: Piece, side: Side, square: SquareCoord)
        requires
            old(self).wf(),
            side < 2,
            piece.spec_index() < 6,
            square.wf(),
            old(self).piece_list@[square.spec_index()] == Piece::Empty,
        ensures
            final(self).wf(),
            final(self).bb_pieces@ == old(self).bb_pieces@.update(
                piece_slot(side as int, piece.spec_index()),
                old(self).bb_pieces@[piece_slot(side as int, piece.spec_index())] | (1u64 << (
                square.spec_index() as u64)),
            ),
            final(self).bb_sides@ == old(self).bb_sides@.update(
                side as int,
                old(self).bb_sides@[side as int] | (1u64 << (square.spec_index() as u64)),
            ),
            final(self).piece_list@ == old(self).piece_list@.update(square.spec_index(), piece),
            final(self).game_state == (GameState {
                zobrist_key: old(self).game_state.zobrist_key ^ old(
                    self,
                ).zobrist_hashmap.spec_piece(
                    side as int,
                    piece.spec_index(),
                    square.spec_index(),
                ),
                ..old(self).game_state
            }),
            final(self).history == old(self).history,
            final(self).zobrist_hashmap == old(self).zobrist_hashmap,
    {
        let ghost pcs1 = self.bb_pieces@;
        let sq = square.to_usize();
        let kind = piece.index();
        let slot = side * 6 + kind;
        let mask: u64 = 1u64 << (sq as u64);
        let key = self.zobrist_hashmap.piece(side, kind, sq);
        proof {
            assert forall|s2: int| 0 <= s2 < 12 implies !bb_has(pcs1[s2], sq as int) by {
                vstd::arithmetic::div_mod::lemma_fundamental_div_mod(s2, 6);
                assert(bb_has(pcs1[piece_slot(s2 / 6, s2 % 6)], sq as int) ==> self.piece_list@[sq
                    as int].spec_index() == s2 % 6);
            }
            lemma_bb_flip(pcs1[slot as int], sq as u64);
        }
        let old_bb = self.bb_pieces[slot];
        self.bb_pieces[slot] = old_bb | mask;
        let old_side = self.bb_sides[side];
        self.bb_sides[side] = old_side | mask;
        self.piece_list[sq] = piece;
        self.game_state.zobrist_key = self.game_state.zobrist_key ^ key;
        proof {
            let pcs2 = self.bb_pieces@;
            let j = sq as u64;
            let m = 1u64 << j;
            assert(pcs2 == pcs1.update(slot as int, pcs1[slot as int] ^ m));
            lemma_side_occ_flip(pcs1, pcs2, side as int, kind as int, j);
            lemma_bb_flip(old_side, j);
            assert(self.bb_sides@[side as int] == side_occ_of(pcs2, side as int));
            assert(self.bb_sides@[1 - side as int] == side_occ_of(pcs2, 1 - side as int));
            assert(self.disjoint_wf()) by {
                assert forall|i: int, j2: int| 0 <= i < j2 < 12 implies (#[trigger] pcs2[i]
                    & #[trigger] pcs2[j2]) == 0 by {
                    if i == slot as int {
                        crate::bits::lemma_bb_xor_single_disjoint(pcs1[i], pcs1[j2], j);
                    } else if j2 == slot as int {
                        crate::bits::lemma_bb_xor_single_disjoint(pcs1[j2], pcs1[i], j);
                    }
                }
            }
            assert(self.mirror_wf()) by {
                assert forall|side2: int, kind2: int, sq2: int|
                    0 <= side2 < 2 && 0 <= kind2 < 6 && 0 <= sq2 < 64 && #[trigger] bb_has(
                        pcs2[piece_slot(side2, kind2)],
                        sq2,
                    ) implies self.piece_list@[sq2].spec_index() == kind2 by {
                    if piece_slot(side2, kind2) == slot as int {
                        if sq2 != sq as int {
                            assert(bb_has(pcs1[piece_slot(side2, kind2)], sq2));
                        }
                    } else {
                        assert(bb_has(pcs1[piece_slot(side2, kind2)], sq2));
                        assert(sq2 != sq as int);
                    }
                }
                assert forall|sq2: int|
                    0 <= sq2 < 64 && #[trigger] self.piece_list@[sq2] != Piece::Empty
                    implies exists|side2: int|
                    0 <= side2 < 2 && bb_has(
                        pcs2[piece_slot(side2, self.piece_list@[sq2].spec_index())],
                        sq2,
                    ) by {
                    if sq2 == sq as int {
                        assert(bb_has(pcs2[piece_slot(side as int, kind as int)], sq2));
                    } else {
                        let side2 = choose|side2: int|
                            0 <= side2 < 2 && bb_has(
                                pcs1[piece_slot(side2, old(self).piece_list@[sq2].spec_index())],
                                sq2,
                            );
                        assert(bb_has(
                            pcs2[piece_slot(side2, self.piece_list@[sq2].spec_index())],
                            sq2,
                        ));
                    }
                }
            }
            assert(self.fingerprint_ok()) by {
                lemma_pieces_fp_flip(pcs1, pcs2, self.zobrist_hashmap, slot as int, j, 768);
                vstd::arithmetic::div_mod::lemma_fundamental_div_mod_converse(
                    slot as int,
                    6,
                    side as int,
                    kind as int,
                );
                let pf = pieces_fp(pcs1, self.zobrist_hashmap, 768);
                let c = self.zobrist_hashmap.spec_castling(self.game_state.castling as int);
                let e = match self.game_state.enpassant {
                    Some(f) => self.zobrist_hashmap.spec_enpassant(f as int),
                    None => 0u64,
                };
                let s = if self.game_state.active_color == 1 {
                    self.zobrist_hashmap.spec_side()
                } else {
                    0u64
                };
                lemma_fp_shuffle(pf, c, e, s, key);
            }
        }
    }

    /// Remove a piece that stands on a square: clear its bit in the piece
    /// and occupancy bit-sets, clear the mirror entry, and fold its key
    /// back out of the fingerprint.
    pub fn remove_piece(&mut self, piece: Piece, side: Side, square: SquareCoord)
        requires
            old(self).wf(),
            side < 2,
            piece.spec_index() < 6,
            square.wf(),
            bb_has(
                old(self).bb_pieces@[piece_slot(side as int, piece.spec_index())],
                square.spec_index(),
            ),
        ensures
            final(self).wf(),
            final(self).bb_pieces@ == old(self).bb_pieces@.update(
                piece_slot(side as int, piece.spec_index()),
                old(self).bb_pieces@[piece_slot(side as int, piece.spec_index())] & !(1u64 << (
                square.spec_index() as u64)),
            ),
            final(self).bb_sides@ == old(self).bb_sides@.update(
                side as int,
                old(self).bb_sides@[side as int] & !(1u64 << (square.spec_index() as u64)),
            ),
            final(self).piece_list@ == old(self).piece_list@.update(
                square.spec_index(),
                Piece::Empty,
            ),
            final(self).game_state == (GameState {
                zobrist_key: old(self).game_state.zobrist_key ^ old(
                    self,
                ).zobrist_hashmap.spec_piece(
                    side as int,
                    piece.spec_index(),
                    square.spec_index(),
                ),
                ..old(self).game_state
            }),
            final(self).history == old(self).history,
            final(self).zobrist_hashmap == old(self).zobrist_hashmap,
    {
        let ghost pcs1 = self.bb_pieces@;
        let sq = square.to_usize();
        let kind = piece.index();
        let slot = side * 6 + kind;
        let mask: u64 = 1u64 << (sq as u64);
        let key = self.zobrist_hashmap.piece(side, kind, sq);
        proof {
            assert forall|s2: int| 0 <= s2 < 12 && s2 != slot as int implies !bb_has(
                pcs1[s2],
                sq as int,
            ) by {
                if s2 < slot as int {
                    crate::bits::lemma_bb_disjoint_member(pcs1[s2], pcs1[slot as int], sq as int);
                } else {
                    crate::bits::lemma_bb_disjoint_member(pcs1[slot as int], pcs1[s2], sq as int);
                }
            }
            lemma_bb_flip(pcs1[slot as int], sq as u64);
        }
        let old_bb = self.bb_pieces[slot];
        self.bb_pieces[slot] = old_bb & !mask;
        let old_side = self.bb_sides[side];
        proof {
            lemma_side_occ_flip(
                pcs1,
                pcs1.update(slot as int, pcs1[slot as int] ^ mask),
                side as int,
                kind as int,
                sq as u64,
            );
            lemma_bb_flip(old_side, sq as u64);
        }
        self.bb_sides[side] = old_side & !mask;
        self.piece_list[sq] = Piece::Empty;
        self.game_state.zobrist_key = self.game_state.zobrist_key ^ key;
        proof {
            let pcs2 = self.bb_pieces@;
            let j = sq as u64;
            let m = 1u64 << j;
            assert(pcs2 == pcs1.update(slot as int, pcs1[slot as int] ^ m));
            assert(self.bb_sides@[side as int] == side_occ_of(pcs2, side as int));
            assert(self.bb_sides@[1 - side as int] == side_occ_of(pcs2, 1 - side as int));
            assert(self.disjoint_wf()) by {
                assert forall|i: int, j2: int| 0 <= i < j2 < 12 implies (#[trigger] pcs2[i]
                    & #[trigger] pcs2[j2]) == 0 by {
                    if i == slot as int {
                        crate::bits::lemma_bb_xor_single_disjoint(pcs1[i], pcs1[j2], j);
                    } else if j2 == slot as int {
                        crate::bits::lemma_bb_xor_single_disjoint(pcs1[j2], pcs1[i], j);
                    }
                }
            }
            assert(self.mirror_wf()) by {
                assert forall|side2: int, kind2: int, sq2: int|
                    0 <= side2 < 2 && 0 <= kind2 < 6 && 0 <= sq2 < 64 && #[trigger] bb_has(
                        pcs2[piece_slot(side2, kind2)],
                        sq2,
                    ) implies self.piece_list@[sq2].spec_index() == kind2 by {
                    if piece_slot(side2, kind2) == slot as int {
                        if sq2 != sq as int {
                            assert(bb_has(pcs1[piece_slot(side2, kind2)], sq2));
                        }
                    } else {
                        assert(bb_has(pcs1[piece_slot(side2, kind2)], sq2));
                        assert(sq2 != sq as int);
                    }
                }
                assert forall|sq2: int|
                    0 <= sq2 < 64 && #[trigger] self.piece_list@[sq2] != Piece::Empty
                    implies exists|side2: int|
                    0 <= side2 < 2 && bb_has(
                        pcs2[piece_slot(side2, self.piece_list@[sq2].spec_index())],
                        sq2,
                    ) by {
                    let side2 = choose|side2: int|
                        0 <= side2 < 2 && bb_has(
                            pcs1[piece_slot(side2, old(self).piece_list@[sq2].spec_index())],
                            sq2,
                        );
                    assert(bb_has(
                        pcs2[piece_slot(side2, self.piece_list@[sq2].spec_index())],
                        sq2,
                    ));
                }
            }
            assert(self.fingerprint_ok()) by {
                lemma_pieces_fp_flip(pcs1, pcs2, self.zobrist_hashmap, slot as int, j, 768);
                vstd::arithmetic::div_mod::lemma_fundamental_div_mod_converse(
                    slot as int,
                    6,
                    side as int,
                    kind as int,
                );
                let pf = pieces_fp(pcs1, self.zobrist_hashmap, 768);
                let c = self.zobrist_hashmap.spec_castling(self.game_state.castling as int);
                let e = match self.game_state.enpassant {
                    Some(f) => self.zobrist_hashmap.spec_enpassant(f as int),
                    None => 0u64,
                };
                let s = if self.game_state.active_color == 1 {
                    self.zobrist_hashmap.spec_side()
                } else {
                    0u64
                };
                lemma_fp_shuffle(pf, c, e, s, key);
            }
        }
    }

    /// Move a piece: remove it from its square, then place it on the
    /// destination.  Occupancy, mirror and fingerprint follow from the
    /// two steps; nothing is re-derived independently.
    pub fn move_piece(
        &mut self,
        piece: Piece,
        side: Side,
        initial_square: SquareCoord,
        final_square: SquareCoord,
    )
        requires
            old(self).wf(),
            side < 2,
            piece.spec_index() < 6,
            initial_square.wf(),
            final_square.wf(),
            bb_has(
                old(self).bb_pieces@[piece_slot(side as int, piece.spec_index())],
                initial_square.spec_index(),
            ),
            old(self).piece_list@[final_square.spec_index()] == Piece::Empty || final_square
                == initial_square,
        ensures
            final(self).wf(),
            final(self).bb_pieces@ == old(self).bb_pieces@.update(
                piece_slot(side as int, piece.spec_index()),
                (old(self).bb_pieces@[piece_slot(side as int, piece.spec_index())] & !(1u64 << (
                initial_square.spec_index() as u64))) | (1u64 << (final_square.spec_index()
                    as u64)),
            ),
            final(self).piece_list@ == old(self).piece_list@.update(
                initial_square.spec_index(),
                Piece::Empty,
            ).update(final_square.spec_index(), piece),
            final(self).game_state == (GameState {
                zobrist_key: old(self).game_state.zobrist_key ^ old(
                    self,
                ).zobrist_hashmap.spec_piece(
                    side as int,
                    piece.spec_index(),
                    initial_square.spec_index(),
                ) ^ old(self).zobrist_hashmap.spec_piece(
                    side as int,
                    piece.spec_index(),
                    final_square.spec_index(),
                ),
                ..old(self).game_state
            }),
            final(self).history == old(self).history,
            final(self).zobrist_hashmap == old(self).zobrist_hashmap,
    {
        self.remove_piece(piece, side, initial_square);
        self.put_piece(piece, side, final_square);
        proof {
            assert(final(self).bb_pieces@ =~= old(self).bb_pieces@.update(
                piece_slot(side as int, piece.spec_index()),
                (old(self).bb_pieces@[piece_slot(side as int, piece.spec_index())] & !(1u64 << (
                initial_square.spec_index() as u64))) | (1u64 << (final_square.spec_index()
                    as u64)),
            ));
        }
    }

    /// Record an en-passant target: fold the key of the old target's file
    /// out of the fingerprint if one was set, store the new target, and
    /// fold its file key in.
    pub fn set_enpassant_move(&mut self, square: SquareCoord)
        requires
            old(self).wf(),
            square.wf(),
        ensures
            final(self).wf(),
            final(self).game_state == (GameState {
                enpassant: Some(square.file),
                zobrist_key: old(self).game_state.zobrist_key ^ (match old(
                    self,
                ).game_state.enpassant {
                    Some(f) => old(self).zobrist_hashmap.spec_enpassant(f as int),
                    None => 0u64,
                }) ^ old(self).zobrist_hashmap.spec_enpassant(square.file as int),
                ..old(self).game_state
            }),
            final(self).bb_pieces@ == old(self).bb_pieces@,
            final(self).bb_sides@ == old(self).bb_sides@,
            final(self).piece_list@ == old(self).piece_list@,
            final(self).history == old(self).history,
            final(self).zobrist_hashmap == old(self).zobrist_hashmap,
    {
        let ghost pf = self.pieces_fingerprint();
        let ghost c = self.zobrist_hashmap.spec_castling(self.game_state.castling as int);
        let ghost s = if self.game_state.active_color == 1 {
            self.zobrist_hashmap.spec_side()
        } else {
            0u64
        };
        match self.game_state.enpassant {
            Some(f) => {
                let k_out = self.zobrist_hashmap.enpassant(f);
                self.game_state.zobrist_key = self.game_state.zobrist_key ^ k_out;
            },
            None => {
                proof {
                    lemma_xor_properties(self.game_state.zobrist_key, 0, 0);
                }
            },
        }
        self.game_state.set_enpassant(square.file);
        let k_in = self.zobrist_hashmap.enpassant(square.file);
        self.game_state.zobrist_key = self.game_state.zobrist_key ^ k_in;
        proof {
            let e2 = self.zobrist_hashmap.spec_enpassant(square.file as int);
            match old(self).game_state.enpassant {
                Some(f) => {
                    let e1 = old(self).zobrist_hashmap.spec_enpassant(f as int);
                    lemma_fp_replace_e(pf, c, e1, e2, s);
                },
                None => {
                    lemma_xor_properties(pf ^ c, s, e2);
                    lemma_xor_properties(pf ^ c, 0, s);
                },
            }
        }
    }

    /// Drop the en-passant target, folding its file key out of the
    /// fingerprint if one was set.
    pub fn clear_enpassant_move(&mut self)
        requires
            old(self).wf(),
        ensures
            final(self).wf(),
            final(self).game_state == (GameState {
                enpassant: None::<u8>,
                zobrist_key: old(self).game_state.zobrist_key ^ (match old(
                    self,
                ).game_state.enpassant {
                    Some(f) => old(self).zobrist_hashmap.spec_enpassant(f as int),
                    None => 0u64,
                }),
                ..old(self).game_state
            }),
            final(self).bb_pieces@ == old(self).bb_pieces@,
            final(self).bb_sides@ == old(self).bb_sides@,
            final(self).piece_list@ == old(self).piece_list@,
            final(self).history == old(self).history,
            final(self).zobrist_hashmap == old(self).zobrist_hashmap,
    {
        let ghost pf = self.pieces_fingerprint();
        let ghost c = self.zobrist_hashmap.spec_castling(self.game_state.castling as int);
        let ghost s = if self.game_state.active_color == 1 {
            self.zobrist_hashmap.spec_side()
        } else {
            0u64
        };
        match self.game_state.enpassant {
            Some(f) => {
                let k_out = self.zobrist_hashmap.enpassant(f);
                self.game_state.zobrist_key = self.game_state.zobrist_key ^ k_out;
                proof {
                    let e1 = old(self).zobrist_hashmap.spec_enpassant(f as int);
                    lemma_xor_properties(pf ^ c, e1, s);
                    lemma_xor_properties(pf ^ c, 0, s);
                    assert((((pf ^ c) ^ e1) ^ s) ^ e1 == ((pf ^ c) ^ 0) ^ s) by {
                        lemma_xor_properties((pf ^ c) ^ e1, s, e1);
                        lemma_xor_properties(pf ^ c, e1, e1);
                        lemma_xor_properties(pf ^ c, s, 0);
                    }
                }
            },
            None => {
                proof {
                    lemma_xor_properties(self.game_state.zobrist_key, 0, 0);
                }
            },
        }
        self.game_state.clear_enpassant();
    }

    /// Revoke a castling right and keep the fingerprint in step: fold out
    /// the key of the old rights value, clear the bit, and fold in the
    /// key of the new value.
    pub fn revoke_castling_right(&mut self, right: CastlingRight)
        requires
            old(self).wf(),
        ensures
            final(self).wf(),
            final(self).game_state == (GameState {
                castling: old(self).game_state.castling & !right.spec_bit(),
                zobrist_key: old(self).game_state.zobrist_key ^ old(
                    self,
                ).zobrist_hashmap.spec_castling(old(self).game_state.castling as int) ^ old(
                    self,
                ).zobrist_hashmap.spec_castling(
                    (old(self).game_state.castling & !right.spec_bit()) as int,
                ),
                ..old(self).game_state
            }),
            final(self).bb_pieces@ == old(self).bb_pieces@,
            final(self).bb_sides@ == old(self).bb_sides@,
            final(self).piece_list@ == old(self).piece_list@,
            final(self).history == old(self).history,
            final(self).zobrist_hashmap == old(self).zobrist_hashmap,
    {
        let ghost pf = self.pieces_fingerprint();
        let ghost e = match self.game_state.enpassant {
            Some(f) => self.zobrist_hashmap.spec_enpassant(f as int),
            None => 0u64,
        };
        let ghost s = if self.game_state.active_color == 1 {
            self.zobrist_hashmap.spec_side()
        } else {
            0u64
        };
        let k_out = self.zobrist_hashmap.castling(self.game_state.castling);
        self.game_state.revoke_right(right);
        let k_in = self.zobrist_hashmap.castling(self.game_state.castling);
        self.game_state.zobrist_key = self.game_state.zobrist_key ^ k_out ^ k_in;
        proof {
            lemma_fp_replace_c(pf, k_out, k_in, e, s);
        }
    }

    /// Derive the two occupancy bit-sets from the piece bit-sets.
    fn init_bb_sides(&self) -> (r: (BitBoard, BitBoard))
        requires
            self.dims_wf(),
        ensures
            r.0 == self.spec_side_occ(0),
            r.1 == self.spec_side_occ(1),
    {
        let white_side = self.bb_pieces[0] | self.bb_pieces[1] | self.bb_pieces[2]
            | self.bb_pieces[3] | self.bb_pieces[4] | self.bb_pieces[5];
        let black_side = self.bb_pieces[6] | self.bb_pieces[7] | self.bb_pieces[8]
            | self.bb_pieces[9] | self.bb_pieces[10] | self.bb_pieces[11];
        (white_side, black_side)
    }

    /// Derive all cached state from the piece bit-sets: the occupancy
    /// bit-sets when they were left empty, the square-to-piece mirror,
    /// and the fingerprint, exactly as a sequence of placements would
    /// have produced them.
    pub fn init(&mut self)
        requires
            old(self).dims_wf(),
            old(self).disjoint_wf(),
            old(self).sides_wf() || (old(self).bb_sides@[0] == 0 && old(self).bb_sides@[1] == 0),
        ensures
            final(self).wf(),
            final(self).bb_pieces@ == old(self).bb_pieces@,
            old(self).sides_wf() ==> final(self).bb_sides@ == old(self).bb_sides@,
            final(self).game_state == (GameState {
                zobrist_key: final(self).game_state.zobrist_key,
                ..old(self).game_state
            }),
            final(self).history == old(self).history,
            final(self).zobrist_hashmap == old(self).zobrist_hashmap,
    {
        if self.bb_sides[0] == 0 && self.bb_sides[1] == 0 {
            let (white_side, black_side) = self.init_bb_sides();
            self.bb_sides[0] = white_side;
            self.bb_sides[1] = black_side;
            proof {
                assert(self.bb_sides@ =~= old(self).bb_sides@.update(0, white_side).update(
                    1,
                    black_side,
                ));
            }
        }
        let list = self.get_piece_list();
        self.piece_list = list;
        let key = self.init_zobrist_key();
        self.game_state.zobrist_key = key;
    }

    /// The bit-set of one piece kind of one side.
    pub fn get_pieces(&self, side: Side, piece: Piece) -> (bb: BitBoard)
        requires
            self.dims_wf(),
            side < 2,
            piece.spec_index() < 6,
        ensures
            bb == self.bb_pieces@[piece_slot(side as int, piece.spec_index())],
    {
        self.bb_pieces[side * 6 + piece.index()]
    }
}

/// After any sequence of mutations — each of which leaves the board
/// well-formed — the incrementally maintained fingerprint equals the
/// value a from-scratch rebuild computes.
pub proof fn lemma_fingerprint_matches_rebuild(b: Board)
    requires
        b.wf(),
    ensures
        b.game_state.zobrist_key == b.spec_fingerprint(),
{
}

/// The cached state of a well-formed board is determined by the piece
/// bit-sets, the auxiliary fields and the key table alone: a from-scratch
/// derivation and an incremental construction that agree on those agree
/// on the occupancy sets, the mirror and the fingerprint too.
pub proof fn lemma_cached_state_determined(b1: Board, b2: Board)
    requires
        b1.wf(),
        b2.wf(),
        b1.bb_pieces@ == b2.bb_pieces@,
        b1.game_state.castling == b2.game_state.castling,
        b1.game_state.enpassant == b2.game_state.enpassant,
        b1.game_state.active_color == b2.game_state.active_color,
        b1.zobrist_hashmap == b2.zobrist_hashmap,
    ensures
        b1.bb_sides@ == b2.bb_sides@,
        b1.piece_list@ == b2.piece_list@,
        b1.game_state.zobrist_key == b2.game_state.zobrist_key,
{
    assert(b1.bb_sides@ =~= b2.bb_sides@);
    assert forall|sq: int| 0 <= sq < 64 implies b1.piece_list@[sq] == b2.piece_list@[sq] by {
        if b1.piece_list@[sq] != Piece::Empty {
            let side = choose|side: int|
                0 <= side < 2 && bb_has(
                    b1.bb_pieces@[piece_slot(side, b1.piece_list@[sq].spec_index())],
                    sq,
                );
            assert(b2.piece_list@[sq].spec_index() == b1.piece_list@[sq].spec_index());
        }
        if b2.piece_list@[sq] != Piece::Empty {
            let side = choose|side: int|
                0 <= side < 2 && bb_has(
                    b2.bb_pieces@[piece_slot(side, b2.piece_list@[sq].spec_index())],
                    sq,
                );
            assert(b1.piece_list@[sq].spec_index() == b2.piece_list@[sq].spec_index());
        }
    }
    assert(b1.piece_list@ =~= b2.piece_list@);
}

/// The piece-key fold only reads the key of each placed piece, so two key
/// tables that agree on every piece key fold to the same value.
proof fn lemma_pieces_fp_same_keys(pieces: Seq<u64>, z1: Zobrist, z2: Zobrist, n: int)
    requires
        pieces.len() == 12,
        0 <= n <= 768,
        forall|side: int, kind: int, square: int|
            0 <= side < 2 && 0 <= kind < 6 && 0 <= square < 64 ==> #[trigger] z1.spec_piece(
                side,
                kind,
                square,
            ) == z2.spec_piece(side, kind, square),
    ensures
        pieces_fp(pieces, z1, n) == pieces_fp(pieces, z2, n),
    decreases n,
{
    if n > 0 {
        lemma_pieces_fp_same_keys(pieces, z1, z2, n - 1);
        let i = n - 1;
        assert(0 <= i / 64 < 12 && 0 <= (i / 64) / 6 < 2 && 0 <= (i / 64) % 6 < 6 && 0 <= i % 64
            < 64) by (nonlinear_arith)
            requires 0 <= i < 768;
    }
}

/// Two positions identical in piece placement, castling rights,
/// en-passant target and side to move hash to the same fingerprint, even
/// across independent key tables built from the same seed: the basis of
/// transposition-style equality checks.
pub proof fn lemma_fingerprint_of_equal_positions(b1: Board, b2: Board, seed: u64)
    requires
        b1.dims_wf(),
        b2.dims_wf(),
        b1.bb_pieces@ == b2.bb_pieces@,
        b1.game_state.castling == b2.game_state.castling,
        b1.game_state.enpassant == b2.game_state.enpassant,
        b1.game_state.active_color == b2.game_state.active_color,
        b1.zobrist_hashmap.keys_of_seed(seed),
        b2.zobrist_hashmap.keys_of_seed(seed),
    ensures
        b1.spec_fingerprint() == b2.spec_fingerprint(),
{
    crate::zobrist::lemma_zobrist_deterministic(b1.zobrist_hashmap, b2.zobrist_hashmap, seed);
    lemma_pieces_fp_same_keys(b1.bb_pieces@, b1.zobrist_hashmap, b2.zobrist_hashmap, 768);
}

/// A span of squares of one slot holding no piece leaves the piece-key
/// fold unchanged.
proof fn lemma_fp_segment_clear(pieces: Seq<u64>, z: Zobrist, slot: int, lo: int, hi: int, orig: u64)
    requires
        0 <= slot < 12,
        0 <= lo <= hi <= 64,
        orig == pieces[slot],
        forall|j: int| lo <= j < hi ==> !bb_has(orig, j),
    ensures
        pieces_fp(pieces, z, slot * 64 + hi) == pieces_fp(pieces, z, slot * 64 + lo),
{
    assert forall|i: int| slot * 64 + lo <= i < slot * 64 + hi implies !bb_has(
        #[trigger] pieces[i / 64],
        i % 64,
    ) by {
        vstd::arithmetic::div_mod::lemma_fundamental_div_mod_converse(i, 64, slot, i - slot * 64);
    }
    lemma_pieces_fp_skip(pieces, z, slot * 64 + lo, slot * 64 + hi);
}

/// Ranges of the flat (slot, square) space where no piece stands leave
/// the piece-key fold unchanged.
proof fn lemma_pieces_fp_skip(pieces: Seq<u64>, z: Zobrist, n1: int, n2: int)
    requires
        0 <= n1 <= n2,
        forall|i: int| n1 <= i < n2 ==> !bb_has(#[trigger] pieces[i / 64], i % 64),
    ensures
        pieces_fp(pieces, z, n2) == pieces_fp(pieces, z, n1),
    decreases n2 - n1,
{
    if n2 > n1 {
        lemma_pieces_fp_skip(pieces, z, n1, n2 - 1);
        lemma_xor_properties(pieces_fp(pieces, z, n2 - 1), 0, 0);
    }
}

/// Flipping one square of one slot flips that piece's key in the fold:
/// the incremental exclusive-or update is exactly a from-scratch rebuild.
proof fn lemma_pieces_fp_flip(pieces1: Seq<u64>, pieces2: Seq<u64>, z: Zobrist, slot: int, sq: u64, n: int)
    requires
        pieces1.len() == 12,
        0 <= slot < 12,
        sq < 64,
        pieces2 == pieces1.update(slot, pieces1[slot] ^ (1u64 << sq)),
        0 <= n <= 768,
    ensures
        pieces_fp(pieces2, z, n) == if n > slot * 64 + sq {
            pieces_fp(pieces1, z, n) ^ z.spec_piece(slot / 6, slot % 6, sq as int)
        } else {
            pieces_fp(pieces1, z, n)
        },
    decreases n,
{
    lemma_bb_flip(pieces1[slot], sq);
    let key = z.spec_piece(slot / 6, slot % 6, sq as int);
    if n > 0 {
        lemma_pieces_fp_flip(pieces1, pieces2, z, slot, sq, n - 1);
        let i = n - 1;
        assert(0 <= i / 64 < 12) by (nonlinear_arith)
            requires 0 <= i < 768;
        assert(0 <= i % 64 < 64) by (nonlinear_arith)
            requires 0 <= i;
        let t1: u64 = if bb_has(pieces1[i / 64], i % 64) {
            z.spec_piece((i / 64) / 6, (i / 64) % 6, i % 64)
        } else {
            0u64
        };
        let t2: u64 = if bb_has(pieces2[i / 64], i % 64) {
            z.spec_piece((i / 64) / 6, (i / 64) % 6, i % 64)
        } else {
            0u64
        };
        if i == slot * 64 + sq {
            vstd::arithmetic::div_mod::lemma_fundamental_div_mod_converse(i, 64, slot, sq as int);
            assert(i / 64 == slot && i % 64 == sq);
            assert(bb_has(pieces2[i / 64], i % 64) == !bb_has(pieces1[i / 64], i % 64));
            assert(t2 == t1 ^ key) by {
                lemma_xor_properties(key, t1, 0);
            }
            lemma_xor_properties(t1, pieces_fp(pieces1, z, i), key);
            assert(pieces_fp(pieces2, z, n) == (t1 ^ key) ^ pieces_fp(pieces1, z, i));
        } else {
            if i / 64 == slot {
                vstd::arithmetic::div_mod::lemma_fundamental_div_mod(i, 64);
                assert(i % 64 != sq);
                assert(bb_has(pieces2[i / 64], i % 64) == bb_has(pieces1[i / 64], i % 64));
            } else {
                assert(pieces2[i / 64] == pieces1[i / 64]);
            }
            assert(t2 == t1);
            if n > slot * 64 + sq {
                lemma_xor_properties(t1, pieces_fp(pieces1, z, i), key);
            }
        }
    }
}

} // verus!
