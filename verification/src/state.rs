//! The auxiliary state of a position: castling rights, en-passant target,
//! side to move, move clocks and the running fingerprint.  A snapshot of
//! this struct is what the history stack stores around a trial mutation.

use vstd::prelude::*;
use crate::types::{CastlingRight, Sides};
use crate::zobrist::ZobristKey;

verus! {

/// The 4-bit set of castling rights.
pub type CastlingState = u8;

/// An en-passant target, recorded as the file of the capturable pawn.
pub type EnpassantState = u8;

/// The auxiliary fields of a position.
#[derive(Clone, Copy, PartialEq, Eq, Debug)]
pub struct GameState {
    pub castling: CastlingState,
    pub enpassant: Option<EnpassantState>,
    pub active_color: u8,
    pub half_move_clock: u8,
    pub fullmove_counter: u16,
    pub zobrist_key: ZobristKey,
}

/// The starting auxiliary state: all four castling rights, no en-passant
/// target, white to move, cleared clocks and fingerprint.
pub open spec fn initial_game_state() -> GameState {
    GameState {
        castling: 15,
        enpassant: None,
        active_color: 0,
        half_move_clock: 0,
        fullmove_counter: 0,
        zobrist_key: 0,
    }
}

/// The state `s` with the castling right `right` cleared and everything
/// else kept.
pub open spec fn spec_revoke(s: GameState, right: CastlingRight) -> GameState {
    GameState { castling: s.castling & !right.spec_bit(), ..s }
}

impl GameState {
    /// The auxiliary fields stay inside their domains.
    pub open spec fn wf(self) -> bool {
        &&& self.castling < 16
        &&& self.active_color < 2
        &&& match self.enpassant {
            Some(f) => f < 8,
            None => true,
        }
    }

    /// The starting auxiliary state: all four castling rights, no
    /// en-passant target, white to move, cleared clocks and fingerprint.
    pub fn new() -> (s: GameState)
        ensures
            s == initial_game_state(),
            s.wf(),
    {
        let castling_state = CastlingRight::WhiteKingSide.bit() | CastlingRight::WhiteQueenSide.bit()
            | CastlingRight::BlackKingSide.bit() | CastlingRight::BlackQueenSide.bit();
        proof {
            assert(1u8 | 2u8 | 4u8 | 8u8 == 15u8) by (bit_vector);
        }
        GameState {
            castling: castling_state,
            enpassant: None,
            active_color: Sides::WHITE as u8,
            half_move_clock: 0,
            fullmove_counter: 0,
            zobrist_key: 0,
        }
    }

    /// Clear one castling right.  The bit is cleared whether or not it was
    /// set, so clearing an already-absent right changes nothing.
    pub fn revoke_right(&mut self, right: CastlingRight)
        ensures
            *final(self) == spec_revoke(*old(self), right),
            old(self).wf() ==> final(self).wf(),
    {
        proof {
            let c = self.castling;
            let b = right.spec_bit();
            assert(c & !b <= c) by (bit_vector);
        }
        self.castling = self.castling & !right.bit();
    }

    /// Record an en-passant target file.
    pub fn set_enpassant(&mut self, file_idx: EnpassantState)
        requires
            file_idx < 8,
        ensures
            *final(self) == (GameState { enpassant: Some(file_idx), ..*old(self) }),
            old(self).wf() ==> final(self).wf(),
    {
        self.enpassant = Some(file_idx);
    }

    /// Drop the en-passant target.
    pub fn clear_enpassant(&mut self)
        ensures
            *final(self) == (GameState { enpassant: None::<EnpassantState>, ..*old(self) }),
            old(self).wf() ==> final(self).wf(),
    {
        self.enpassant = None;
    }
}

/// Revoking a castling right twice leaves the same state as revoking it
/// once: the second clearing of an already-cleared bit changes nothing.
pub proof fn lemma_revoke_right_idempotent(s: GameState, right: CastlingRight)
    ensures
        spec_revoke(spec_revoke(s, right), right) == spec_revoke(s, right),
{
    let c = s.castling;
    let b = right.spec_bit();
    assert((c & !b) & !b == c & !b) by (bit_vector);
}

} // verus!
