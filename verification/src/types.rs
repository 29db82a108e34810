//! Core scalar types of the board model: sides, piece kinds, castling
//! rights, and the file/rank coordinate form of a square index.

use vstd::prelude::*;

verus! {

/// A bit-set over the 64 squares: bit `i` is set exactly when square `i`
/// is a member.
pub type BitBoard = u64;

/// A side (colour) is an index: white or black.
pub type Side = usize;

pub const EMPTY_BITBOARD: BitBoard = 0;

/// Upper bound on the number of plies a game may last; capacity of the
/// history stack.
pub const MAX_GAME_MOVES: u64 = 2048;

/// Largest admissible half-move clock value.
pub const FIFTY_MOVE_RULE: u8 = 50;

/// Named side indices.
pub struct Sides;

impl Sides {
    pub const WHITE: Side = 0;
    pub const BLACK: Side = 1;
    pub const BOTH: Side = 2;
}

/// Named sizes of the board model.
pub struct NumOf;

impl NumOf {
    pub const SQUARES: usize = 64;
    pub const PIECE_TYPES: usize = 6;
    pub const PIECES_PER_SIDE: usize = 16;
    pub const CASTLING_STATES: usize = 16;
    pub const ENPASSANT_FILES: usize = 8;
    pub const RANKS: usize = 8;
    pub const FILES: usize = 8;
}

/// A piece kind; `Empty` marks a square that holds no piece.
#[derive(Clone, Copy, PartialEq, Eq, Structural, Debug)]
pub enum Piece {
    King,
    Queen,
    Rook,
    Bishop,
    Knight,
    Pawn,
    Empty,
}

impl Piece {
    /// The table index of this piece kind; `Empty` sits one past the last
    /// real kind.
    pub open spec fn spec_index(self) -> int {
        match self {
            Piece::King => 0,
            Piece::Queen => 1,
            Piece::Rook => 2,
            Piece::Bishop => 3,
            Piece::Knight => 4,
            Piece::Pawn => 5,
            Piece::Empty => 6,
        }
    }

    pub fn index(&self) -> (i: usize)
        ensures
            i == self.spec_index(),
    {
        match self {
            Piece::King => 0,
            Piece::Queen => 1,
            Piece::Rook => 2,
            Piece::Bishop => 3,
            Piece::Knight => 4,
            Piece::Pawn => 5,
            Piece::Empty => 6,
        }
    }

    /// The piece kind with the given table index.
    pub fn from_index(i: usize) -> (p: Piece)
        requires
            i <= 6,
        ensures
            p.spec_index() == i,
    {
        match i {
            0 => Piece::King,
            1 => Piece::Queen,
            2 => Piece::Rook,
            3 => Piece::Bishop,
            4 => Piece::Knight,
            5 => Piece::Pawn,
            _ => Piece::Empty,
        }
    }
}

/// One of the four castling permissions.
#[derive(Clone, Copy, PartialEq, Eq, Structural, Debug)]
pub enum CastlingRight {
    WhiteKingSide,
    WhiteQueenSide,
    BlackKingSide,
    BlackQueenSide,
}

impl CastlingRight {
    /// The bit this right occupies inside the 4-bit castling-rights set.
    pub open spec fn spec_bit(self) -> u8 {
        match self {
            CastlingRight::WhiteKingSide => 1,
            CastlingRight::WhiteQueenSide => 2,
            CastlingRight::BlackKingSide => 4,
            CastlingRight::BlackQueenSide => 8,
        }
    }

    pub fn bit(&self) -> (b: u8)
        ensures
            b == self.spec_bit(),
    {
        match self {
            CastlingRight::WhiteKingSide => 1,
            CastlingRight::WhiteQueenSide => 2,
            CastlingRight::BlackKingSide => 4,
            CastlingRight::BlackQueenSide => 8,
        }
    }
}

/// True when `(rank, file)` names a square of the 8x8 board.
pub open spec fn on_board(rank: int, file: int) -> bool {
    0 <= rank < 8 && 0 <= file < 8
}

/// The file/rank coordinate form of a square; the linear index is
/// `rank * 8 + file`.
#[derive(Clone, Copy, PartialEq, Eq, Structural, Debug)]
pub struct SquareCoord {
    pub file: u8,
    pub rank: u8,
}

impl SquareCoord {
    pub open spec fn wf(self) -> bool {
        self.file < 8 && self.rank < 8
    }

    /// The linear square index of this coordinate.
    pub open spec fn spec_index(self) -> int {
        self.rank * 8 + self.file
    }

    pub fn new(file: u8, rank: u8) -> (c: SquareCoord)
        requires
            file < 8,
            rank < 8,
        ensures
            c.wf(),
            c.file == file,
            c.rank == rank,
    {
        SquareCoord { file, rank }
    }

    /// The coordinate form of a linear square index.
    pub fn from_index(square: usize) -> (c: SquareCoord)
        requires
            square < 64,
        ensures
            c.wf(),
            c.spec_index() == square,
    {
        SquareCoord { file: (square % 8) as u8, rank: (square / 8) as u8 }
    }

    /// The linear square index of this coordinate.
    pub fn to_usize(&self) -> (i: usize)
        requires
            self.wf(),
        ensures
            i == self.spec_index(),
            i < 64,
    {
        (self.rank as usize) * 8 + (self.file as usize)
    }

    /// One bounds-checked step in the direction `(rank_step, file_step)`;
    /// `None` exactly when the step leaves the board.
    pub fn next(&self, direction: (i8, i8)) -> (n: Option<SquareCoord>)
        requires
            self.wf(),
            -1 <= direction.0 <= 1,
            -1 <= direction.1 <= 1,
        ensures
            on_board(self.rank + direction.0, self.file + direction.1) ==> n == Some(
                SquareCoord {
                    file: (self.file + direction.1) as u8,
                    rank: (self.rank + direction.0) as u8,
                },
            ),
            !on_board(self.rank + direction.0, self.file + direction.1) ==> n is None,
    {
        let r2 = self.rank as i8 + direction.0;
        let f2 = self.file as i8 + direction.1;
        if 0 <= r2 && r2 < 8 && 0 <= f2 && f2 < 8 {
            Some(SquareCoord { file: f2 as u8, rank: r2 as u8 })
        } else {
            None
        }
    }
}

} // verus!
