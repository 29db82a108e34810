use bitboard_core::board::Board;
use bitboard_core::history::GameHistory;
use bitboard_core::state::GameState;
use bitboard_core::types::{CastlingRight, Piece, Sides, SquareCoord};
use bitboard_core::zobrist::Zobrist;

#[test]
fn test_square_coord_round_trip() {
    for i in 0..64usize {
        let c = SquareCoord::from_index(i);
        assert_eq!(c.to_usize(), i);
        assert_eq!(c.rank as usize, i / 8);
        assert_eq!(c.file as usize, i % 8);
    }
    let e4 = SquareCoord::new(4, 3);
    assert_eq!(e4.to_usize(), 28);
    assert_eq!(e4.next((1, 0)), Some(SquareCoord::new(4, 4)));
    assert_eq!(SquareCoord::new(7, 7).next((1, 0)), None);
    assert_eq!(SquareCoord::new(0, 0).next((0, -1)), None);
}

#[test]
fn test_zobrist_deterministic() {
    let a = Zobrist::new(Some(7));
    let b = Zobrist::new(Some(7));
    for side in 0..2usize {
        for kind in 0..6usize {
            for sq in (0..64usize).step_by(13) {
                assert_eq!(a.piece(side, kind, sq), b.piece(side, kind, sq));
            }
        }
    }
    assert_eq!(a.side(), b.side());
    for c in 0..16u8 {
        assert_eq!(a.castling(c), b.castling(c));
    }
    for f in 0..8u8 {
        assert_eq!(a.enpassant(f), b.enpassant(f));
    }
    // the default seed names a fixed table
    let d1 = Zobrist::new(None);
    let d2 = Zobrist::new(Some(42069));
    assert_eq!(d1.piece(0, 0, 0), d2.piece(0, 0, 0));
    assert_eq!(d1.side(), d2.side());
    // the stream really varies with the position
    assert_ne!(a.piece(0, 0, 0), a.piece(0, 0, 1));
    assert_ne!(a.piece(0, 0, 0), a.side());
}

#[test]
fn test_put_move_remove_keep_fingerprint() {
    let mut b = Board::new();
    b.init();
    assert_eq!(b.game_state.zobrist_key, b.init_zobrist_key());

    b.put_piece(Piece::Rook, Sides::WHITE, SquareCoord::from_index(0));
    assert_eq!(b.game_state.zobrist_key, b.init_zobrist_key());
    assert_eq!(b.piece_list[0], Piece::Rook);
    assert_eq!(b.bb_sides[Sides::WHITE], 1u64);

    b.put_piece(Piece::King, Sides::BLACK, SquareCoord::from_index(60));
    assert_eq!(b.game_state.zobrist_key, b.init_zobrist_key());

    b.move_piece(
        Piece::Rook,
        Sides::WHITE,
        SquareCoord::from_index(0),
        SquareCoord::from_index(7),
    );
    assert_eq!(b.game_state.zobrist_key, b.init_zobrist_key());
    assert_eq!(b.piece_list[0], Piece::Empty);
    assert_eq!(b.piece_list[7], Piece::Rook);

    b.set_enpassant_move(SquareCoord::from_index(20));
    assert_eq!(b.game_state.enpassant, Some(4));
    assert_eq!(b.game_state.zobrist_key, b.init_zobrist_key());

    b.revoke_castling_right(CastlingRight::WhiteQueenSide);
    assert_eq!(b.game_state.castling, 15 & !2);
    assert_eq!(b.game_state.zobrist_key, b.init_zobrist_key());

    b.clear_enpassant_move();
    assert_eq!(b.game_state.enpassant, None);
    assert_eq!(b.game_state.zobrist_key, b.init_zobrist_key());

    b.remove_piece(Piece::Rook, Sides::WHITE, SquareCoord::from_index(7));
    assert_eq!(b.game_state.zobrist_key, b.init_zobrist_key());
    assert_eq!(b.bb_sides[Sides::WHITE], 0);
}

#[test]
fn test_revoke_right_idempotent() {
    let mut s1 = GameState::new();
    s1.revoke_right(CastlingRight::BlackKingSide);
    let once = s1;
    s1.revoke_right(CastlingRight::BlackKingSide);
    assert_eq!(s1, once);
    assert_eq!(s1.castling, 15 & !4);
}

#[test]
fn test_game_state_enpassant() {
    let mut s = GameState::new();
    s.set_enpassant(3);
    assert_eq!(s.enpassant, Some(3));
    s.clear_enpassant();
    assert_eq!(s.enpassant, None);
}

#[test]
fn test_history_round_trip() {
    let mut h = GameHistory::new();
    assert_eq!(h.len(), 0);
    assert_eq!(h.pop(), None);

    let mut s = GameState::new();
    s.half_move_clock = 9;
    s.zobrist_key = 0xDEAD;
    h.push(s);
    assert_eq!(h.len(), 1);
    assert_eq!(*h.get(0), s);

    // any mutation to the live auxiliary state between push and pop
    let mut live = s;
    live.half_move_clock = 33;
    live.castling = 0;
    live.zobrist_key = 1;

    let restored = h.pop().unwrap();
    assert_eq!(restored, s);
    assert_eq!(h.len(), 0);

    let mut t = GameState::new();
    t.fullmove_counter = 5;
    h.push(s);
    h.push(t);
    assert_eq!(h.len(), 2);
    assert_eq!(h.pop(), Some(t));
    assert_eq!(h.pop(), Some(s));
    h.push(s);
    h.clear();
    assert_eq!(h.len(), 0);
}

#[test]
fn test_get_piece_list_matches_bitboards() {
    let mut b = Board::new();
    assert_eq!(b.fen_setup(None), Ok(()));
    b.init();
    let list = b.get_piece_list();
    assert_eq!(list.len(), 64);
    assert_eq!(list[0], Piece::Rook);
    assert_eq!(list[4], Piece::King);
    assert_eq!(list[8], Piece::Pawn);
    assert_eq!(list[30], Piece::Empty);
    assert_eq!(list[59], Piece::Queen);
    assert_eq!(list[62], Piece::Knight);
    assert_eq!(list, b.piece_list);
}
