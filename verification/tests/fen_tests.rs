use bitboard_core::board::Board;
use bitboard_core::fen::{
    fen_parse_castling_rights, fen_parse_colour, fen_parse_enpassant, fen_parse_full_move_counter,
    fen_parse_half_move_clock, fen_parse_pieces, fen_split_string, FenError,
};
use bitboard_core::history::GameHistory;
use bitboard_core::state::GameState;
use bitboard_core::types::{Piece, Sides};
use bitboard_core::zobrist::Zobrist;

const FEN_START_POSITION: &str = "rnbqkbnr/pppppppp/8/8/8/8/PPPPPPPP/RNBQKBNR w KQkq - 0 1";

fn empty_board() -> Board {
    Board {
        bb_pieces: vec![0u64; 12],
        bb_sides: vec![0u64; 2],
        piece_list: vec![Piece::Empty; 64],
        game_state: GameState::new(),
        history: GameHistory::new(),
        zobrist_hashmap: Zobrist::new(None),
    }
}

#[test]
fn test_split_fen_string() {
    let expected_start_position: Vec<String> = FEN_START_POSITION
        .trim()
        .replace('\u{2014}', "-")
        .split(' ')
        .map(String::from)
        .collect();
    let actual_start_position = fen_split_string(None).unwrap();
    assert_eq!(actual_start_position.len(), expected_start_position.len());

    for (expected_part, actual_part) in expected_start_position
        .iter()
        .zip(actual_start_position.iter())
    {
        assert_eq!(actual_part, expected_part);
    }
    let invalid_fen_string = "rnbqkbnr/pppppppp/8/8/8/8/PPPPPPPP/RNBQKBNR wKQkq - 0 1";
    let fen_split_res = fen_split_string(Some(invalid_fen_string));
    let error = fen_split_res.unwrap_err();
    assert_eq!(error, FenError::IncorrectLength);
}

#[test]
fn test_fen_parse_pieces() {
    let mut test_board = empty_board();

    let parts = fen_split_string(Some(FEN_START_POSITION)).unwrap();
    let res = fen_parse_pieces(&mut test_board, parts[0].as_str());
    assert!(!res.is_err());

    const WHITE_START_MASK: u64 = (1u64 << 16) - 1;
    assert_eq!(test_board.bb_sides[Sides::WHITE], WHITE_START_MASK);
    const BLACK_START_MASK: u64 = !((1u64 << (64 - 16)) - 1);
    assert_eq!(test_board.bb_sides[Sides::BLACK], BLACK_START_MASK);

    let kinds = [
        Piece::King,
        Piece::Queen,
        Piece::Rook,
        Piece::Bishop,
        Piece::Knight,
        Piece::Pawn,
    ];
    for kind in kinds {
        let wp = test_board.get_pieces(Sides::WHITE, kind);
        let bp = test_board.get_pieces(Sides::BLACK, kind);
        match kind {
            Piece::King => {
                // e1 and e8
                assert_eq!(wp, 1u64 << 4);
                assert_eq!(bp, 1u64 << 60);
            }
            Piece::Queen => {
                // d1 and d8
                assert_eq!(wp, 1u64 << 3);
                assert_eq!(bp, 1u64 << 59);
            }
            Piece::Rook => {
                // a1, h1 and a8, h8
                assert_eq!(wp, (1u64 << 0) | (1u64 << 7));
                assert_eq!(bp, (1u64 << 56) | (1u64 << 63));
            }
            Piece::Bishop => {
                // c1, f1 and c8, f8
                assert_eq!(wp, (1u64 << 2) | (1u64 << 5));
                assert_eq!(bp, (1u64 << 58) | (1u64 << 61));
            }
            Piece::Knight => {
                // b1, g1 and b8, g8
                assert_eq!(wp, (1u64 << 1) | (1u64 << 6));
                assert_eq!(bp, (1u64 << 57) | (1u64 << 62));
            }
            Piece::Pawn => {
                let white_pawn_masks = ((1u64 << 16) - 1) & !((1u64 << 8) - 1);
                let black_pawn_masks = ((1u64 << 56) - 1) & !((1u64 << 48) - 1);
                assert_eq!(wp, white_pawn_masks);
                assert_eq!(bp, black_pawn_masks);
            }
            Piece::Empty => {}
        }
    }
}

#[test]
fn test_fen_parse_pieces_rejects_bad_field() {
    let mut b = empty_board();
    assert_eq!(
        fen_parse_pieces(&mut b, "rnbqkbnr/pppppppp/8/8/8/8"),
        Err(FenError::PiecePart)
    );
    assert_eq!(
        fen_parse_pieces(&mut b, "rnbqkbnr/ppppppppp/8/8/8/8/PPPPPPPP/RNBQKBNR"),
        Err(FenError::PiecePart)
    );
    assert_eq!(
        fen_parse_pieces(&mut b, "rnbqkbnr/ppppppp/8/8/8/8/PPPPPPPP/RNBQKBNR"),
        Err(FenError::PiecePart)
    );
    assert_eq!(
        fen_parse_pieces(&mut b, "rnbqkbnx/pppppppp/8/8/8/8/PPPPPPPP/RNBQKBNR"),
        Err(FenError::PiecePart)
    );
    // an error leaves the board untouched
    assert_eq!(b.bb_sides, vec![0u64, 0u64]);
    assert_eq!(b.bb_pieces, vec![0u64; 12]);
}

#[test]
fn test_fen_parse_colour() {
    let mut b = empty_board();
    assert_eq!(fen_parse_colour(&mut b, "w"), Ok(()));
    assert_eq!(b.game_state.active_color, 0);
    assert_eq!(fen_parse_colour(&mut b, "b"), Ok(()));
    assert_eq!(b.game_state.active_color, 1);
    assert_eq!(fen_parse_colour(&mut b, "x"), Err(FenError::SidePart));
    assert_eq!(fen_parse_colour(&mut b, "wb"), Err(FenError::SidePart));
    assert_eq!(b.game_state.active_color, 1);
}

#[test]
fn test_fen_parse_castling_rights() {
    let mut b = empty_board();
    b.game_state.castling = 0;
    assert_eq!(fen_parse_castling_rights(&mut b, "KQkq"), Ok(()));
    assert_eq!(b.game_state.castling, 15);
    b.game_state.castling = 0;
    assert_eq!(fen_parse_castling_rights(&mut b, "Kq"), Ok(()));
    assert_eq!(b.game_state.castling, 1 | 8);
    b.game_state.castling = 0;
    assert_eq!(fen_parse_castling_rights(&mut b, "-"), Ok(()));
    assert_eq!(b.game_state.castling, 0);
    assert_eq!(
        fen_parse_castling_rights(&mut b, ""),
        Err(FenError::CastlingPart)
    );
    assert_eq!(
        fen_parse_castling_rights(&mut b, "KQkqK"),
        Err(FenError::CastlingPart)
    );
    assert_eq!(
        fen_parse_castling_rights(&mut b, "Kx"),
        Err(FenError::CastlingPart)
    );
}

#[test]
fn test_fen_parse_enpassant() {
    let mut b = empty_board();
    assert_eq!(fen_parse_enpassant(&mut b, "-"), Ok(()));
    assert_eq!(b.game_state.enpassant, None);
    assert_eq!(fen_parse_enpassant(&mut b, "e3"), Ok(()));
    assert_eq!(b.game_state.enpassant, Some(4));
    assert_eq!(fen_parse_enpassant(&mut b, "a6"), Ok(()));
    assert_eq!(b.game_state.enpassant, Some(0));
    assert_eq!(fen_parse_enpassant(&mut b, "e4"), Err(FenError::EnpassantPart));
    assert_eq!(fen_parse_enpassant(&mut b, "i3"), Err(FenError::EnpassantPart));
    assert_eq!(fen_parse_enpassant(&mut b, "x"), Err(FenError::EnpassantPart));
    assert_eq!(fen_parse_enpassant(&mut b, "e33"), Err(FenError::EnpassantPart));
    assert_eq!(b.game_state.enpassant, Some(0));
}

#[test]
fn test_fen_parse_clocks() {
    let mut b = empty_board();
    assert_eq!(fen_parse_half_move_clock(&mut b, "17"), Ok(()));
    assert_eq!(b.game_state.half_move_clock, 17);
    assert_eq!(fen_parse_half_move_clock(&mut b, "50"), Ok(()));
    assert_eq!(b.game_state.half_move_clock, 50);
    assert_eq!(
        fen_parse_half_move_clock(&mut b, "51"),
        Err(FenError::HalfMovePart)
    );
    assert_eq!(
        fen_parse_half_move_clock(&mut b, "x"),
        Err(FenError::HalfMovePart)
    );
    assert_eq!(fen_parse_full_move_counter(&mut b, "2048"), Ok(()));
    assert_eq!(b.game_state.fullmove_counter, 2048);
    assert_eq!(
        fen_parse_full_move_counter(&mut b, "2049"),
        Err(FenError::FullMovePart)
    );
    assert_eq!(
        fen_parse_full_move_counter(&mut b, ""),
        Err(FenError::FullMovePart)
    );
}

#[test]
fn test_fen_setup_start_position() {
    let mut b = empty_board();
    assert_eq!(b.fen_setup(None), Ok(()));
    assert_eq!(b.game_state.active_color, 0);
    assert_eq!(b.game_state.castling, 15);
    assert_eq!(b.game_state.enpassant, None);
    assert_eq!(b.game_state.half_move_clock, 0);
    assert_eq!(b.game_state.fullmove_counter, 1);
    assert_eq!(b.bb_sides[0], (1u64 << 16) - 1);
    b.init();
    assert_eq!(b.game_state.zobrist_key, b.init_zobrist_key());
    assert_eq!(b.piece_list[4], Piece::King);
    assert_eq!(b.piece_list[12], Piece::Pawn);
    assert_eq!(b.piece_list[35], Piece::Empty);
}

#[test]
fn test_fen_setup_short_form_and_errors() {
    let mut b = empty_board();
    // four-field short form is padded with "0" and "1"
    assert_eq!(
        b.fen_setup(Some("rnbqkbnr/pppppppp/8/8/8/8/PPPPPPPP/RNBQKBNR w KQkq -")),
        Ok(())
    );
    assert_eq!(b.game_state.half_move_clock, 0);
    assert_eq!(b.game_state.fullmove_counter, 1);

    let mut c = empty_board();
    assert_eq!(
        c.fen_setup(Some("rnbqkbnr/pppppppp/8/8/8/8/PPPPPPPP/RNBQKBNR z KQkq - 0 1")),
        Err(FenError::SidePart)
    );
    // a rejected setup leaves the board untouched
    assert_eq!(c.bb_pieces, vec![0u64; 12]);
    assert_eq!(c.game_state, GameState::new());

    // the error names the first failing stage, in parsing order
    assert_eq!(
        c.fen_setup(Some("bad z xx i9 99 999999")),
        Err(FenError::PiecePart)
    );
    assert_eq!(
        c.fen_setup(Some("rnbqkbnr/pppppppp/8/8/8/8/PPPPPPPP/RNBQKBNR z xx i9 99 999999")),
        Err(FenError::SidePart)
    );
    assert_eq!(
        c.fen_setup(Some("rnbqkbnr/pppppppp/8/8/8/8/PPPPPPPP/RNBQKBNR w xx i9 99 999999")),
        Err(FenError::CastlingPart)
    );
    assert_eq!(
        c.fen_setup(Some("rnbqkbnr/pppppppp/8/8/8/8/PPPPPPPP/RNBQKBNR w KQkq i9 99 999999")),
        Err(FenError::EnpassantPart)
    );
    assert_eq!(
        c.fen_setup(Some("rnbqkbnr/pppppppp/8/8/8/8/PPPPPPPP/RNBQKBNR w KQkq - 99 999999")),
        Err(FenError::HalfMovePart)
    );
    assert_eq!(
        c.fen_setup(Some("rnbqkbnr/pppppppp/8/8/8/8/PPPPPPPP/RNBQKBNR w KQkq - 0 999999")),
        Err(FenError::FullMovePart)
    );
}
