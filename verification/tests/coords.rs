use chess_engine::pieces::Pieces;
use chess_engine::util::{Directions, Position, Row, Teams};
use chess_engine::ChessBoard;

fn pos(text: &str) -> Position {
    Position::from_text(text.as_bytes()).expect("valid coordinate text")
}

#[test]
fn round_trip_all_squares() {
    for file in 0..8u8 {
        for rank in 0..8u8 {
            let p = Position::from_coords(file, rank);
            let text = p.to_text();
            let back = Position::from_text(&text).expect("round trip parses");
            assert_eq!(back, p);
            assert_eq!(back.square(), file + rank * 8);
        }
    }
}

#[test]
fn coordinate_text_is_file_letter_then_rank_digit() {
    assert_eq!(Position::from_coords(0, 0).to_text(), b"a1".to_vec());
    assert_eq!(Position::from_coords(7, 7).to_text(), b"h8".to_vec());
    assert_eq!(Position::from_coords(4, 1).to_text(), b"e2".to_vec());
    assert_eq!(pos("e2").square(), 12);
}

#[test]
fn malformed_coordinate_text_is_rejected() {
    assert!(Position::from_text(b"").is_none());
    assert!(Position::from_text(b"e").is_none());
    assert!(Position::from_text(b"e44").is_none());
    assert!(Position::from_text(b"i1").is_none());
    assert!(Position::from_text(b"a9").is_none());
    assert!(Position::from_text(b"a0").is_none());
    assert!(Position::from_text(b"1e").is_none());
}

#[test]
fn starting_pawns_land_on_the_documented_bit_pattern() {
    let game = ChessBoard::new();
    // White pawns fill rank 2, bits 8..16; Black pawns fill rank 7.
    assert_eq!(game.board.0[0], 0x00_00_00_00_00_00_FF_00u64);
    assert_eq!(game.board.0[6], 0x00_FF_00_00_00_00_00_00u64);
    // Kings stand on e1 and e8.
    assert_eq!(game.board.0[5], 1u64 << 4);
    assert_eq!(game.board.0[11], 1u64 << 60);
    // The aggregate mask is the union of the twelve placement masks.
    let mut union = 0u64;
    for k in 0..12 {
        union |= game.board.0[k];
    }
    assert_eq!(game.board.0[12], union);
}

#[test]
fn direction_offsets_respect_board_edges() {
    let a1 = pos("a1");
    let h8 = pos("h8");
    assert!(Directions::West.offset(a1).is_none());
    assert!(Directions::South.offset(a1).is_none());
    assert_eq!(Directions::East.offset(a1), Some(pos("b1")));
    assert_eq!(Directions::North.offset(a1), Some(pos("a2")));
    assert_eq!(Directions::NorthEast.offset(a1), Some(pos("b2")));
    assert!(Directions::North.offset(h8).is_none());
    assert!(Directions::East.offset(h8).is_none());
    assert_eq!(Directions::SouthWest.offset(h8), Some(pos("g7")));
    assert_eq!(Directions::FarNorth.offset(pos("e2")), Some(pos("e4")));
    assert!(Directions::FarNorth.offset(pos("e7")).is_none());
    assert_eq!(Directions::FarWest.offset(pos("c1")), Some(pos("a1")));
    assert!(Directions::FarWest.offset(pos("b1")).is_none());
}

#[test]
fn occupancy_queries_read_the_boards() {
    let game = ChessBoard::new();
    assert!(pos("e2").is_occupied(&game.board));
    assert!(!pos("e4").is_occupied(&game.board));
    assert!(pos("e2").is_occupied_by(&game.board, Pieces::Pawn, Teams::White));
    assert!(!pos("e2").is_occupied_by(&game.board, Pieces::Pawn, Teams::Black));
    assert!(pos("d8").is_occupied_by(&game.board, Pieces::Queen, Teams::Black));
    assert!(pos("e2").occupied_by_team(&game.board, Teams::White));
    assert!(!pos("e2").occupied_by_team(&game.board, Teams::Black));
    assert!(pos("a1").on_row(Row(chess_engine::pieces::BOTTOM_ROW_MASK)));
    assert!(!pos("a2").on_row(Row(chess_engine::pieces::BOTTOM_ROW_MASK)));
    assert!(pos("e2").on_row(Row(chess_engine::pieces::SECOND_ROW_MASK)));
    assert!(pos("e7").on_row(Row(chess_engine::pieces::SEVENTH_ROW_MASK)));
    assert!(pos("e8").on_row(Row(chess_engine::pieces::TOP_ROW_MASK)));
    assert_eq!(pos("a1").0, chess_engine::pieces::FIRST_SQUARE);
    let rooks = game.board.get_board(Pieces::Rook, Teams::White);
    assert_eq!(rooks.0, 0x81);
}

#[test]
fn piece_indices_and_promotion_kinds() {
    assert_eq!(Pieces::Pawn.index(), 0);
    assert_eq!(Pieces::King.index(), 5);
    assert!(matches!(Pieces::from_index(1), Some(Pieces::Knight)));
    assert!(matches!(Pieces::from_index(10), Some(Pieces::Queen)));
    assert!(Pieces::from_index(12).is_none());
    assert!(Pieces::from_index(200).is_none());
    assert!(Pieces::Queen.promotable_into());
    assert!(Pieces::Knight.promotable_into());
    assert!(Pieces::Rook.promotable_into());
    assert!(Pieces::Bishop.promotable_into());
    assert!(!Pieces::Pawn.promotable_into());
    assert!(!Pieces::King.promotable_into());
}

#[test]
fn team_offsets_and_ranges() {
    assert_eq!(Teams::White.offset_index(), 0);
    assert_eq!(Teams::Black.offset_index(), 6);
    assert!(matches!(Teams::White.opposite(), Teams::Black));
    let r = Teams::Black.pieces();
    assert_eq!((r.start, r.end), (6, 12));
    let r = Teams::White.non_king_pieces();
    assert_eq!((r.start, r.end), (0, 5));
    assert!(matches!(Teams::from_move_number(0), Teams::White));
    assert!(matches!(Teams::from_move_number(7), Teams::Black));
}

#[test]
fn render_shows_the_starting_position() {
    let game = ChessBoard::new();
    let text = game.render();
    assert_eq!(text.len(), 72);
    let s = String::from_utf8(text).expect("ascii dump");
    let lines: Vec<&str> = s.lines().collect();
    assert_eq!(lines.len(), 8);
    assert_eq!(lines[0], "RNBQKBNR");
    assert_eq!(lines[1], "PPPPPPPP");
    assert_eq!(lines[2], "........");
    assert_eq!(lines[6], "pppppppp");
    assert_eq!(lines[7], "rnbqkbnr");
}
