use chess_engine::pieces::Pieces;
use chess_engine::util::{Board, GameStatus, Position, Teams};
use chess_engine::ChessBoard;

fn pos(text: &str) -> Position {
    Position::from_text(text.as_bytes()).expect("valid coordinate text")
}

fn mask(text: &str) -> u64 {
    pos(text).0
}

fn custom(masks: &[(usize, u64)]) -> ChessBoard {
    let mut board = [0u64; 13];
    for (slot, m) in masks {
        board[*slot] |= m;
    }
    for k in 0..12 {
        board[12] |= board[k];
    }
    ChessBoard {
        board: Board(board),
        move_number: 0,
        fifty_move_counter: 100,
        castle_status: [true, true, true, true],
        last_pawn: None,
        game_status: GameStatus::Ongoing,
        significant_boards: Vec::new(),
    }
}

fn must_move(game: &mut ChessBoard, piece: Pieces, team: Teams, from: &str, to: &str) {
    assert!(
        game.move_piece(piece, team, pos(from), pos(to), None),
        "move {}{} was rejected",
        from,
        to
    );
}

#[test]
fn aggregate_stays_the_union_after_every_accepted_move() {
    let mut game = ChessBoard::new();
    let script = [
        (Pieces::Pawn, Teams::White, "e2", "e4"),
        (Pieces::Pawn, Teams::Black, "d7", "d5"),
        (Pieces::Pawn, Teams::White, "e4", "d5"),
        (Pieces::Queen, Teams::Black, "d8", "d5"),
        (Pieces::Knight, Teams::White, "b1", "c3"),
        (Pieces::Queen, Teams::Black, "d5", "a5"),
    ];
    for (piece, team, from, to) in script {
        must_move(&mut game, piece, team, from, to);
        let mut union = 0u64;
        for k in 0..12 {
            union |= game.board.0[k];
        }
        assert_eq!(game.board.0[12], union);
        // Exactly one king per team, always.
        assert_eq!(game.board.0[5].count_ones(), 1);
        assert_eq!(game.board.0[11].count_ones(), 1);
    }
}

#[test]
fn rejected_moves_leave_the_state_unchanged() {
    let mut game = ChessBoard::new();
    let before = game.board.0;
    // No knight stands on e2.
    assert!(!game.move_piece(Pieces::Knight, Teams::White, pos("e2"), pos("e4"), None));
    // A pawn cannot reach e5 from e2.
    assert!(!game.move_piece(Pieces::Pawn, Teams::White, pos("e2"), pos("e5"), None));
    // A rook cannot move through its own pawn.
    assert!(!game.move_piece(Pieces::Rook, Teams::White, pos("a1"), pos("a3"), None));
    assert_eq!(game.board.0, before);
    assert_eq!(game.move_number, 0);
    assert!(matches!(game.game_status, GameStatus::Ongoing));
}

#[test]
fn no_move_may_capture_a_king() {
    // A white rook stares at the black king: capturing it is refused.
    let mut game = custom(&[(3, mask("e4")), (5, mask("a1")), (11, mask("e8"))]);
    let before = game.board.0;
    assert!(!game.move_piece(Pieces::Rook, Teams::White, pos("e4"), pos("e8"), None));
    assert_eq!(game.board.0, before);
}

#[test]
fn promotion_replaces_the_pawn_and_gates_the_kind() {
    let start = custom(&[(0, mask("a7")), (5, mask("e1")), (11, mask("e8"))]);
    // A queen promotion replaces the pawn at the destination.
    let mut game = custom(&[(0, mask("a7")), (5, mask("e1")), (11, mask("e8"))]);
    assert!(game.move_piece(
        Pieces::Pawn,
        Teams::White,
        pos("a7"),
        pos("a8"),
        Some(Pieces::Queen)
    ));
    assert_eq!(game.board.0[0], 0, "the pawn is gone");
    assert_eq!(game.board.0[4], mask("a8"), "a queen stands on a8");
    assert_eq!(game.board.0[12], mask("a8") | mask("e1") | mask("e8"));
    // King and pawn are not promotion kinds; a missing kind also rejects.
    for bad in [Some(Pieces::King), Some(Pieces::Pawn), None] {
        let mut game = custom(&[(0, mask("a7")), (5, mask("e1")), (11, mask("e8"))]);
        assert!(!game.move_piece(Pieces::Pawn, Teams::White, pos("a7"), pos("a8"), bad));
        assert_eq!(game.board.0, start.board.0);
        assert_eq!(game.move_number, 0);
    }
    // A capture onto the back rank promotes too, removing the captured
    // piece.
    let mut game = custom(&[(0, mask("b7")), (9, mask("a8")), (5, mask("e1")), (11, mask("e8"))]);
    assert!(game.move_piece(
        Pieces::Pawn,
        Teams::White,
        pos("b7"),
        pos("a8"),
        Some(Pieces::Rook)
    ));
    assert_eq!(game.board.0[0], 0);
    assert_eq!(game.board.0[3], mask("a8"), "a white rook stands on a8");
    assert_eq!(game.board.0[9], 0, "the black rook is taken");
    // Black promotes on rank 1.
    let mut game = custom(&[(6, mask("h2")), (5, mask("e1")), (11, mask("e8"))]);
    assert!(game.move_piece(
        Pieces::Pawn,
        Teams::Black,
        pos("h2"),
        pos("h1"),
        Some(Pieces::Knight)
    ));
    assert_eq!(game.board.0[6], 0);
    assert_eq!(game.board.0[7], mask("h1"));
}

#[test]
fn en_passant_takes_the_pawn_beside_the_destination() {
    let mut game = ChessBoard::new();
    must_move(&mut game, Pieces::Pawn, Teams::White, "e2", "e4");
    must_move(&mut game, Pieces::Pawn, Teams::Black, "a7", "a6");
    must_move(&mut game, Pieces::Pawn, Teams::White, "e4", "e5");
    // A two-square advance right beside the white pawn...
    must_move(&mut game, Pieces::Pawn, Teams::Black, "d7", "d5");
    assert_eq!(game.last_pawn, Some(pos("d5")));
    // ...lets it capture diagonally onto the square behind the pawn.
    must_move(&mut game, Pieces::Pawn, Teams::White, "e5", "d6");
    assert_eq!(game.board.0[0] & mask("d6"), mask("d6"), "the capturing pawn stands on d6");
    assert_eq!(game.board.0[6] & mask("d5"), 0, "the passed pawn is taken off d5");
    let mut union = 0u64;
    for k in 0..12 {
        union |= game.board.0[k];
    }
    assert_eq!(game.board.0[12], union);
}

#[test]
fn en_passant_expires_after_one_half_move() {
    let mut game = ChessBoard::new();
    must_move(&mut game, Pieces::Pawn, Teams::White, "e2", "e4");
    must_move(&mut game, Pieces::Pawn, Teams::Black, "a7", "a6");
    must_move(&mut game, Pieces::Pawn, Teams::White, "e4", "e5");
    must_move(&mut game, Pieces::Pawn, Teams::Black, "d7", "d5");
    // An intervening pair of quiet moves clears the memory.
    must_move(&mut game, Pieces::Knight, Teams::White, "b1", "c3");
    assert_eq!(game.last_pawn, None);
    must_move(&mut game, Pieces::Knight, Teams::Black, "b8", "c6");
    let before = game.board.0;
    assert!(!game.move_piece(Pieces::Pawn, Teams::White, pos("e5"), pos("d6"), None));
    assert_eq!(game.board.0, before);
}

#[test]
fn fools_mate_ends_with_a_black_win() {
    let mut game = ChessBoard::new();
    must_move(&mut game, Pieces::Pawn, Teams::White, "f2", "f3");
    assert!(matches!(game.game_status, GameStatus::Ongoing));
    must_move(&mut game, Pieces::Pawn, Teams::Black, "e7", "e5");
    must_move(&mut game, Pieces::Pawn, Teams::White, "g2", "g4");
    assert!(matches!(game.game_status, GameStatus::Ongoing));
    must_move(&mut game, Pieces::Queen, Teams::Black, "d8", "h4");
    assert!(matches!(game.game_status, GameStatus::BlackWin));
    // A finished game accepts no further move.
    let before = game.board.0;
    assert!(!game.move_piece(Pieces::Pawn, Teams::White, pos("a2"), pos("a3"), None));
    assert_eq!(game.board.0, before);
}

#[test]
fn a_cornered_king_with_no_moves_is_stalemate() {
    let mut game = custom(&[(5, mask("b6")), (4, mask("c5")), (11, mask("a8"))]);
    must_move(&mut game, Pieces::Queen, Teams::White, "c5", "c7");
    assert!(matches!(game.game_status, GameStatus::DrawByStalemate));
}

#[test]
fn a_hundred_quiet_half_moves_draw_by_the_fifty_move_rule() {
    let mut game = ChessBoard::new();
    must_move(&mut game, Pieces::Pawn, Teams::White, "e2", "e3");
    must_move(&mut game, Pieces::Pawn, Teams::Black, "e7", "e6");
    // The white queen walks a five-square loop and the black knight a
    // fourteen-square loop: no capture, no pawn move, and no piece
    // arrangement ever occurs three times.
    let queen_loop = [("d1", "e2"), ("e2", "f3"), ("f3", "g4"), ("g4", "h5"), ("h5", "d1")];
    let knight_loop = [
        ("b8", "c6"),
        ("c6", "a5"),
        ("a5", "c4"),
        ("c4", "a3"),
        ("a3", "b5"),
        ("b5", "d4"),
        ("d4", "b3"),
        ("b3", "c5"),
        ("c5", "a4"),
        ("a4", "b6"),
        ("b6", "d5"),
        ("d5", "b4"),
        ("b4", "a6"),
        ("a6", "b8"),
    ];
    for k in 0..50usize {
        let (qf, qt) = queen_loop[k % 5];
        must_move(&mut game, Pieces::Queen, Teams::White, qf, qt);
        assert!(
            matches!(game.game_status, GameStatus::Ongoing),
            "drew early on white move {}",
            k
        );
        let (nf, nt) = knight_loop[k % 14];
        must_move(&mut game, Pieces::Knight, Teams::Black, nf, nt);
        if k < 49 {
            assert!(
                matches!(game.game_status, GameStatus::Ongoing),
                "drew early on black move {}",
                k
            );
        }
    }
    assert!(matches!(game.game_status, GameStatus::DrawByFiftyMoveRule));
}

#[test]
fn a_thrice_repeated_arrangement_draws_by_repetition() {
    let mut game = ChessBoard::new();
    let shuffle = [
        (Teams::White, "b1", "c3"),
        (Teams::Black, "b8", "c6"),
        (Teams::White, "c3", "b1"),
        (Teams::Black, "c6", "b8"),
    ];
    // Two full shuffles, then the ninth half-move shows the arrangement
    // after the first knight move for the third time.
    for k in 0..8usize {
        let (team, from, to) = shuffle[k % 4];
        must_move(&mut game, Pieces::Knight, team, from, to);
        assert!(matches!(game.game_status, GameStatus::Ongoing));
    }
    must_move(&mut game, Pieces::Knight, Teams::White, "b1", "c3");
    assert!(matches!(game.game_status, GameStatus::DrawByRepetition));
}

#[test]
fn the_fifty_move_counter_resets_on_pawn_moves_and_captures() {
    let mut game = ChessBoard::new();
    assert_eq!(game.fifty_move_counter, 100);
    must_move(&mut game, Pieces::Knight, Teams::White, "b1", "c3");
    assert_eq!(game.fifty_move_counter, 99);
    must_move(&mut game, Pieces::Pawn, Teams::Black, "e7", "e5");
    assert_eq!(game.fifty_move_counter, 100);
    must_move(&mut game, Pieces::Knight, Teams::White, "c3", "d5");
    assert_eq!(game.fifty_move_counter, 99);
    must_move(&mut game, Pieces::Pawn, Teams::Black, "e5", "e4");
    assert_eq!(game.fifty_move_counter, 100);
    must_move(&mut game, Pieces::Knight, Teams::White, "d5", "c7");
    assert_eq!(game.fifty_move_counter, 100, "a capture resets the counter");
}

#[test]
fn the_game_status_reports_each_teams_checkmate() {
    // Back-rank mate delivered by White: the black king is boxed in.
    let mut game = custom(&[
        (3, mask("a1")),
        (5, mask("g1")),
        (11, mask("g8")),
        (6, mask("f7") | mask("g7") | mask("h7")),
    ]);
    must_move(&mut game, Pieces::Rook, Teams::White, "a1", "a8");
    assert!(matches!(game.game_status, GameStatus::WhiteWin));
}
