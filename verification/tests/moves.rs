use chess_engine::pieces::Pieces;
use chess_engine::util::{Board, GameStatus, Position, Teams};
use chess_engine::ChessBoard;

fn pos(text: &str) -> Position {
    Position::from_text(text.as_bytes()).expect("valid coordinate text")
}

/// A game state holding exactly the given masks (slot, squares), with the
/// aggregate mask derived from them.
fn custom(masks: &[(usize, u64)]) -> ChessBoard {
    let mut board = [0u64; 13];
    for (slot, m) in masks {
        board[*slot] |= m;
    }
    for k in 0..12 {
        board[12] |= board[k];
    }
    ChessBoard {
        board: Board(board),
        move_number: 0,
        fifty_move_counter: 100,
        castle_status: [true, true, true, true],
        last_pawn: None,
        game_status: GameStatus::Ongoing,
        significant_boards: Vec::new(),
    }
}

fn mask(text: &str) -> u64 {
    pos(text).0
}

fn count_team_moves(game: &ChessBoard, team: Teams) -> usize {
    let mut total = 0;
    let off = team.offset_index();
    for k in 0..6u8 {
        let piece = Pieces::from_index(k).unwrap();
        for p in game.get_pieces(off + k as usize) {
            total += piece.get_moves(p, team, game, false).len();
        }
    }
    total
}

#[test]
fn white_has_twenty_legal_first_moves() {
    let game = ChessBoard::new();
    assert_eq!(count_team_moves(&game, Teams::White), 20);
    assert_eq!(count_team_moves(&game, Teams::Black), 20);
}

#[test]
fn rook_rays_stop_at_every_edge() {
    // A rook in a corner: no ray may wrap around an edge.
    let game = custom(&[(3, mask("a1")), (5, mask("h2")), (11, mask("h7"))]);
    let moves = Pieces::Rook.get_moves(pos("a1"), Teams::White, &game, false);
    assert_eq!(moves.len(), 14);
    assert!(moves.contains(&pos("a8")));
    assert!(moves.contains(&pos("g1")));
    assert!(!moves.contains(&pos("b2")));
    // From the opposite corner.
    let game = custom(&[(3, mask("h8")), (5, mask("a2")), (11, mask("b6"))]);
    let moves = Pieces::Rook.get_moves(pos("h8"), Teams::White, &game, false);
    assert_eq!(moves.len(), 14);
    assert!(moves.contains(&pos("h1")));
    assert!(moves.contains(&pos("a8")));
    assert!(!moves.contains(&pos("g7")));
}

#[test]
fn bishop_rays_stop_at_every_edge() {
    let game = custom(&[(2, mask("a1")), (5, mask("h2")), (11, mask("h5"))]);
    let moves = Pieces::Bishop.get_moves(pos("a1"), Teams::White, &game, false);
    assert_eq!(moves.len(), 7);
    assert!(moves.contains(&pos("h8")));
    assert!(!moves.contains(&pos("b1")));
    let game = custom(&[(2, mask("d4")), (5, mask("h2")), (11, mask("h6"))]);
    let moves = Pieces::Bishop.get_moves(pos("d4"), Teams::White, &game, false);
    assert_eq!(moves.len(), 13);
}

#[test]
fn queen_is_the_union_of_bishop_and_rook() {
    let game = custom(&[(4, mask("d4")), (5, mask("h1")), (11, mask("h8"))]);
    let qm = Pieces::Queen.get_moves(pos("d4"), Teams::White, &game, false);
    let bm = Pieces::Bishop.get_moves(pos("d4"), Teams::White, &game, false);
    let rm = Pieces::Rook.get_moves(pos("d4"), Teams::White, &game, false);
    assert_eq!(qm.len(), bm.len() + rm.len());
    for m in &bm {
        assert!(qm.contains(m));
    }
    for m in &rm {
        assert!(qm.contains(m));
    }
}

#[test]
fn rays_take_the_first_enemy_square_and_stop_before_a_friendly_one() {
    // White rook d4, friendly pawn d6, enemy pawn f4.
    let game = custom(&[
        (3, mask("d4")),
        (0, mask("d6")),
        (6, mask("f4")),
        (5, mask("h1")),
        (11, mask("h8")),
    ]);
    let moves = Pieces::Rook.get_moves(pos("d4"), Teams::White, &game, false);
    assert!(moves.contains(&pos("d5")));
    assert!(!moves.contains(&pos("d6")));
    assert!(!moves.contains(&pos("d7")));
    assert!(moves.contains(&pos("e4")));
    assert!(moves.contains(&pos("f4")));
    assert!(!moves.contains(&pos("g4")));
}

#[test]
fn knight_jumps_respect_edges_and_own_pieces() {
    let game = custom(&[(1, mask("a1")), (5, mask("e1")), (11, mask("e8"))]);
    let moves = Pieces::Knight.get_moves(pos("a1"), Teams::White, &game, false);
    assert_eq!(moves.len(), 2);
    assert!(moves.contains(&pos("b3")));
    assert!(moves.contains(&pos("c2")));
    // A knight never lands on its own team.
    let game = custom(&[(1, mask("a1")), (0, mask("b3")), (5, mask("e1")), (11, mask("e8"))]);
    let moves = Pieces::Knight.get_moves(pos("a1"), Teams::White, &game, false);
    assert_eq!(moves.len(), 1);
    assert!(moves.contains(&pos("c2")));
}

#[test]
fn king_steps_one_square() {
    let game = custom(&[(5, mask("a1")), (11, mask("h8"))]);
    let moves = Pieces::King.get_moves(pos("a1"), Teams::White, &game, false);
    assert_eq!(moves.len(), 3);
    assert!(moves.contains(&pos("a2")));
    assert!(moves.contains(&pos("b1")));
    assert!(moves.contains(&pos("b2")));
}

#[test]
fn pawn_pushes_captures_and_blocks() {
    let game = ChessBoard::new();
    let moves = Pieces::Pawn.get_moves(pos("e2"), Teams::White, &game, false);
    assert_eq!(moves.len(), 2);
    assert!(moves.contains(&pos("e3")));
    assert!(moves.contains(&pos("e4")));
    // A blocked pawn has no push; diagonal captures need an enemy piece.
    let game = custom(&[
        (0, mask("e4")),
        (6, mask("e5") | mask("d5")),
        (5, mask("h1")),
        (11, mask("h8")),
    ]);
    let moves = Pieces::Pawn.get_moves(pos("e4"), Teams::White, &game, false);
    assert_eq!(moves.len(), 1);
    assert!(moves.contains(&pos("d5")));
    // The double push is blocked by a piece on the intermediate square.
    let game = custom(&[(0, mask("e2")), (6, mask("e3")), (5, mask("h1")), (11, mask("h8"))]);
    let moves = Pieces::Pawn.get_moves(pos("e2"), Teams::White, &game, false);
    assert_eq!(moves.len(), 0);
    // Black pawns move down the board.
    let game = ChessBoard::new();
    let moves = Pieces::Pawn.get_moves(pos("d7"), Teams::Black, &game, false);
    assert_eq!(moves.len(), 2);
    assert!(moves.contains(&pos("d6")));
    assert!(moves.contains(&pos("d5")));
}

#[test]
fn unfiltered_moves_are_a_superset_of_filtered_moves() {
    // A pinned rook: only moves along the pin line survive the filter.
    let pinned = custom(&[
        (5, mask("e1")),
        (3, mask("e2")),
        (9, mask("e7")),
        (11, mask("a8")),
    ]);
    let filtered = Pieces::Rook.get_moves(pos("e2"), Teams::White, &pinned, false);
    let unfiltered = Pieces::Rook.get_moves(pos("e2"), Teams::White, &pinned, true);
    for m in &filtered {
        assert!(unfiltered.contains(m));
    }
    assert!(unfiltered.contains(&pos("d2")));
    assert!(!filtered.contains(&pos("d2")));
    assert!(filtered.contains(&pos("e3")));
    assert!(filtered.contains(&pos("e7")));
    // The superset claim holds across the whole starting position too.
    let game = ChessBoard::new();
    for team in [Teams::White, Teams::Black] {
        let off = team.offset_index();
        for k in 0..6u8 {
            let piece = Pieces::from_index(k).unwrap();
            for p in game.get_pieces(off + k as usize) {
                let filtered = piece.get_moves(p, team, &game, false);
                let unfiltered = piece.get_moves(p, team, &game, true);
                for m in &filtered {
                    assert!(unfiltered.contains(m));
                }
            }
        }
    }
}

#[test]
fn check_detection_sees_each_attacker_kind() {
    // A black rook on e7 attacks e1 down the open file.
    let game = custom(&[(5, mask("e1")), (9, mask("e7")), (11, mask("a8"))]);
    assert!(chess_engine::util::is_in_check(&game, pos("e1"), Teams::White));
    // A blocking piece shields the king.
    let game = custom(&[(5, mask("e1")), (0, mask("e2")), (9, mask("e7")), (11, mask("a8"))]);
    assert!(!chess_engine::util::is_in_check(&game, pos("e1"), Teams::White));
    // A knight jumps over the shield.
    let game = custom(&[(5, mask("e1")), (0, mask("e2")), (7, mask("d3")), (11, mask("a8"))]);
    assert!(chess_engine::util::is_in_check(&game, pos("e1"), Teams::White));
    // An adjacent enemy pawn attacks diagonally.
    let game = custom(&[(5, mask("e1")), (6, mask("d2")), (11, mask("a8"))]);
    assert!(chess_engine::util::is_in_check(&game, pos("e1"), Teams::White));
}
