//! A rules engine for standard chess.
//!
//! The engine keeps the authoritative board state as thirteen 64-bit
//! occupancy masks (six piece kinds for each of two teams, plus one
//! aggregate mask), generates legal moves per piece, applies moves with
//! the special-case semantics (promotion, en passant, fifty-move and
//! repetition draws) and reports the terminal game status.
//!
//! Square numbering is fixed throughout: bit index = file + rank * 8,
//! with file 0 = the `a` file and rank 0 = White's back rank.
//!
//! Castling is deliberately not implemented: the eligibility flags are
//! tracked but no move generation or application consumes them.
use vstd::prelude::*;

pub mod attacks;
pub mod laws;
pub mod model;
pub mod pieces;
pub mod util;

use crate::model::{bit, boards_ok, is_mask, union12};
use crate::util::{Board, GameStatus, Position, Teams};
use vstd::prelude::*;

verus! {

/// The whole game state: the board, the counters that drive the draw
/// rules, the en-passant memory and the current status.
pub struct ChessBoard {
    /// The thirteen occupancy masks.
    pub board: Board,
    /// The half-move number: even values are White to move, odd Black.
    pub move_number: u16,
    /// Counts down from 100; reset to 100 by any capture or pawn move.
    /// The game is drawn when it reaches zero.
    pub fifty_move_counter: u8,
    /// Castle eligibility, tracked but consumed by nothing: castling is
    /// unimplemented.
    pub castle_status: [bool; 4],
    /// The destination of the immediately preceding two-square pawn
    /// advance, if the preceding half-move was one.
    pub last_pawn: Option<Position>,
    /// The status of the game.
    pub game_status: GameStatus,
    /// How often each twelve-mask piece arrangement has stood since the
    /// game began, for the repetition draw.
    pub significant_boards: Vec<([u64; 12], u8)>,
}

impl ChessBoard {
    /// The thirteen masks as a sequence.
    pub open spec fn boards(&self) -> Seq<u64> {
        self.board.0@
    }

    /// The en-passant memory as an optional square index.
    pub open spec fn lp(&self) -> Option<int> {
        match self.last_pawn {
            Some(p) => Some(p.sq()),
            None => None,
        }
    }

    /// The en-passant memory holds a well-formed position.
    pub open spec fn lp_wf(&self) -> bool {
        match self.last_pawn {
            Some(p) => p.wf(),
            None => true,
        }
    }

    /// The standing invariant of a game state: the aggregate mask is the
    /// union of the twelve placement masks, no two placement masks share a
    /// square, each team has exactly one king, the en-passant memory is a
    /// well-formed square, every repetition count is between one and
    /// three, and an ongoing game still has quiet half-moves left before
    /// the fifty-move draw.
    pub open spec fn wf(&self) -> bool {
        &&& boards_ok(self.boards())
        &&& is_mask(self.boards()[Teams::White.off() + 5])
        &&& is_mask(self.boards()[Teams::Black.off() + 5])
        &&& self.lp_wf()
        &&& (self.game_status is Ongoing ==> self.fifty_move_counter >= 1)
        &&& forall|t: int|
            0 <= t < self.significant_boards@.len() ==> 1 <= (
            #[trigger] self.significant_boards@[t]).1 <= 3
        &&& (self.game_status is Ongoing ==> forall|t: int|
            0 <= t < self.significant_boards@.len() ==> (
            #[trigger] self.significant_boards@[t]).1 <= 2)
    }

    /// A fresh game: the canonical starting position, move number 0,
    /// fifty-move counter 100, all castle flags set, no en-passant memory,
    /// status `Ongoing` and an empty repetition table.
    pub fn new() -> (r: Self)
        ensures
            r.boards() =~= starting_boards(),
            r.move_number == 0,
            r.fifty_move_counter == 100,
            r.castle_status@ =~= seq![true, true, true, true],
            r.last_pawn is None,
            r.game_status is Ongoing,
            r.significant_boards@.len() == 0,
            r.wf(),
    {
        let out = Self {
            board: Board(
                [
                    0x00_00_00_00_00_00_FF_00u64,  // White pawns
                    0x00_00_00_00_00_00_00_42u64,  // White knights
                    0x00_00_00_00_00_00_00_24u64,  // White bishops
                    0x00_00_00_00_00_00_00_81u64,  // White rooks
                    0x00_00_00_00_00_00_00_08u64,  // White queen
                    0x00_00_00_00_00_00_00_10u64,  // White king
                    0x00_FF_00_00_00_00_00_00u64,  // Black pawns
                    0x42_00_00_00_00_00_00_00u64,  // Black knights
                    0x24_00_00_00_00_00_00_00u64,  // Black bishops
                    0x81_00_00_00_00_00_00_00u64,  // Black rooks
                    0x08_00_00_00_00_00_00_00u64,  // Black queen
                    0x10_00_00_00_00_00_00_00u64,  // Black king
                    0xFF_FF_00_00_00_00_FF_FFu64,  // all pieces
                ],
            ),
            move_number: 0,
            fifty_move_counter: 100,
            castle_status: [true, true, true, true],
            last_pawn: None,
            game_status: GameStatus::Ongoing,
            significant_boards: Vec::new(),
        };
        proof {
            lemma_starting_boards_ok();
            assert(out.boards() =~= starting_boards());
        }
        out
    }

    /// The outcome for one team, once the draw counters are settled: still
    /// ongoing while the team has any legal move; otherwise the opposing
    /// team wins if this team's king is attacked, else stalemate. The
    /// king's own mobility is tested first as a fast path; the full scan
    /// that follows subsumes it.
    pub fn checkmate_or_stalemate(&self, team: Teams) -> (r: GameStatus)
        requires
            self.wf(),
        ensures
            r == crate::model::mate_status(self.boards(), self.lp(), team),
    {
        let ghost bs = self.boards();
        let ghost lp = self.lp();
        let toff = team.offset_index();
        let kb = self.board.0[toff + 5];
        proof {
            let w = choose|i: int| 0 <= i < 64 && kb == crate::model::mask_of(i);
            crate::model::lemma_mask_nonzero(w);
            crate::model::lemma_first_bit_finds(kb, 0, w);
        }
        let ki = crate::attacks::first_bit(kb);
        proof {
            crate::model::lemma_sq_whole(ki as int);
        }
        let kp = Position::from_coords(ki % 8, ki / 8);
        // Fast path: a mobile king means the game goes on.
        let kmoves = crate::pieces::Pieces::King.get_moves(kp, team, self, false);
        if kmoves.len() > 0 {
            proof {
                lemma_some_move(bs, lp, crate::pieces::Pieces::King, team, 5, ki as int, kmoves@);
            }
            return GameStatus::Ongoing;
        }
        let mut pk: usize = 0;
        while pk < 6
            invariant
                pk <= 6,
                self.wf(),
                toff == team.off(),
                bs == self.boards(),
                lp == self.lp(),
                forall|k: int, i: int|
                    toff <= k < toff + pk && 0 <= i < 64 ==> !(#[trigger] bit(bs[k], i)
                        && crate::model::piece_has_move(
                        bs,
                        lp,
                        crate::model::piece_at(k - toff as int),
                        team,
                        i,
                    )),
            decreases 6 - pk,
        {
            let piece = match pk {
                0 => crate::pieces::Pieces::Pawn,
                1 => crate::pieces::Pieces::Knight,
                2 => crate::pieces::Pieces::Bishop,
                3 => crate::pieces::Pieces::Rook,
                4 => crate::pieces::Pieces::Queen,
                _ => crate::pieces::Pieces::King,
            };
            assert(piece == crate::model::piece_at(pk as int));
            let bboard = self.board.0[toff + pk];
            let mut sqi: u8 = 0;
            while sqi < 64
                invariant
                    sqi <= 64,
                    pk < 6,
                    self.wf(),
                    toff == team.off(),
                    bs == self.boards(),
                    lp == self.lp(),
                    piece == crate::model::piece_at(pk as int),
                    bboard == bs[toff as int + pk as int],
                    forall|k: int, i: int|
                        toff <= k < toff + pk && 0 <= i < 64 ==> !(#[trigger] bit(bs[k], i)
                            && crate::model::piece_has_move(
                            bs,
                            lp,
                            crate::model::piece_at(k - toff as int),
                            team,
                            i,
                        )),
                    forall|i: int|
                        0 <= i < sqi ==> !(#[trigger] bit(bs[toff as int + pk as int], i)
                            && crate::model::piece_has_move(bs, lp, piece, team, i)),
                decreases 64 - sqi,
            {
                proof {
                    crate::util::lemma_mask_of_sq(sqi as int);
                }
                if bboard & (1u64 << sqi) != 0 {
                    let fp = Position(1u64 << sqi);
                    let mvs = piece.get_moves(fp, team, self, false);
                    if mvs.len() > 0 {
                        proof {
                            lemma_some_move(bs, lp, piece, team, pk as int, sqi as int, mvs@);
                        }
                        return GameStatus::Ongoing;
                    }
                    proof {
                        assert forall|j: int| 0 <= j < 64 implies !crate::model::legal_move_ok(
                            bs,
                            lp,
                            piece,
                            team,
                            sqi as int,
                            j,
                        ) by {
                            assert(!mvs@.contains(Position::at_sq(j)));
                        }
                    }
                }
                sqi = sqi + 1;
            }
            assert forall|k: int, i: int|
                toff <= k < toff + pk + 1 && 0 <= i < 64 implies !(#[trigger] bit(bs[k], i)
                && crate::model::piece_has_move(
                bs,
                lp,
                crate::model::piece_at(k - toff as int),
                team,
                i,
            )) by {
                if k == toff + pk {
                    assert(!(bit(bs[toff as int + pk as int], i) && crate::model::piece_has_move(
                        bs,
                        lp,
                        piece,
                        team,
                        i,
                    )));
                }
            }
            pk = pk + 1;
        }
        proof {
            if crate::model::team_has_legal_move(bs, lp, team) {
                let (k, i) = choose|k: int, i: int|
                    team.off() <= k < team.off() + 6 && 0 <= i < 64 && #[trigger] bit(bs[k], i)
                        && crate::model::piece_has_move(
                        bs,
                        lp,
                        crate::model::piece_at(k - team.off()),
                        team,
                        i,
                    );
                assert(!(bit(bs[k], i) && crate::model::piece_has_move(
                    bs,
                    lp,
                    crate::model::piece_at(k - toff as int),
                    team,
                    i,
                )));
            }
        }
        let win_if_no_moves = crate::util::is_in_check(self, kp, team);
        if win_if_no_moves {
            team.opposite().win_status()
        } else {
            GameStatus::DrawByStalemate
        }
    }

    /// Validates and commits one move. A move is rejected — leaving the
    /// whole state unchanged — where the game is over, the stated piece
    /// does not stand on the source square, the destination fails the
    /// check-filtered movement rules, the destination holds the opposing
    /// king, or a pawn reaching the opponent's back rank names no valid
    /// promotion. An accepted move removes any captured piece (the pawn
    /// beside the destination on an en-passant capture), relocates the
    /// moving piece (placing the promotion kind where one applies),
    /// remembers a two-square pawn advance for en passant, and advances
    /// the counters and the game status.
    #[verifier::rlimit(100)]
    pub fn move_piece(
        &mut self,
        piece: crate::pieces::Pieces,
        team: Teams,
        location: Position,
        target: Position,
        promotion: Option<crate::pieces::Pieces>,
    ) -> (r: bool)
        requires
            old(self).wf(),
            location.wf(),
            target.wf(),
        ensures
            final(self).wf(),
            r == move_accepted(*old(self), piece, team, location.sq(), target.sq(), promotion),
            !r ==> *final(self) == *old(self),
            r ==> ({
                let bs = old(self).boards();
                let from = location.sq();
                let to = target.sq();
                let placed = placed_kind(piece, team, to, promotion);
                let ep = ep_taken(bs, piece, from, to);
                let bs2 = crate::model::commit_boards(bs, piece, team, from, to, placed, ep);
                let lp2: Option<int> = if double_step(piece, from, to) {
                    Some(to)
                } else {
                    None
                };
                let significant = piece is Pawn || crate::util::team_occ(
                    bs,
                    team.spec_opposite(),
                    to,
                );
                &&& final(self).boards() =~= bs2
                &&& final(self).last_pawn == (if double_step(piece, from, to) {
                    Some(target)
                } else {
                    None::<Position>
                })
                &&& final(self).castle_status == old(self).castle_status
                &&& final(self).move_number == (if old(self).move_number == 0xFFFF {
                    0u16
                } else {
                    (old(self).move_number + 1) as u16
                })
                &&& final(self).fifty_move_counter == (if significant {
                    100u8
                } else {
                    (old(self).fifty_move_counter - 1) as u8
                })
                &&& ((!significant && old(self).fifty_move_counter == 1) ==> (final(self)).game_status is DrawByFiftyMoveRule && final(self).significant_boards == old(self).significant_boards)
                &&& ((significant || old(self).fifty_move_counter != 1) ==> ({
                    let key = snapshot_of(bs2);
                    let oldc = count_from(old(self).significant_boards@, key, 0);
                    &&& count_from(final(self).significant_boards@, key, 0) == oldc + 1
                    &&& forall|k2: Seq<u64>|
                        k2 != key ==> #[trigger] count_from(final(self).significant_boards@, k2, 0)
                            == count_from(old(self).significant_boards@, k2, 0)
                    &&& final(self).game_status == (if oldc + 1 >= 3 {
                        GameStatus::DrawByRepetition
                    } else {
                        crate::model::evaluate_mates(bs2, lp2)
                    })
                }))
            }),
    {
        let ghost bs = self.boards();
        let ghost lp = self.lp();
        proof {
            crate::util::lemma_sq_mask(location);
            crate::util::lemma_sq_mask(target);
        }
        let from = location.square();
        let to = target.square();
        let ghost fromsq = location.sq();
        let ghost tosq = target.sq();
        // The game must still be ongoing.
        if !matches!(self.game_status, GameStatus::Ongoing) {
            return false;
        }
        let toff = team.offset_index();
        let enemy = team.opposite();
        let eoff = enemy.offset_index();
        // The stated piece must stand on the source square.
        if self.board.0[toff + piece.index()] & location.0 == 0 {
            return false;
        }
        // The destination must pass the check-filtered movement rules.
        let legal_moves = piece.get_moves(location, team, self, false);
        if !crate::util::contains_pos(&legal_moves, target) {
            proof {
                assert(!legal_moves@.contains(Position::at_sq(tosq)));
            }
            return false;
        }
        proof {
            assert(legal_moves@.contains(Position::at_sq(tosq)));
        }
        // No move may capture a king.
        if self.board.0[eoff + 5] & target.0 != 0 {
            return false;
        }
        // A pawn landing on the opponent's back rank must promote.
        let is_pawn = matches!(piece, crate::pieces::Pieces::Pawn);
        let promo_rank: u8 = match team {
            Teams::White => 7,
            Teams::Black => 0,
        };
        let promotes = is_pawn && to / 8 == promo_rank;
        let placed: crate::pieces::Pieces = if promotes {
            match promotion {
                Some(p) => {
                    if !p.promotable_into() {
                        return false;
                    }
                    p
                },
                None => {
                    return false;
                },
            }
        } else {
            piece
        };
        assert(move_accepted(*old(self), piece, team, fromsq, tosq, promotion));
        // What the move captures and remembers, read before any mutation.
        let captured = target.occupied_by_team(&self.board, enemy);
        let is_ep = is_pawn && to % 8 != from % 8 && !target.is_occupied(&self.board);
        let ep_pos: Option<Position> = if is_ep {
            Some(Position::from_coords(to % 8, from / 8))
        } else {
            None
        };
        let ghost ep = ep_taken(bs, piece, fromsq, tosq);
        proof {
            if is_ep {
                crate::model::lemma_ep_facts(bs, lp, team, fromsq, tosq);
            }
        }
        let significant = is_pawn || captured;
        let dbl = is_pawn && (to / 8 == from / 8 + 2 || from / 8 == to / 8 + 2);
        // Commit: clear the destination from every enemy mask, take an
        // en-passant pawn, relocate the moving piece, and keep the
        // aggregate mask in step.
        self.board.0[eoff] = self.board.0[eoff] & !target.0;
        self.board.0[eoff + 1] = self.board.0[eoff + 1] & !target.0;
        self.board.0[eoff + 2] = self.board.0[eoff + 2] & !target.0;
        self.board.0[eoff + 3] = self.board.0[eoff + 3] & !target.0;
        self.board.0[eoff + 4] = self.board.0[eoff + 4] & !target.0;
        self.board.0[eoff + 5] = self.board.0[eoff + 5] & !target.0;
        let mut agg = self.board.0[12] & !location.0;
        match &ep_pos {
            Some(l) => {
                proof {
                    crate::util::lemma_sq_mask(*l);
                }
                self.board.0[eoff] = self.board.0[eoff] & !l.0;
                agg = agg & !l.0;
            },
            None => {},
        }
        let src = toff + piece.index();
        self.board.0[src] = self.board.0[src] & !location.0;
        let dst = toff + placed.index();
        self.board.0[dst] = self.board.0[dst] | target.0;
        self.board.0[12] = agg | target.0;
        let ghost bs2 = crate::model::commit_boards(bs, piece, team, fromsq, tosq, placed, ep);
        proof {
            assert forall|k: int| 0 <= k < 13 implies self.boards()[k] == crate::model::commit_entry(
                bs,
                piece,
                team,
                fromsq,
                tosq,
                placed,
                ep,
                k,
            ) by {
            }
            assert(self.boards() =~= bs2);
            crate::model::lemma_dest_not_own(bs, lp, piece, team, fromsq, tosq);
            crate::model::lemma_commit_wf(bs, piece, team, fromsq, tosq, placed, ep);
        }
        // A two-square pawn advance is remembered for en passant; any
        // other move clears the memory.
        self.last_pawn = if dbl {
            Some(target)
        } else {
            None
        };
        assert(self.wf());
        self.check_game_status(significant);
        true
    }

    /// Advances the end-of-move bookkeeping and sets the game status:
    /// the move counter advances; the fifty-move counter resets on a
    /// significant half-move (a capture or pawn move) and otherwise counts
    /// down, drawing the game at zero; the repetition count of the piece
    /// arrangement rises by one, drawing the game at three; otherwise the
    /// board is examined for checkmate and stalemate, White first.
    fn check_game_status(&mut self, significant: bool)
        requires
            old(self).wf(),
            old(self).game_status is Ongoing,
        ensures
            final(self).wf(),
            final(self).board == old(self).board,
            final(self).last_pawn == old(self).last_pawn,
            final(self).castle_status == old(self).castle_status,
            final(self).move_number == (if old(self).move_number == 0xFFFF {
                0u16
            } else {
                (old(self).move_number + 1) as u16
            }),
            final(self).fifty_move_counter == (if significant {
                100u8
            } else {
                (old(self).fifty_move_counter - 1) as u8
            }),
            (!significant && old(self).fifty_move_counter == 1) ==> ((final(self)).game_status is DrawByFiftyMoveRule && final(self).significant_boards == old(self).significant_boards),
            (significant || old(self).fifty_move_counter != 1) ==> ({
                let key = snapshot_of(old(self).boards());
                let oldc = count_from(old(self).significant_boards@, key, 0);
                &&& count_from(final(self).significant_boards@, key, 0) == oldc + 1
                &&& forall|k2: Seq<u64>|
                    k2 != key ==> #[trigger] count_from(final(self).significant_boards@, k2, 0)
                        == count_from(old(self).significant_boards@, k2, 0)
                &&& final(self).game_status == (if oldc + 1 >= 3 {
                    GameStatus::DrawByRepetition
                } else {
                    crate::model::evaluate_mates(old(self).boards(), old(self).lp())
                })
            }),
    {
        if self.move_number == 0xFFFF {
            self.move_number = 0;
        } else {
            self.move_number = self.move_number + 1;
        }
        if significant {
            self.fifty_move_counter = 100;
        } else {
            self.fifty_move_counter = self.fifty_move_counter - 1;
            if self.fifty_move_counter == 0 {
                self.game_status = GameStatus::DrawByFiftyMoveRule;
                return ;
            }
        }
        let key: [u64; 12] = [
            self.board.0[0],
            self.board.0[1],
            self.board.0[2],
            self.board.0[3],
            self.board.0[4],
            self.board.0[5],
            self.board.0[6],
            self.board.0[7],
            self.board.0[8],
            self.board.0[9],
            self.board.0[10],
            self.board.0[11],
        ];
        proof {
            assert(key@ =~= snapshot_of(self.boards()));
        }
        let ghost tbl = self.significant_boards@;
        let mut t: usize = 0;
        let mut found = false;
        let mut newc: u8 = 1;
        while !found && t < self.significant_boards.len()
            invariant
                t <= tbl.len(),
                key@ == snapshot_of(old(self).boards()),
                !found ==> self.significant_boards@ == tbl,
                forall|u: int| 0 <= u < t ==> (#[trigger] tbl[u]).0@ != key@,
                found ==> ({
                    &&& count_from(self.significant_boards@, key@, 0) == count_from(tbl, key@, 0)
                        + 1
                    &&& newc == count_from(tbl, key@, 0) + 1
                    &&& forall|k2: Seq<u64>|
                        k2 != key@ ==> #[trigger] count_from(self.significant_boards@, k2, 0)
                            == count_from(tbl, k2, 0)
                    &&& forall|u: int|
                        0 <= u < self.significant_boards@.len() ==> 1 <= (
                        #[trigger] self.significant_boards@[u]).1 <= 3
                    &&& (newc <= 2 ==> forall|u: int|
                        0 <= u < self.significant_boards@.len() ==> (
                        #[trigger] self.significant_boards@[u]).1 <= 2)
                }),
                tbl == old(self).significant_boards@,
                tbl.len() == self.significant_boards@.len(),
                old(self).wf(),
                old(self).game_status is Ongoing,
                self.board == old(self).board,
                self.last_pawn == old(self).last_pawn,
                self.castle_status == old(self).castle_status,
                self.game_status == old(self).game_status,
                self.move_number == (if old(self).move_number == 0xFFFF {
                    0u16
                } else {
                    (old(self).move_number + 1) as u16
                }),
                self.fifty_move_counter == (if significant {
                    100u8
                } else {
                    (old(self).fifty_move_counter - 1) as u8
                }),
                self.fifty_move_counter >= 1,
            decreases (if found {
                0int
            } else {
                1int
            }), tbl.len() - t,
        {
            let e0 = self.significant_boards[t].0;
            if keys_equal(&e0, &key) {
                let c = self.significant_boards[t].1;
                proof {
                    lemma_count_first(tbl, key@, 0, t as int);
                }
                newc = c + 1;
                self.significant_boards[t] = (e0, newc);
                proof {
                    let ntbl = self.significant_boards@;
                    assert(ntbl == tbl.update(t as int, (e0, newc)));
                    lemma_count_first(ntbl, key@, 0, t as int);
                    assert forall|k2: Seq<u64>| k2 != key@ implies #[trigger] count_from(
                        ntbl,
                        k2,
                        0,
                    ) == count_from(tbl, k2, 0) by {
                        lemma_count_update_other(tbl, t as int, (e0, newc), k2, 0);
                    }
                }
                found = true;
            } else {
                t = t + 1;
            }
        }
        if !found {
            proof {
                lemma_count_none(tbl, key@, 0);
            }
            self.significant_boards.push((key, 1));
            proof {
                let ntbl = self.significant_boards@;
                lemma_count_first(ntbl, key@, 0, tbl.len() as int);
                assert forall|k2: Seq<u64>| k2 != key@ implies #[trigger] count_from(ntbl, k2, 0)
                    == count_from(tbl, k2, 0) by {
                    lemma_count_push_other(tbl, (key, 1), k2, 0);
                }
            }
            newc = 1;
        }
        if newc >= 3 {
            self.game_status = GameStatus::DrawByRepetition;
            return ;
        }
        assert(self.wf());
        let w = self.checkmate_or_stalemate(Teams::White);
        let st = match w {
            GameStatus::Ongoing => self.checkmate_or_stalemate(Teams::Black),
            _ => w,
        };
        self.game_status = st;
    }

    /// A plain textual dump of the board for human inspection: one glyph
    /// per square (upper case for White, lower case for Black, a dot for
    /// an empty square), eight squares to a line starting from square a1,
    /// a newline after every line.
    pub fn render(&self) -> (r: Vec<u8>)
        ensures
            r@.len() == 72,
            forall|j: int|
                0 <= j < 72 ==> #[trigger] r@[j] == (if j % 9 == 8 {
                    10u8
                } else {
                    glyph_at(self.boards(), j - j / 9, 0)
                }),
    {
        let mut out: Vec<u8> = Vec::new();
        let mut rank: u8 = 0;
        while rank < 8
            invariant
                rank <= 8,
                out@.len() == rank * 9,
                forall|j: int|
                    0 <= j < rank * 9 ==> #[trigger] out@[j] == (if j % 9 == 8 {
                        10u8
                    } else {
                        glyph_at(self.boards(), j - j / 9, 0)
                    }),
            decreases 8 - rank,
        {
            let mut f: u8 = 0;
            while f < 8
                invariant
                    f <= 8,
                    rank < 8,
                    out@.len() == rank * 9 + f,
                    forall|j: int|
                        0 <= j < rank * 9 + f ==> #[trigger] out@[j] == (if j % 9 == 8 {
                            10u8
                        } else {
                            glyph_at(self.boards(), j - j / 9, 0)
                        }),
                decreases 8 - f,
            {
                let sq = rank * 8 + f;
                let g = self.glyph(sq);
                out.push(g);
                proof {
                    let j = rank as int * 9 + f;
                    vstd::arithmetic::div_mod::lemma_fundamental_div_mod_converse(
                        j,
                        9,
                        rank as int,
                        f as int,
                    );
                    assert(j - j / 9 == sq);
                }
                f = f + 1;
            }
            out.push(10);
            proof {
                let j = rank as int * 9 + 8;
                vstd::arithmetic::div_mod::lemma_fundamental_div_mod_converse(
                    j,
                    9,
                    rank as int,
                    8,
                );
            }
            rank = rank + 1;
        }
        out
    }

    /// The glyph shown for one square of the dump.
    fn glyph(&self, sq: u8) -> (g: u8)
        requires
            sq < 64,
        ensures
            g == glyph_at(self.boards(), sq as int, 0),
    {
        let mut k: usize = 0;
        while k < 12
            invariant
                k <= 12,
                sq < 64,
                glyph_at(self.boards(), sq as int, 0) == glyph_at(self.boards(), sq as int, k as int),
            decreases 12 - k,
        {
            proof {
                crate::util::lemma_mask_of_sq(sq as int);
            }
            if self.board.0[k] & (1u64 << sq) != 0 {
                return piece_glyph(k);
            }
            k = k + 1;
        }
        46
    }

    /// The positions of every set bit of the placement mask at `piece`
    /// (a team offset may be included; 12 names the aggregate mask).
    pub fn get_pieces(&self, piece: usize) -> (r: Vec<Position>)
        requires
            piece < 13,
        ensures
            forall|j: int| 0 <= j < r@.len() ==> (#[trigger] r@[j]).wf(),
            forall|i: int|
                0 <= i < 64 ==> (r@.contains(Position::at_sq(i)) <==> bit(
                    self.boards()[piece as int],
                    i,
                )),
    {
        let mut out: Vec<Position> = Vec::new();
        let b = self.board.0[piece];
        let mut i: u8 = 0;
        while i < 64
            invariant
                i <= 64,
                b == self.boards()[piece as int],
                forall|j: int| 0 <= j < out@.len() ==> (#[trigger] out@[j]).wf(),
                forall|s: int|
                    0 <= s < i ==> (out@.contains(Position::at_sq(s)) <==> bit(
                        self.boards()[piece as int],
                        s,
                    )),
                forall|s: int| i <= s < 64 ==> !out@.contains(Position::at_sq(s)),
            decreases 64 - i,
        {
            proof {
                crate::util::lemma_mask_of_sq(i as int);
            }
            if b & (1u64 << i) != 0 {
                let p = Position(1u64 << i);
                let ghost prev = out@;
                out.push(p);
                proof {
                    assert forall|s: int|
                        0 <= s < 64 implies (out@.contains(Position::at_sq(s)) <==> prev.contains(
                        Position::at_sq(s),
                    ) || s == i as int) by {
                        crate::util::lemma_push_contains(prev, p, Position::at_sq(s));
                        crate::util::lemma_at_sq_eq(s, i as int);
                    }
                }
            }
            i = i + 1;
        }
        out
    }
}

/// The glyph of the first placement mask at or after `k` holding square
/// `i`, or a dot where none does.
pub open spec fn glyph_at(bs: Seq<u64>, i: int, k: int) -> u8
    decreases 12 - k when 0 <= k <= 12
{
    if k >= 12 {
        46u8
    } else if bit(bs[k], i) {
        spec_piece_glyph(k)
    } else {
        glyph_at(bs, i, k + 1)
    }
}

/// The glyph of one placement mask: White's pieces in upper case, Black's
/// in lower case, in the order pawn, knight, bishop, rook, queen, king.
pub open spec fn spec_piece_glyph(k: int) -> u8 {
    if k == 0 {
        80u8
    } else if k == 1 {
        78u8
    } else if k == 2 {
        66u8
    } else if k == 3 {
        82u8
    } else if k == 4 {
        81u8
    } else if k == 5 {
        75u8
    } else if k == 6 {
        112u8
    } else if k == 7 {
        110u8
    } else if k == 8 {
        98u8
    } else if k == 9 {
        114u8
    } else if k == 10 {
        113u8
    } else {
        107u8
    }
}

/// The glyph of one placement mask.
fn piece_glyph(k: usize) -> (g: u8)
    requires
        k < 12,
    ensures
        g == spec_piece_glyph(k as int),
{
    match k {
        0 => 80,
        1 => 78,
        2 => 66,
        3 => 82,
        4 => 81,
        5 => 75,
        6 => 112,
        7 => 110,
        8 => 98,
        9 => 114,
        10 => 113,
        _ => 107,
    }
}

/// Whether a pawn of `team` landing on `to` must promote: the destination
/// lies on the opponent's back rank.
pub open spec fn needs_promotion(piece: crate::pieces::Pieces, team: Teams, to: int) -> bool {
    piece is Pawn && crate::model::rank_of(to) == match team {
        Teams::White => 7int,
        Teams::Black => 0int,
    }
}

/// The piece kind standing on the destination after the move: the
/// requested promotion kind on a promoting move, else the moved kind.
pub open spec fn placed_kind(
    piece: crate::pieces::Pieces,
    team: Teams,
    to: int,
    promotion: Option<crate::pieces::Pieces>,
) -> crate::pieces::Pieces {
    if needs_promotion(piece, team, to) {
        match promotion {
            Some(p) => p,
            None => piece,
        }
    } else {
        piece
    }
}

/// The square of a pawn captured en passant: a pawn reaching an empty
/// square on another file takes the pawn beside it, on the destination's
/// file and the source's rank.
pub open spec fn ep_taken(
    bs: Seq<u64>,
    piece: crate::pieces::Pieces,
    from: int,
    to: int,
) -> Option<int> {
    if piece is Pawn && crate::model::file_of(to) != crate::model::file_of(from)
        && !crate::model::occ(bs, to) {
        Some(crate::model::sq_at(crate::model::file_of(to), crate::model::rank_of(from)))
    } else {
        None
    }
}

/// Whether the move is a pawn's two-square advance.
pub open spec fn double_step(piece: crate::pieces::Pieces, from: int, to: int) -> bool {
    piece is Pawn && (crate::model::rank_of(to) == crate::model::rank_of(from) + 2
        || crate::model::rank_of(to) == crate::model::rank_of(from) - 2)
}

/// Whether the stated move is accepted: the game is still ongoing, the
/// stated piece of the stated team stands on the source square, the
/// destination passes the check-filtered movement rules, the destination
/// does not hold the opposing king, and a promoting pawn names a kind a
/// pawn may promote into.
pub open spec fn move_accepted(
    s: ChessBoard,
    piece: crate::pieces::Pieces,
    team: Teams,
    from: int,
    to: int,
    promotion: Option<crate::pieces::Pieces>,
) -> bool {
    &&& s.game_status is Ongoing
    &&& bit(s.boards()[team.off() + piece.idx()], from)
    &&& crate::model::legal_move_ok(s.boards(), s.lp(), piece, team, from, to)
    &&& !bit(s.boards()[team.spec_opposite().off() + 5], to)
    &&& (needs_promotion(piece, team, to) ==> match promotion {
        Some(p) => p.spec_promotable(),
        None => false,
    })
}

/// A nonempty result of the move generator witnesses that the team still
/// has a legal move.
proof fn lemma_some_move(
    bs: Seq<u64>,
    lp: Option<int>,
    piece: crate::pieces::Pieces,
    team: Teams,
    pk: int,
    i: int,
    mvs: Seq<Position>,
)
    requires
        0 <= pk < 6,
        piece == crate::model::piece_at(pk),
        0 <= i < 64,
        bit(bs[team.off() + pk], i),
        mvs.len() > 0,
        forall|j: int| 0 <= j < mvs.len() ==> (#[trigger] mvs[j]).wf(),
        forall|j: int|
            #![trigger Position::at_sq(j)]
            0 <= j < 64 ==> (mvs.contains(Position::at_sq(j)) <==> crate::model::legal_move_ok(
                bs,
                lp,
                piece,
                team,
                i,
                j,
            )),
    ensures
        crate::model::team_has_legal_move(bs, lp, team),
{
    let p0 = mvs[0];
    crate::util::lemma_sq_mask(p0);
    assert(mvs[0] == Position::at_sq(p0.sq()));
    assert(mvs.contains(Position::at_sq(p0.sq())));
    assert(crate::model::legal_move_ok(bs, lp, piece, team, i, p0.sq()));
    assert(crate::model::piece_has_move(bs, lp, piece, team, i));
    assert(bit(bs[team.off() + pk], i) && crate::model::piece_has_move(
        bs,
        lp,
        crate::model::piece_at(team.off() + pk - team.off()),
        team,
        i,
    ));
    assert(crate::model::team_has_legal_move(bs, lp, team));
}

/// The twelve-mask piece arrangement of a board: the aggregate mask left
/// out.
pub open spec fn snapshot_of(bs: Seq<u64>) -> Seq<u64> {
    bs.take(12)
}

/// The repetition count stored for `key` in the table, scanning from
/// entry `s`: the count of the first entry whose arrangement is `key`, or
/// zero with none.
pub open spec fn count_from(tbl: Seq<([u64; 12], u8)>, key: Seq<u64>, s: int) -> int
    decreases tbl.len() - s when 0 <= s <= tbl.len()
{
    if s >= tbl.len() {
        0
    } else if tbl[s].0@ == key {
        tbl[s].1 as int
    } else {
        count_from(tbl, key, s + 1)
    }
}

/// The count stored for `key` is the count of its first entry.
proof fn lemma_count_first(tbl: Seq<([u64; 12], u8)>, key: Seq<u64>, s: int, t: int)
    requires
        0 <= s <= t < tbl.len(),
        forall|u: int| s <= u < t ==> (#[trigger] tbl[u]).0@ != key,
        tbl[t].0@ == key,
    ensures
        count_from(tbl, key, s) == tbl[t].1 as int,
    decreases t - s,
{
    if s < t {
        lemma_count_first(tbl, key, s + 1, t);
    }
}

/// A key with no entry counts zero.
proof fn lemma_count_none(tbl: Seq<([u64; 12], u8)>, key: Seq<u64>, s: int)
    requires
        0 <= s <= tbl.len(),
        forall|u: int| s <= u < tbl.len() ==> (#[trigger] tbl[u]).0@ != key,
    ensures
        count_from(tbl, key, s) == 0,
    decreases tbl.len() - s,
{
    if s < tbl.len() {
        lemma_count_none(tbl, key, s + 1);
    }
}

/// Replacing one entry's count leaves every other key's count unchanged.
proof fn lemma_count_update_other(
    tbl: Seq<([u64; 12], u8)>,
    t: int,
    x: ([u64; 12], u8),
    key2: Seq<u64>,
    s: int,
)
    requires
        0 <= s <= tbl.len(),
        0 <= t < tbl.len(),
        x.0@ == tbl[t].0@,
        tbl[t].0@ != key2,
    ensures
        count_from(tbl.update(t, x), key2, s) == count_from(tbl, key2, s),
    decreases tbl.len() - s,
{
    if s < tbl.len() {
        lemma_count_update_other(tbl, t, x, key2, s + 1);
    }
}

/// Appending an entry for one key leaves every other key's count
/// unchanged.
proof fn lemma_count_push_other(
    tbl: Seq<([u64; 12], u8)>,
    x: ([u64; 12], u8),
    key2: Seq<u64>,
    s: int,
)
    requires
        0 <= s <= tbl.len(),
        x.0@ != key2,
    ensures
        count_from(tbl.push(x), key2, s) == count_from(tbl, key2, s),
    decreases tbl.len() - s,
{
    if s < tbl.len() {
        lemma_count_push_other(tbl, x, key2, s + 1);
    } else {
        lemma_count_none(tbl.push(x), key2, s);
    }
}

/// Whether two stored arrangements are the same.
fn keys_equal(a: &[u64; 12], b: &[u64; 12]) -> (r: bool)
    ensures
        r == (a@ == b@),
{
    let mut i: usize = 0;
    while i < 12
        invariant
            i <= 12,
            forall|j: int| 0 <= j < i ==> a@[j] == b@[j],
        decreases 12 - i,
    {
        if a[i] != b[i] {
            return false;
        }
        i = i + 1;
    }
    proof {
        assert(a@ =~= b@);
    }
    true
}

/// The thirteen masks of the canonical starting position.
pub open spec fn starting_boards() -> Seq<u64> {
    seq![
        0x00_00_00_00_00_00_FF_00u64,
        0x00_00_00_00_00_00_00_42u64,
        0x00_00_00_00_00_00_00_24u64,
        0x00_00_00_00_00_00_00_81u64,
        0x00_00_00_00_00_00_00_08u64,
        0x00_00_00_00_00_00_00_10u64,
        0x00_FF_00_00_00_00_00_00u64,
        0x42_00_00_00_00_00_00_00u64,
        0x24_00_00_00_00_00_00_00u64,
        0x81_00_00_00_00_00_00_00u64,
        0x08_00_00_00_00_00_00_00u64,
        0x10_00_00_00_00_00_00_00u64,
        0xFF_FF_00_00_00_00_FF_FFu64,
    ]
}

/// The starting boards satisfy the board invariant, and each king mask is
/// a single square.
pub proof fn lemma_starting_boards_ok()
    ensures
        boards_ok(starting_boards()),
        is_mask(starting_boards()[5]),
        is_mask(starting_boards()[11]),
{
    let bs = starting_boards();
    assert(0xFF_FF_00_00_00_00_FF_FFu64 == 0x00_00_00_00_00_00_FF_00u64
        | 0x00_00_00_00_00_00_00_42u64 | 0x00_00_00_00_00_00_00_24u64
        | 0x00_00_00_00_00_00_00_81u64 | 0x00_00_00_00_00_00_00_08u64
        | 0x00_00_00_00_00_00_00_10u64 | 0x00_FF_00_00_00_00_00_00u64
        | 0x42_00_00_00_00_00_00_00u64 | 0x24_00_00_00_00_00_00_00u64
        | 0x81_00_00_00_00_00_00_00u64 | 0x08_00_00_00_00_00_00_00u64
        | 0x10_00_00_00_00_00_00_00u64) by (bit_vector);
    assert(bs[12] == union12(bs));
    lemma_starting_disjoint();
    assert(0x00_00_00_00_00_00_00_10u64 == 1u64 << 4 && 0x10_00_00_00_00_00_00_00u64 == 1u64
        << 60) by (bit_vector);
    assert(bs[5] == crate::model::mask_of(4));
    assert(bs[11] == crate::model::mask_of(60));
}

/// No two starting placement masks share a square.
proof fn lemma_starting_disjoint()
    ensures
        forall|k1: int, k2: int|
            0 <= k1 < 12 && 0 <= k2 < 12 && k1 != k2 ==> crate::model::disjoint(
                #[trigger] starting_boards()[k1],
                #[trigger] starting_boards()[k2],
            ),
{
    let bs = starting_boards();
    assert forall|k1: int, k2: int|
        0 <= k1 < 12 && 0 <= k2 < 12 && k1 != k2 implies crate::model::disjoint(
        #[trigger] bs[k1],
        #[trigger] bs[k2],
    ) by {
        if k1 < k2 {
            lemma_starting_pair(k1, k2);
        } else {
            lemma_starting_pair(k2, k1);
            lemma_disjoint_sym(bs[k2], bs[k1]);
        }
    }
}

/// Disjointness is symmetric.
proof fn lemma_disjoint_sym(a: u64, b: u64)
    requires
        crate::model::disjoint(a, b),
    ensures
        crate::model::disjoint(b, a),
{
    assert(a & b == 0 ==> b & a == 0) by (bit_vector);
}

/// Disjointness of one ordered pair of starting masks.
proof fn lemma_starting_pair(k1: int, k2: int)
    requires
        0 <= k1 < k2 < 12,
    ensures
        crate::model::disjoint(starting_boards()[k1], starting_boards()[k2]),
{
    lemma_starting_low_disjoint();
    lemma_starting_high_disjoint();
    lemma_starting_cross_disjoint();
}

/// Disjointness among White's starting masks.
proof fn lemma_starting_low_disjoint()
    ensures
        0x00_00_00_00_00_00_FF_00u64 & 0x00_00_00_00_00_00_00_42u64 == 0,
        0x00_00_00_00_00_00_FF_00u64 & 0x00_00_00_00_00_00_00_24u64 == 0,
        0x00_00_00_00_00_00_FF_00u64 & 0x00_00_00_00_00_00_00_81u64 == 0,
        0x00_00_00_00_00_00_FF_00u64 & 0x00_00_00_00_00_00_00_08u64 == 0,
        0x00_00_00_00_00_00_FF_00u64 & 0x00_00_00_00_00_00_00_10u64 == 0,
        0x00_00_00_00_00_00_00_42u64 & 0x00_00_00_00_00_00_00_24u64 == 0,
        0x00_00_00_00_00_00_00_42u64 & 0x00_00_00_00_00_00_00_81u64 == 0,
        0x00_00_00_00_00_00_00_42u64 & 0x00_00_00_00_00_00_00_08u64 == 0,
        0x00_00_00_00_00_00_00_42u64 & 0x00_00_00_00_00_00_00_10u64 == 0,
        0x00_00_00_00_00_00_00_24u64 & 0x00_00_00_00_00_00_00_81u64 == 0,
        0x00_00_00_00_00_00_00_24u64 & 0x00_00_00_00_00_00_00_08u64 == 0,
        0x00_00_00_00_00_00_00_24u64 & 0x00_00_00_00_00_00_00_10u64 == 0,
        0x00_00_00_00_00_00_00_81u64 & 0x00_00_00_00_00_00_00_08u64 == 0,
        0x00_00_00_00_00_00_00_81u64 & 0x00_00_00_00_00_00_00_10u64 == 0,
        0x00_00_00_00_00_00_00_08u64 & 0x00_00_00_00_00_00_00_10u64 == 0,
{
    assert(0x00_00_00_00_00_00_FF_00u64 & 0x00_00_00_00_00_00_00_42u64 == 0
        && 0x00_00_00_00_00_00_FF_00u64 & 0x00_00_00_00_00_00_00_24u64 == 0
        && 0x00_00_00_00_00_00_FF_00u64 & 0x00_00_00_00_00_00_00_81u64 == 0
        && 0x00_00_00_00_00_00_FF_00u64 & 0x00_00_00_00_00_00_00_08u64 == 0
        && 0x00_00_00_00_00_00_FF_00u64 & 0x00_00_00_00_00_00_00_10u64 == 0
        && 0x00_00_00_00_00_00_00_42u64 & 0x00_00_00_00_00_00_00_24u64 == 0
        && 0x00_00_00_00_00_00_00_42u64 & 0x00_00_00_00_00_00_00_81u64 == 0
        && 0x00_00_00_00_00_00_00_42u64 & 0x00_00_00_00_00_00_00_08u64 == 0
        && 0x00_00_00_00_00_00_00_42u64 & 0x00_00_00_00_00_00_00_10u64 == 0
        && 0x00_00_00_00_00_00_00_24u64 & 0x00_00_00_00_00_00_00_81u64 == 0
        && 0x00_00_00_00_00_00_00_24u64 & 0x00_00_00_00_00_00_00_08u64 == 0
        && 0x00_00_00_00_00_00_00_24u64 & 0x00_00_00_00_00_00_00_10u64 == 0
        && 0x00_00_00_00_00_00_00_81u64 & 0x00_00_00_00_00_00_00_08u64 == 0
        && 0x00_00_00_00_00_00_00_81u64 & 0x00_00_00_00_00_00_00_10u64 == 0
        && 0x00_00_00_00_00_00_00_08u64 & 0x00_00_00_00_00_00_00_10u64 == 0) by (bit_vector);
}

/// Disjointness among Black's starting masks.
proof fn lemma_starting_high_disjoint()
    ensures
        0x00_FF_00_00_00_00_00_00u64 & 0x42_00_00_00_00_00_00_00u64 == 0,
        0x00_FF_00_00_00_00_00_00u64 & 0x24_00_00_00_00_00_00_00u64 == 0,
        0x00_FF_00_00_00_00_00_00u64 & 0x81_00_00_00_00_00_00_00u64 == 0,
        0x00_FF_00_00_00_00_00_00u64 & 0x08_00_00_00_00_00_00_00u64 == 0,
        0x00_FF_00_00_00_00_00_00u64 & 0x10_00_00_00_00_00_00_00u64 == 0,
        0x42_00_00_00_00_00_00_00u64 & 0x24_00_00_00_00_00_00_00u64 == 0,
        0x42_00_00_00_00_00_00_00u64 & 0x81_00_00_00_00_00_00_00u64 == 0,
        0x42_00_00_00_00_00_00_00u64 & 0x08_00_00_00_00_00_00_00u64 == 0,
        0x42_00_00_00_00_00_00_00u64 & 0x10_00_00_00_00_00_00_00u64 == 0,
        0x24_00_00_00_00_00_00_00u64 & 0x81_00_00_00_00_00_00_00u64 == 0,
        0x24_00_00_00_00_00_00_00u64 & 0x08_00_00_00_00_00_00_00u64 == 0,
        0x24_00_00_00_00_00_00_00u64 & 0x10_00_00_00_00_00_00_00u64 == 0,
        0x81_00_00_00_00_00_00_00u64 & 0x08_00_00_00_00_00_00_00u64 == 0,
        0x81_00_00_00_00_00_00_00u64 & 0x10_00_00_00_00_00_00_00u64 == 0,
        0x08_00_00_00_00_00_00_00u64 & 0x10_00_00_00_00_00_00_00u64 == 0,
{
    assert(0x00_FF_00_00_00_00_00_00u64 & 0x42_00_00_00_00_00_00_00u64 == 0
        && 0x00_FF_00_00_00_00_00_00u64 & 0x24_00_00_00_00_00_00_00u64 == 0
        && 0x00_FF_00_00_00_00_00_00u64 & 0x81_00_00_00_00_00_00_00u64 == 0
        && 0x00_FF_00_00_00_00_00_00u64 & 0x08_00_00_00_00_00_00_00u64 == 0
        && 0x00_FF_00_00_00_00_00_00u64 & 0x10_00_00_00_00_00_00_00u64 == 0
        && 0x42_00_00_00_00_00_00_00u64 & 0x24_00_00_00_00_00_00_00u64 == 0
        && 0x42_00_00_00_00_00_00_00u64 & 0x81_00_00_00_00_00_00_00u64 == 0
        && 0x42_00_00_00_00_00_00_00u64 & 0x08_00_00_00_00_00_00_00u64 == 0
        && 0x42_00_00_00_00_00_00_00u64 & 0x10_00_00_00_00_00_00_00u64 == 0
        && 0x24_00_00_00_00_00_00_00u64 & 0x81_00_00_00_00_00_00_00u64 == 0
        && 0x24_00_00_00_00_00_00_00u64 & 0x08_00_00_00_00_00_00_00u64 == 0
        && 0x24_00_00_00_00_00_00_00u64 & 0x10_00_00_00_00_00_00_00u64 == 0
        && 0x81_00_00_00_00_00_00_00u64 & 0x08_00_00_00_00_00_00_00u64 == 0
        && 0x81_00_00_00_00_00_00_00u64 & 0x10_00_00_00_00_00_00_00u64 == 0
        && 0x08_00_00_00_00_00_00_00u64 & 0x10_00_00_00_00_00_00_00u64 == 0) by (bit_vector);
}

/// Disjointness between White's and Black's starting masks: all of
/// White's pieces stand on the two low ranks, all of Black's on the two
/// high ranks.
proof fn lemma_starting_cross_disjoint()
    ensures
        forall|k1: int, k2: int|
            0 <= k1 < 6 && 6 <= k2 < 12 ==> crate::model::disjoint(
                #[trigger] starting_boards()[k1],
                #[trigger] starting_boards()[k2],
            ),
{
    let bs = starting_boards();
    assert forall|k1: int, k2: int| 0 <= k1 < 6 && 6 <= k2 < 12 implies crate::model::disjoint(
        #[trigger] bs[k1],
        #[trigger] bs[k2],
    ) by {
        let a = bs[k1];
        let b = bs[k2];
        assert(a & 0xFF_FF_FF_FF_FF_FF_00_00u64 == 0 && b & 0x00_00_FF_FF_FF_FF_FF_FFu64 == 0
            ==> a & b == 0) by (bit_vector);
        lemma_starting_halves(k1, k2);
    }
}

/// White's starting masks lie on the low two ranks, Black's on the high
/// two.
proof fn lemma_starting_halves(k1: int, k2: int)
    requires
        0 <= k1 < 6,
        6 <= k2 < 12,
    ensures
        starting_boards()[k1] & 0xFF_FF_FF_FF_FF_FF_00_00u64 == 0,
        starting_boards()[k2] & 0x00_00_FF_FF_FF_FF_FF_FFu64 == 0,
{
    assert(0x00_00_00_00_00_00_FF_00u64 & 0xFF_FF_FF_FF_FF_FF_00_00u64 == 0
        && 0x00_00_00_00_00_00_00_42u64 & 0xFF_FF_FF_FF_FF_FF_00_00u64 == 0
        && 0x00_00_00_00_00_00_00_24u64 & 0xFF_FF_FF_FF_FF_FF_00_00u64 == 0
        && 0x00_00_00_00_00_00_00_81u64 & 0xFF_FF_FF_FF_FF_FF_00_00u64 == 0
        && 0x00_00_00_00_00_00_00_08u64 & 0xFF_FF_FF_FF_FF_FF_00_00u64 == 0
        && 0x00_00_00_00_00_00_00_10u64 & 0xFF_FF_FF_FF_FF_FF_00_00u64 == 0
        && 0x00_FF_00_00_00_00_00_00u64 & 0x00_00_FF_FF_FF_FF_FF_FFu64 == 0
        && 0x42_00_00_00_00_00_00_00u64 & 0x00_00_FF_FF_FF_FF_FF_FFu64 == 0
        && 0x24_00_00_00_00_00_00_00u64 & 0x00_00_FF_FF_FF_FF_FF_FFu64 == 0
        && 0x81_00_00_00_00_00_00_00u64 & 0x00_00_FF_FF_FF_FF_FF_FFu64 == 0
        && 0x08_00_00_00_00_00_00_00u64 & 0x00_00_FF_FF_FF_FF_FF_FFu64 == 0
        && 0x10_00_00_00_00_00_00_00u64 & 0x00_00_FF_FF_FF_FF_FF_FFu64 == 0) by (bit_vector);
}

} // verus!
