//! The check-safety probe: would a move leave the moving team's own king
//! attacked?
//!
//! The probe never touches the live board: it applies the move to a
//! disposable copy of the thirteen masks and asks the check detector about
//! the king's square on that copy.
use crate::model::{
    bit, first_bit_from, lemma_attacked_oob, lemma_sq_whole, mask_of, sim_boards, sim_creates_check,
};
use crate::pieces::Pieces;
use crate::util::{is_in_check, lemma_sq_mask, Board, Position, Teams};
use crate::ChessBoard;
use vstd::prelude::*;

verus! {

/// The lowest set bit of `b`, or 64 where `b` is zero.
pub(crate) fn first_bit(b: u64) -> (i: u8)
    ensures
        i <= 64,
        i as int == first_bit_from(b, 0),
{
    let mut i: u8 = 0;
    while i < 64
        invariant
            i <= 64,
            first_bit_from(b, 0) == first_bit_from(b, i as int),
        decreases 64 - i,
    {
        if b & (1u64 << i) != 0 {
            assert(bit(b, i as int));
            return i;
        }
        proof {
            assert(!bit(b, i as int));
        }
        i = i + 1;
    }
    64
}

/// Whether moving the stated piece of `team` from `location` to `target`
/// would leave `team`'s own king attacked. The move is applied to a copy
/// of the board: the live board is never changed.
pub fn creates_check(
    board: &ChessBoard,
    piece: Pieces,
    team: Teams,
    location: Position,
    target: Position,
) -> (r: bool)
    requires
        location.wf(),
        target.wf(),
        board.lp_wf(),
    ensures
        r == sim_creates_check(
            board.boards(),
            board.lp(),
            piece,
            team,
            location.sq(),
            target.sq(),
        ),
{
    let ghost bs = board.boards();
    let ghost from = location.sq();
    let ghost to = target.sq();
    proof {
        lemma_sq_mask(location);
        lemma_sq_mask(target);
    }
    let mut sim: [u64; 13] = board.board.0;
    let e = team.opposite().offset_index();
    sim[e] = sim[e] & !target.0;
    sim[e + 1] = sim[e + 1] & !target.0;
    sim[e + 2] = sim[e + 2] & !target.0;
    sim[e + 3] = sim[e + 3] & !target.0;
    sim[e + 4] = sim[e + 4] & !target.0;
    sim[e + 5] = sim[e + 5] & !target.0;
    let own = team.offset_index() + piece.index();
    sim[own] = (sim[own] & !location.0) | target.0;
    sim[12] = (sim[12] & !location.0) | target.0;
    proof {
        assert forall|k: int| 0 <= k < 13 implies sim@[k] == crate::model::sim_entry(
            bs,
            piece,
            team,
            from,
            to,
            k,
        ) by {
        }
        assert(sim@ =~= sim_boards(bs, piece, team, from, to));
    }
    let toff = team.offset_index();
    let kb = sim[toff + 5];
    let ki = first_bit(kb);
    let ghost simseq = sim_boards(bs, piece, team, from, to);
    if ki >= 64 {
        proof {
            lemma_attacked_oob(simseq, board.lp(), 64, team.spec_opposite());
        }
        return false;
    }
    proof {
        lemma_sq_whole(ki as int);
    }
    let kp = Position::from_coords(ki % 8, ki / 8);
    let sim_state = ChessBoard {
        board: Board(sim),
        move_number: board.move_number,
        fifty_move_counter: board.fifty_move_counter,
        castle_status: [
            board.castle_status[0],
            board.castle_status[1],
            board.castle_status[2],
            board.castle_status[3],
        ],
        last_pawn: board.last_pawn,
        game_status: board.game_status,
        significant_boards: Vec::new(),
    };
    is_in_check(&sim_state, kp, team)
}

} // verus!
