//! The general laws of the engine, stated and proved once over the model:
//! the coordinate-text round trip, the aggregate-occupancy invariant, the
//! one-king-per-team invariant, and the check filter only narrowing the
//! move set. `ChessBoard::move_piece` ensures `wf` of the new state, so
//! the two invariants hold after every accepted move.
use crate::model::{
    bit, lemma_mask_injective, lemma_mask_nonzero, lemma_union12_bit, mask_of, move_ok, occ,
};
use crate::pieces::Pieces;
use crate::util::{square_text, text_to_square, Teams};
use crate::ChessBoard;
use vstd::prelude::*;

verus! {

/// Converting any square to its coordinate text and back yields the
/// square.
pub proof fn lemma_coord_text_round_trip(i: int)
    requires
        0 <= i < 64,
    ensures
        text_to_square(square_text(i)) == Some(i),
{
    assert(square_text(i)[0] == 97 + crate::model::file_of(i));
    assert(square_text(i)[1] == 49 + crate::model::rank_of(i));
}

/// In every well-formed game state — so after every accepted move — the
/// aggregate occupancy mask holds exactly the squares that some piece
/// placement mask holds.
pub proof fn lemma_aggregate_is_union(s: ChessBoard)
    requires
        s.wf(),
    ensures
        forall|i: int|
            0 <= i < 64 ==> (occ(s.boards(), i) <==> exists|k: int|
                0 <= k < 12 && #[trigger] bit(s.boards()[k], i)),
{
    assert forall|i: int| 0 <= i < 64 implies (occ(s.boards(), i) <==> exists|k: int|
        0 <= k < 12 && #[trigger] bit(s.boards()[k], i)) by {
        lemma_union12_bit(s.boards(), i);
    }
}

/// In every well-formed game state — so after every accepted move — each
/// team has exactly one king on the board.
pub proof fn lemma_one_king_per_team(s: ChessBoard, team: Teams)
    requires
        s.wf(),
    ensures
        exists|i: int|
            0 <= i < 64 && #[trigger] bit(s.boards()[team.off() + 5], i) && (forall|j: int|
                0 <= j < 64 && j != i ==> !(#[trigger] bit(s.boards()[team.off() + 5], j))),
{
    let kb = s.boards()[team.off() + 5];
    let w = choose|i: int| 0 <= i < 64 && kb == mask_of(i);
    lemma_mask_nonzero(w);
    assert forall|j: int| 0 <= j < 64 && j != w implies !bit(kb, j) by {
        lemma_mask_injective(w, j);
    }
    assert(bit(s.boards()[team.off() + 5], w) && (forall|j: int|
        0 <= j < 64 && j != w ==> !(#[trigger] bit(s.boards()[team.off() + 5], j))));
}

/// For every board, piece and pair of squares, a move generated with the
/// check-safety filter applied is also generated with the filter skipped:
/// the unfiltered move set is a superset of the filtered one.
pub proof fn lemma_ignore_check_superset(
    bs: Seq<u64>,
    lp: Option<int>,
    piece: Pieces,
    team: Teams,
    from: int,
    to: int,
)
    ensures
        move_ok(bs, lp, piece, team, from, to, false) ==> move_ok(bs, lp, piece, team, from, to, true),
{
}

} // verus!
