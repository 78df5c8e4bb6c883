//! The six piece kinds and their movement rules.
use crate::model::{
    knight_move_ok, king_move_ok, lemma_ray_unfold, lemma_sq_parts, lemma_sq_whole, move_ok,
    pawn_move_ok, pseudo_move_ok, ray_reach, sq_at,
};
use crate::util::{
    lemma_at_sq_eq, lemma_push_contains, lemma_sq_mask, team_occ, Directions, Position, Teams,
};
use crate::ChessBoard;
use vstd::prelude::*;

verus! {

broadcast use lemma_push_contains;

/// Whether a knight or king standing at `from` may land on file `f`, rank
/// `r`, and that landing square is `i`.
pub open spec fn jump_ok(bs: Seq<u64>, team: Teams, f: int, r: int, i: int) -> bool {
    &&& 0 <= f < 8
    &&& 0 <= r < 8
    &&& i == sq_at(f, r)
    &&& !team_occ(bs, team, i)
}

/// The mask of the single lowest square, `a1`.
pub const FIRST_SQUARE: u64 = 0b1;

/// The squares of rank 8 (Black's back rank).
pub const TOP_ROW_MASK: u64 = 0xFF_00_00_00_00_00_00_00;

/// The squares of rank 2 (White's pawn rank).
pub const SECOND_ROW_MASK: u64 = 0x00_00_00_00_00_00_FF_00;

/// The squares of rank 7 (Black's pawn rank).
pub const SEVENTH_ROW_MASK: u64 = 0x00_FF_00_00_00_00_00_00;

/// The squares of rank 1 (White's back rank).
pub const BOTTOM_ROW_MASK: u64 = 0x00_00_00_00_00_00_00_FF;

/// The six piece kinds. A kind also names an index 0..6 into a team's six
/// placement masks, in this order.
#[derive(Clone, Copy)]
pub enum Pieces {
    Pawn,
    Knight,
    Bishop,
    Rook,
    Queen,
    King,
}

impl Pieces {
    /// This kind's index into a team's placement masks.
    pub open spec fn idx(self) -> int {
        match self {
            Pieces::Pawn => 0,
            Pieces::Knight => 1,
            Pieces::Bishop => 2,
            Pieces::Rook => 3,
            Pieces::Queen => 4,
            Pieces::King => 5,
        }
    }

    /// This kind's index into a team's placement masks.
    pub fn index(&self) -> (r: usize)
        ensures
            r == self.idx(),
    {
        match self {
            Pieces::Pawn => 0,
            Pieces::Knight => 1,
            Pieces::Bishop => 2,
            Pieces::Rook => 3,
            Pieces::Queen => 4,
            Pieces::King => 5,
        }
    }

    /// The piece kind with the given index into the board array (a team
    /// offset may be included), or `None` for an out-of-range index.
    pub fn from_index(value: u8) -> (r: Option<Pieces>)
        ensures
            match r {
                Some(p) => value < 12 && p.idx() == value as int % 6,
                None => value >= 12,
            },
    {
        if value >= 12 {
            return None;
        }
        match value % 6 {
            0 => Some(Pieces::Pawn),
            1 => Some(Pieces::Knight),
            2 => Some(Pieces::Bishop),
            3 => Some(Pieces::Rook),
            4 => Some(Pieces::Queen),
            _ => Some(Pieces::King),
        }
    }

    /// Whether a pawn may promote into this kind: any kind but a pawn or
    /// a king.
    pub fn promotable_into(&self) -> (r: bool)
        ensures
            r == self.spec_promotable(),
    {
        match self {
            Pieces::Pawn => false,
            Pieces::Bishop => true,
            Pieces::Knight => true,
            Pieces::Rook => true,
            Pieces::Queen => true,
            Pieces::King => false,
        }
    }

    /// Whether a pawn may promote into this kind.
    pub open spec fn spec_promotable(self) -> bool {
        match self {
            Pieces::Pawn => false,
            Pieces::King => false,
            _ => true,
        }
    }

    /// The set of squares this piece kind may move to from `position`:
    /// every square its movement rule reaches, and, unless `ignore_check`
    /// is set, only those whose move would not leave the moving team's own
    /// king attacked.
    pub fn get_moves(
        &self,
        position: Position,
        team: Teams,
        board: &ChessBoard,
        ignore_check: bool,
    ) -> (r: Vec<Position>)
        requires
            position.wf(),
            board.lp_wf(),
        ensures
            forall|j: int| 0 <= j < r@.len() ==> (#[trigger] r@[j]).wf(),
            forall|i: int|
                #![trigger Position::at_sq(i)]
                0 <= i < 64 ==> (r@.contains(Position::at_sq(i)) <==> move_ok(
                    board.boards(),
                    board.lp(),
                    *self,
                    team,
                    position.sq(),
                    i,
                    ignore_check,
                )),
    {
        let possible = pseudo_list(*self, position, team, board);
        if ignore_check {
            return possible;
        }
        let ghost bs = board.boards();
        let ghost lp = board.lp();
        let ghost from = position.sq();
        let mut out: Vec<Position> = Vec::new();
        let mut j: usize = 0;
        while j < possible.len()
            invariant
                j <= possible@.len(),
                position.wf(),
                board.lp_wf(),
                bs == board.boards(),
                lp == board.lp(),
                from == position.sq(),
                forall|t: int| 0 <= t < possible@.len() ==> (#[trigger] possible@[t]).wf(),
                forall|i: int|
                    #![trigger Position::at_sq(i)]
                    0 <= i < 64 ==> (possible@.contains(Position::at_sq(i)) <==> pseudo_move_ok(
                        bs,
                        lp,
                        *self,
                        team,
                        from,
                        i,
                    )),
                forall|t: int| 0 <= t < out@.len() ==> (#[trigger] out@[t]).wf(),
                forall|i: int|
                    #![trigger Position::at_sq(i)]
                    0 <= i < 64 ==> (out@.contains(Position::at_sq(i)) <==> (possible@.take(
                        j as int,
                    ).contains(Position::at_sq(i)) && !crate::model::sim_creates_check(
                        bs,
                        lp,
                        *self,
                        team,
                        from,
                        i,
                    ))),
            decreases possible@.len() - j,
        {
            let c = possible[j];
            let ghost csq = c.sq();
            proof {
                lemma_sq_mask(c);
                assert(possible@.take(j as int + 1) =~= possible@.take(j as int).push(c));
            }
            let creates = crate::attacks::creates_check(board, *self, team, position, c);
            if !creates {
                out.push(c);
            }
            proof {
                assert forall|i: int| #![trigger Position::at_sq(i)] 0 <= i < 64 implies (
                out@.contains(Position::at_sq(i)) <==> (possible@.take(j as int + 1).contains(
                    Position::at_sq(i),
                ) && !crate::model::sim_creates_check(bs, lp, *self, team, from, i))) by {
                    lemma_at_sq_eq(i, csq);
                }
            }
            j = j + 1;
        }
        proof {
            assert(possible@.take(possible@.len() as int) =~= possible@);
        }
        out
    }

    /// Walks a sliding piece one square at a time in `direction`, from
    /// `position` to the board edge, appending every square the ray
    /// reaches: each empty square, then the first occupied square only if
    /// the moving team does not occupy it.
    pub fn move_piece(
        output: &mut Vec<Position>,
        position: Position,
        team: Teams,
        board: &ChessBoard,
        direction: Directions,
    )
        requires
            position.wf(),
            forall|j: int| 0 <= j < old(output)@.len() ==> (#[trigger] old(output)@[j]).wf(),
        ensures
            forall|j: int| 0 <= j < final(output)@.len() ==> (#[trigger] final(output)@[j]).wf(),
            forall|i: int|
                #![trigger Position::at_sq(i)]
                0 <= i < 64 ==> (final(output)@.contains(Position::at_sq(i)) <==> old(
                    output,
                )@.contains(Position::at_sq(i)) || ray_reach(
                    board.boards(),
                    team,
                    crate::model::file_of(position.sq()),
                    crate::model::rank_of(position.sq()),
                    direction.dfile(),
                    direction.drank(),
                    7,
                    i,
                )),
    {
        let start = position.square();
        proof {
            lemma_sq_whole(start as int);
        }
        let df = direction.file_step();
        let dr = direction.rank_step();
        let ghost bs = board.boards();
        let ghost f0 = crate::model::file_of(position.sq());
        let ghost r0 = crate::model::rank_of(position.sq());
        let ghost orig = output@;
        let mut cf: i16 = (start % 8) as i16;
        let mut cr: i16 = (start / 8) as i16;
        let mut fuel: u8 = 7;
        let mut done = false;
        while !done && fuel > 0
            invariant
                0 <= cf < 8,
                0 <= cr < 8,
                fuel <= 7,
                df as int == direction.dfile(),
                dr as int == direction.drank(),
                bs == board.boards(),
                forall|j: int| 0 <= j < output@.len() ==> (#[trigger] output@[j]).wf(),
                forall|i: int|
                    #![trigger Position::at_sq(i)]
                    0 <= i < 64 ==> ((output@.contains(Position::at_sq(i)) || ray_reach(
                        bs,
                        team,
                        cf as int,
                        cr as int,
                        df as int,
                        dr as int,
                        fuel as nat,
                        i,
                    )) <==> (orig.contains(Position::at_sq(i)) || ray_reach(
                        bs,
                        team,
                        f0,
                        r0,
                        df as int,
                        dr as int,
                        7,
                        i,
                    ))),
                done ==> forall|i: int|
                    0 <= i < 64 && ray_reach(
                        bs,
                        team,
                        cf as int,
                        cr as int,
                        df as int,
                        dr as int,
                        fuel as nat,
                        i,
                    ) ==> output@.contains(Position::at_sq(i)),
            decreases (if done {
                0int
            } else {
                1int
            }), fuel,
        {
            let nf = cf + df as i16;
            let nr = cr + dr as i16;
            let ghost cfi = cf as int;
            let ghost cri = cr as int;
            let ghost fueln = fuel as nat;
            let ghost prev = output@;
            if 0 <= nf && nf < 8 && 0 <= nr && nr < 8 {
                proof {
                    lemma_sq_parts(nf as int, nr as int);
                }
                let next = Position::from_coords(nf as u8, nr as u8);
                let ghost nsq = next.sq();
                proof {
                    lemma_sq_mask(next);
                }
                if next.is_occupied(&board.board) {
                    if !next.occupied_by_team(&board.board, team) {
                        output.push(next);
                        proof {
                            assert(output@.contains(Position::at_sq(nsq)));
                            assert forall|i: int| 0 <= i < 64 implies ((output@.contains(
                                Position::at_sq(i),
                            ) || ray_reach(bs, team, cfi, cri, df as int, dr as int, fueln, i))
                                <==> (orig.contains(Position::at_sq(i)) || ray_reach(
                                bs,
                                team,
                                f0,
                                r0,
                                df as int,
                                dr as int,
                                7,
                                i,
                            ))) by {
                                lemma_ray_unfold(bs, team, cfi, cri, df as int, dr as int, fueln, i);
                                if i != nsq {
                                    lemma_at_sq_eq(i, nsq);
                                }
                                assert((prev.contains(Position::at_sq(i)) || ray_reach(
                                    bs,
                                    team,
                                    cfi,
                                    cri,
                                    df as int,
                                    dr as int,
                                    fueln,
                                    i,
                                )) <==> (orig.contains(Position::at_sq(i)) || ray_reach(
                                    bs,
                                    team,
                                    f0,
                                    r0,
                                    df as int,
                                    dr as int,
                                    7,
                                    i,
                                )));
                            }
                            assert forall|i: int|
                                0 <= i < 64 && ray_reach(
                                    bs,
                                    team,
                                    cfi,
                                    cri,
                                    df as int,
                                    dr as int,
                                    fueln,
                                    i,
                                ) implies output@.contains(Position::at_sq(i)) by {
                                lemma_ray_unfold(bs, team, cfi, cri, df as int, dr as int, fueln, i);
                            }
                        }
                    } else {
                        proof {
                            assert forall|i: int| 0 <= i < 64 implies !ray_reach(
                                bs,
                                team,
                                cfi,
                                cri,
                                df as int,
                                dr as int,
                                fueln,
                                i,
                            ) by {
                                lemma_ray_unfold(bs, team, cfi, cri, df as int, dr as int, fueln, i);
                            }
                        }
                    }
                    done = true;
                } else {
                    output.push(next);
                    proof {
                        assert(output@.contains(Position::at_sq(nsq)));
                        assert forall|i: int| 0 <= i < 64 implies ((output@.contains(
                            Position::at_sq(i),
                        ) || ray_reach(
                            bs,
                            team,
                            nf as int,
                            nr as int,
                            df as int,
                            dr as int,
                            (fueln - 1) as nat,
                            i,
                        )) <==> (orig.contains(Position::at_sq(i)) || ray_reach(
                            bs,
                            team,
                            f0,
                            r0,
                            df as int,
                            dr as int,
                            7,
                            i,
                        ))) by {
                            lemma_ray_unfold(bs, team, cfi, cri, df as int, dr as int, fueln, i);
                            if i != nsq {
                                lemma_at_sq_eq(i, nsq);
                            }
                            assert((prev.contains(Position::at_sq(i)) || ray_reach(
                                bs,
                                team,
                                cfi,
                                cri,
                                df as int,
                                dr as int,
                                fueln,
                                i,
                            )) <==> (orig.contains(Position::at_sq(i)) || ray_reach(
                                bs,
                                team,
                                f0,
                                r0,
                                df as int,
                                dr as int,
                                7,
                                i,
                            )));
                        }
                    }
                    cf = nf;
                    cr = nr;
                    fuel = fuel - 1;
                }
            } else {
                proof {
                    assert forall|i: int| 0 <= i < 64 implies !ray_reach(
                        bs,
                        team,
                        cfi,
                        cri,
                        df as int,
                        dr as int,
                        fueln,
                        i,
                    ) by {
                        lemma_ray_unfold(bs, team, cfi, cri, df as int, dr as int, fueln, i);
                    }
                }
                done = true;
            }
        }
        proof {
            if !done {
                assert forall|i: int| 0 <= i < 64 implies !ray_reach(
                    bs,
                    team,
                    cf as int,
                    cr as int,
                    df as int,
                    dr as int,
                    fuel as nat,
                    i,
                ) by {
                }
            }
        }
    }
}

/// The pseudo-legal moves of a knight standing at `position`.
fn knight_moves(position: Position, team: Teams, board: &ChessBoard) -> (out: Vec<Position>)
    requires
        position.wf(),
    ensures
        forall|j: int| 0 <= j < out@.len() ==> (#[trigger] out@[j]).wf(),
        forall|i: int|
            #![trigger Position::at_sq(i)]
            0 <= i < 64 ==> (out@.contains(Position::at_sq(i)) <==> knight_move_ok(
                board.boards(),
                team,
                position.sq(),
                i,
            )),
{
    let start = position.square();
    proof {
        lemma_sq_whole(start as int);
    }
    let f = (start % 8) as i16;
    let r = (start / 8) as i16;
    let mut out: Vec<Position> = Vec::new();
    try_jump(&mut out, board, team, f + 1, r + 2);
    try_jump(&mut out, board, team, f + 2, r + 1);
    try_jump(&mut out, board, team, f - 1, r + 2);
    try_jump(&mut out, board, team, f - 2, r + 1);
    try_jump(&mut out, board, team, f + 1, r - 2);
    try_jump(&mut out, board, team, f + 2, r - 1);
    try_jump(&mut out, board, team, f - 1, r - 2);
    try_jump(&mut out, board, team, f - 2, r - 1);
    proof {
        let bs = board.boards();
        let from = position.sq();
        let ff = crate::model::file_of(from);
        let rr = crate::model::rank_of(from);
        assert forall|i: int| #![trigger Position::at_sq(i)] 0 <= i < 64 implies (out@.contains(
            Position::at_sq(i),
        ) <==> knight_move_ok(bs, team, from, i)) by {
            lemma_sq_whole(i);
            if jump_ok(bs, team, ff + 1, rr + 2, i) {
                lemma_sq_parts(ff + 1, rr + 2);
            }
            if jump_ok(bs, team, ff + 2, rr + 1, i) {
                lemma_sq_parts(ff + 2, rr + 1);
            }
            if jump_ok(bs, team, ff - 1, rr + 2, i) {
                lemma_sq_parts(ff - 1, rr + 2);
            }
            if jump_ok(bs, team, ff - 2, rr + 1, i) {
                lemma_sq_parts(ff - 2, rr + 1);
            }
            if jump_ok(bs, team, ff + 1, rr - 2, i) {
                lemma_sq_parts(ff + 1, rr - 2);
            }
            if jump_ok(bs, team, ff + 2, rr - 1, i) {
                lemma_sq_parts(ff + 2, rr - 1);
            }
            if jump_ok(bs, team, ff - 1, rr - 2, i) {
                lemma_sq_parts(ff - 1, rr - 2);
            }
            if jump_ok(bs, team, ff - 2, rr - 1, i) {
                lemma_sq_parts(ff - 2, rr - 1);
            }
        }
    }
    out
}

/// The pseudo-legal moves of a king standing at `position`.
fn king_moves(position: Position, team: Teams, board: &ChessBoard) -> (out: Vec<Position>)
    requires
        position.wf(),
    ensures
        forall|j: int| 0 <= j < out@.len() ==> (#[trigger] out@[j]).wf(),
        forall|i: int|
            #![trigger Position::at_sq(i)]
            0 <= i < 64 ==> (out@.contains(Position::at_sq(i)) <==> king_move_ok(
                board.boards(),
                team,
                position.sq(),
                i,
            )),
{
    let start = position.square();
    proof {
        lemma_sq_whole(start as int);
    }
    let f = (start % 8) as i16;
    let r = (start / 8) as i16;
    let mut out: Vec<Position> = Vec::new();
    try_jump(&mut out, board, team, f + 1, r + 1);
    try_jump(&mut out, board, team, f + 1, r);
    try_jump(&mut out, board, team, f + 1, r - 1);
    try_jump(&mut out, board, team, f, r + 1);
    try_jump(&mut out, board, team, f, r - 1);
    try_jump(&mut out, board, team, f - 1, r + 1);
    try_jump(&mut out, board, team, f - 1, r);
    try_jump(&mut out, board, team, f - 1, r - 1);
    proof {
        let bs = board.boards();
        let from = position.sq();
        let ff = crate::model::file_of(from);
        let rr = crate::model::rank_of(from);
        assert forall|i: int| #![trigger Position::at_sq(i)] 0 <= i < 64 implies (out@.contains(
            Position::at_sq(i),
        ) <==> king_move_ok(bs, team, from, i)) by {
            lemma_sq_whole(i);
            if jump_ok(bs, team, ff + 1, rr + 1, i) {
                lemma_sq_parts(ff + 1, rr + 1);
            }
            if jump_ok(bs, team, ff + 1, rr, i) {
                lemma_sq_parts(ff + 1, rr);
            }
            if jump_ok(bs, team, ff + 1, rr - 1, i) {
                lemma_sq_parts(ff + 1, rr - 1);
            }
            if jump_ok(bs, team, ff, rr + 1, i) {
                lemma_sq_parts(ff, rr + 1);
            }
            if jump_ok(bs, team, ff, rr - 1, i) {
                lemma_sq_parts(ff, rr - 1);
            }
            if jump_ok(bs, team, ff - 1, rr + 1, i) {
                lemma_sq_parts(ff - 1, rr + 1);
            }
            if jump_ok(bs, team, ff - 1, rr, i) {
                lemma_sq_parts(ff - 1, rr);
            }
            if jump_ok(bs, team, ff - 1, rr - 1, i) {
                lemma_sq_parts(ff - 1, rr - 1);
            }
        }
    }
    out
}

/// The pseudo-legal moves of a bishop standing at `position`.
fn bishop_moves(position: Position, team: Teams, board: &ChessBoard) -> (out: Vec<Position>)
    requires
        position.wf(),
    ensures
        forall|j: int| 0 <= j < out@.len() ==> (#[trigger] out@[j]).wf(),
        forall|i: int|
            #![trigger Position::at_sq(i)]
            0 <= i < 64 ==> (out@.contains(Position::at_sq(i)) <==> crate::model::bishop_move_ok(
                board.boards(),
                team,
                position.sq(),
                i,
            )),
{
    let mut out: Vec<Position> = Vec::new();
    Pieces::move_piece(&mut out, position, team, board, Directions::NorthEast);
    Pieces::move_piece(&mut out, position, team, board, Directions::SouthEast);
    Pieces::move_piece(&mut out, position, team, board, Directions::NorthWest);
    Pieces::move_piece(&mut out, position, team, board, Directions::SouthWest);
    out
}

/// The pseudo-legal moves of a rook standing at `position`.
fn rook_moves(position: Position, team: Teams, board: &ChessBoard) -> (out: Vec<Position>)
    requires
        position.wf(),
    ensures
        forall|j: int| 0 <= j < out@.len() ==> (#[trigger] out@[j]).wf(),
        forall|i: int|
            #![trigger Position::at_sq(i)]
            0 <= i < 64 ==> (out@.contains(Position::at_sq(i)) <==> crate::model::rook_move_ok(
                board.boards(),
                team,
                position.sq(),
                i,
            )),
{
    let mut out: Vec<Position> = Vec::new();
    Pieces::move_piece(&mut out, position, team, board, Directions::East);
    Pieces::move_piece(&mut out, position, team, board, Directions::West);
    Pieces::move_piece(&mut out, position, team, board, Directions::North);
    Pieces::move_piece(&mut out, position, team, board, Directions::South);
    out
}

/// The pseudo-legal moves of a queen standing at `position`: the union of
/// the bishop's and the rook's rays.
fn queen_moves(position: Position, team: Teams, board: &ChessBoard) -> (out: Vec<Position>)
    requires
        position.wf(),
    ensures
        forall|j: int| 0 <= j < out@.len() ==> (#[trigger] out@[j]).wf(),
        forall|i: int|
            #![trigger Position::at_sq(i)]
            0 <= i < 64 ==> (out@.contains(Position::at_sq(i)) <==> (crate::model::bishop_move_ok(
                board.boards(),
                team,
                position.sq(),
                i,
            ) || crate::model::rook_move_ok(board.boards(), team, position.sq(), i))),
{
    let mut out: Vec<Position> = Vec::new();
    Pieces::move_piece(&mut out, position, team, board, Directions::NorthEast);
    Pieces::move_piece(&mut out, position, team, board, Directions::SouthEast);
    Pieces::move_piece(&mut out, position, team, board, Directions::NorthWest);
    Pieces::move_piece(&mut out, position, team, board, Directions::SouthWest);
    Pieces::move_piece(&mut out, position, team, board, Directions::East);
    Pieces::move_piece(&mut out, position, team, board, Directions::West);
    Pieces::move_piece(&mut out, position, team, board, Directions::North);
    Pieces::move_piece(&mut out, position, team, board, Directions::South);
    out
}

/// The pseudo-legal moves of a pawn standing at `position`: single push,
/// double push from the starting rank, diagonal captures and en passant.
fn pawn_moves(position: Position, team: Teams, board: &ChessBoard) -> (out: Vec<Position>)
    requires
        position.wf(),
        board.lp_wf(),
    ensures
        forall|j: int| 0 <= j < out@.len() ==> (#[trigger] out@[j]).wf(),
        forall|i: int|
            #![trigger Position::at_sq(i)]
            0 <= i < 64 ==> (out@.contains(Position::at_sq(i)) <==> pawn_move_ok(
                board.boards(),
                board.lp(),
                team,
                position.sq(),
                i,
            )),
{
    let start = position.square();
    proof {
        lemma_sq_whole(start as int);
    }
    let f = (start % 8) as i16;
    let r = (start / 8) as i16;
    let dir: i16 = match team {
        Teams::White => 1,
        Teams::Black => -1,
    };
    let home: i16 = match team {
        Teams::White => 1,
        Teams::Black => 6,
    };
    let enemy = team.opposite();
    let mut out: Vec<Position> = Vec::new();
    let fr = r + dir;
    if 0 <= fr && fr < 8 {
        proof {
            lemma_sq_parts(f as int, fr as int);
        }
        let fwd = Position::from_coords(f as u8, fr as u8);
        proof {
            lemma_sq_mask(fwd);
        }
        if !fwd.is_occupied(&board.board) {
            out.push(fwd);
            if r == home {
                let dr2 = r + 2 * dir;
                proof {
                    lemma_sq_parts(f as int, dr2 as int);
                }
                let dbl = Position::from_coords(f as u8, dr2 as u8);
                proof {
                    lemma_sq_mask(dbl);
                }
                if !dbl.is_occupied(&board.board) {
                    out.push(dbl);
                }
            }
        }
        if f > 0 {
            proof {
                lemma_sq_parts(f as int - 1, fr as int);
            }
            let cap = Position::from_coords((f - 1) as u8, fr as u8);
            proof {
                lemma_sq_mask(cap);
            }
            if cap.occupied_by_team(&board.board, enemy) {
                out.push(cap);
            }
        }
        if f < 7 {
            proof {
                lemma_sq_parts(f as int + 1, fr as int);
            }
            let cap = Position::from_coords((f + 1) as u8, fr as u8);
            proof {
                lemma_sq_mask(cap);
            }
            if cap.occupied_by_team(&board.board, enemy) {
                out.push(cap);
            }
        }
    }
    match &board.last_pawn {
        Some(l) => {
            let lsq = l.square();
            proof {
                lemma_sq_whole(lsq as int);
                lemma_sq_mask(*l);
            }
            let lf = (lsq % 8) as i16;
            let lr = (lsq / 8) as i16;
            let ep_slot = enemy.offset_index();
            if (board.board.0[ep_slot] & l.0 != 0) && lr == r && (lf == f - 1 || lf == f + 1) {
                let tr = lr + dir;
                if 0 <= tr && tr < 8 {
                    proof {
                        lemma_sq_parts(lf as int, tr as int);
                    }
                    let t = Position::from_coords(lf as u8, tr as u8);
                    proof {
                        lemma_sq_mask(t);
                    }
                    if !t.is_occupied(&board.board) {
                        out.push(t);
                    }
                }
            }
        },
        None => {},
    }
    proof {
        let bs = board.boards();
        let lp = board.lp();
        let from = position.sq();
        let ff = crate::model::file_of(from);
        let rr = crate::model::rank_of(from);
        assert forall|i: int| #![trigger Position::at_sq(i)] 0 <= i < 64 implies (out@.contains(
            Position::at_sq(i),
        ) <==> pawn_move_ok(bs, lp, team, from, i)) by {
            lemma_sq_whole(i);
            let dirg: int = match team {
                Teams::White => 1,
                Teams::Black => -1,
            };
            if 0 <= rr + dirg < 8 {
                lemma_sq_parts(ff, rr + dirg);
                lemma_at_sq_eq(i, sq_at(ff, rr + dirg));
                if ff > 0 {
                    lemma_sq_parts(ff - 1, rr + dirg);
                    lemma_at_sq_eq(i, sq_at(ff - 1, rr + dirg));
                }
                if ff < 7 {
                    lemma_sq_parts(ff + 1, rr + dirg);
                    lemma_at_sq_eq(i, sq_at(ff + 1, rr + dirg));
                }
            }
            if 0 <= rr + 2 * dirg < 8 {
                lemma_sq_parts(ff, rr + 2 * dirg);
                lemma_at_sq_eq(i, sq_at(ff, rr + 2 * dirg));
            }
            match lp {
                Some(l) => {
                    lemma_sq_whole(l);
                    if 0 <= crate::model::rank_of(l) + dirg < 8 {
                        lemma_sq_parts(crate::model::file_of(l), crate::model::rank_of(l) + dirg);
                        lemma_at_sq_eq(i, sq_at(crate::model::file_of(l), crate::model::rank_of(l) + dirg));
                    }
                },
                None => {},
            }
        }
    }
    out
}

/// All moves of the stated piece kind from `position`, before the
/// check-safety filter.
pub(crate) fn pseudo_list(
    piece: Pieces,
    position: Position,
    team: Teams,
    board: &ChessBoard,
) -> (out: Vec<Position>)
    requires
        position.wf(),
        board.lp_wf(),
    ensures
        forall|j: int| 0 <= j < out@.len() ==> (#[trigger] out@[j]).wf(),
        forall|i: int|
            #![trigger Position::at_sq(i)]
            0 <= i < 64 ==> (out@.contains(Position::at_sq(i)) <==> pseudo_move_ok(
                board.boards(),
                board.lp(),
                piece,
                team,
                position.sq(),
                i,
            )),
{
    match piece {
        Pieces::Pawn => pawn_moves(position, team, board),
        Pieces::Knight => knight_moves(position, team, board),
        Pieces::Bishop => bishop_moves(position, team, board),
        Pieces::Rook => rook_moves(position, team, board),
        Pieces::Queen => queen_moves(position, team, board),
        Pieces::King => king_moves(position, team, board),
    }
}

/// Appends the landing square at file `f`, rank `r` where it lies on the
/// board and the moving team does not occupy it.
fn try_jump(output: &mut Vec<Position>, board: &ChessBoard, team: Teams, f: i16, r: i16)
    requires
        forall|j: int| 0 <= j < old(output)@.len() ==> (#[trigger] old(output)@[j]).wf(),
    ensures
        forall|j: int| 0 <= j < final(output)@.len() ==> (#[trigger] final(output)@[j]).wf(),
        forall|i: int|
            #![trigger Position::at_sq(i)]
            0 <= i < 64 ==> (final(output)@.contains(Position::at_sq(i)) <==> old(
                output,
            )@.contains(Position::at_sq(i)) || jump_ok(
                board.boards(),
                team,
                f as int,
                r as int,
                i,
            )),
{
    if 0 <= f && f < 8 && 0 <= r && r < 8 {
        proof {
            lemma_sq_parts(f as int, r as int);
        }
        let p = Position::from_coords(f as u8, r as u8);
        proof {
            lemma_sq_mask(p);
        }
        if !p.occupied_by_team(&board.board, team) {
            let ghost prev = output@;
            let ghost psq = p.sq();
            output.push(p);
            proof {
                assert(output@.contains(Position::at_sq(psq)));
                assert forall|i: int| 0 <= i < 64 && i != psq implies (output@.contains(
                    Position::at_sq(i),
                ) == prev.contains(Position::at_sq(i))) by {
                    lemma_at_sq_eq(i, psq);
                }
            }
        }
    }
}

} // verus!
