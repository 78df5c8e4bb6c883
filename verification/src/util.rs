//! Board substrate: squares, teams, directions, the thirteen-mask board
//! and the game status values.
use crate::model::{
    bit, file_of, is_mask, lemma_mask_injective, lemma_mask_nonzero, mask_of, rank_of, sq_at,
    sq_of,
};
use crate::pieces::Pieces;
use vstd::prelude::*;

verus! {

/// One square of the board, held as a single-bit mask.
#[derive(Clone, Copy, PartialEq, Eq, Structural, Debug)]
pub struct Position(pub u64);

/// The placement mask of one piece kind of one team.
pub struct PiecePositions(pub u64);

/// A mask selecting a fixed set of squares, such as one rank or file.
pub struct Row(pub u64);

/// The bitboard representation of the whole board: one placement mask per
/// piece kind and team (indices `team offset + piece index`), and the
/// aggregate occupancy mask at index 12.
#[derive(Clone, Copy)]
pub struct Board(pub [u64; 13]);

/// The two teams. A team also names an offset (White 0, Black 6) into the
/// thirteen-mask board array.
#[derive(Clone, Copy)]
pub enum Teams {
    White,
    Black,
}

/// The four castle-eligibility slots (castling itself is unimplemented).
pub enum CastleDirection {
    Left,
    Right,
}

/// The status of a game. Every value other than `Ongoing` is terminal.
#[derive(Clone, Copy)]
pub enum GameStatus {
    Ongoing,
    BlackWin,
    WhiteWin,
    DrawByStalemate,
    DrawByInsufficientMaterial,
    DrawByRepetition,
    DrawByFiftyMoveRule,
}

impl Position {
    /// A well-formed position holds exactly one of the 64 square bits.
    pub open spec fn wf(self) -> bool {
        is_mask(self.0)
    }

    /// The square index (file + rank * 8) of a well-formed position.
    pub open spec fn sq(self) -> int {
        sq_of(self.0)
    }

    /// The position denoting square `i`.
    pub open spec fn at_sq(i: int) -> Position {
        Position(mask_of(i))
    }

    /// Whether this position lies on one of the squares of `row`.
    pub fn on_row(&self, row: Row) -> (r: bool)
        ensures
            r == (self.0 & row.0 != 0),
    {
        self.0 & row.0 != 0
    }

    /// Whether any piece at all occupies this square.
    pub fn is_occupied(&self, board: &Board) -> (r: bool)
        requires
            self.wf(),
        ensures
            r == bit(board.0@[12], self.sq()),
    {
        proof {
            lemma_sq_mask(*self);
        }
        board.0[12] & self.0 != 0
    }

    /// Whether the given piece kind of the given team occupies this square.
    pub fn is_occupied_by(&self, board: &Board, piece: Pieces, team: Teams) -> (r: bool)
        requires
            self.wf(),
        ensures
            r == bit(board.0@[team.off() + piece.idx()], self.sq()),
    {
        proof {
            lemma_sq_mask(*self);
        }
        let slot = team.offset_index() + piece.index();
        board.0[slot] & self.0 != 0
    }

    /// Whether any piece of the given team occupies this square.
    pub fn occupied_by_team(&self, board: &Board, team: Teams) -> (r: bool)
        requires
            self.wf(),
        ensures
            r == team_occ(board.0@, team, self.sq()),
    {
        proof {
            lemma_sq_mask(*self);
        }
        let base = team.offset_index();
        let mut p: usize = 0;
        while p < 6
            invariant
                p <= 6,
                base == team.off(),
                self.wf(),
                forall|k: int|
                    team.off() <= k < team.off() + p ==> !(#[trigger] bit(
                        board.0@[k],
                        self.sq(),
                    )),
            decreases 6 - p,
        {
            if board.0[base + p] & self.0 != 0 {
                assert(bit(board.0@[team.off() + p], self.sq()));
                return true;
            }
            p = p + 1;
        }
        false
    }

    /// The position with the given file and rank.
    pub fn from_coords(file: u8, rank: u8) -> (r: Position)
        requires
            file < 8,
            rank < 8,
        ensures
            r.wf(),
            r.sq() == sq_at(file as int, rank as int),
    {
        let i: u8 = file + rank * 8;
        proof {
            lemma_mask_of_sq(i as int);
        }
        Position(1u64 << i)
    }

    /// The square index of a well-formed position.
    pub fn square(&self) -> (i: u8)
        requires
            self.wf(),
        ensures
            i < 64,
            self.0 == mask_of(i as int),
            i as int == self.sq(),
    {
        let mut i: u8 = 0;
        while i < 64
            invariant
                i <= 64,
                self.wf(),
                forall|j: int| 0 <= j < i ==> self.0 != mask_of(j),
            decreases 64 - i,
        {
            if self.0 == 1u64 << i {
                proof {
                    lemma_mask_of_sq(i as int);
                    lemma_sq_mask(*self);
                    lemma_mask_injective(self.sq(), i as int);
                }
                return i;
            }
            i = i + 1;
        }
        proof {
            lemma_sq_mask(*self);
        }
        unreached()
    }

    /// This square's coordinate text: a file letter then a rank digit.
    pub fn to_text(&self) -> (r: Vec<u8>)
        requires
            self.wf(),
        ensures
            r@ == square_text(self.sq()),
    {
        let i = self.square();
        let mut out: Vec<u8> = Vec::new();
        out.push(97 + i % 8);
        out.push(49 + i / 8);
        assert(out@ =~= square_text(self.sq()));
        out
    }

    /// The position named by a two-byte coordinate text, or `None` where
    /// the text is malformed.
    pub fn from_text(s: &[u8]) -> (r: Option<Position>)
        ensures
            match r {
                Some(p) => p.wf() && text_to_square(s@) == Some(p.sq()),
                None => text_to_square(s@) is None,
            },
    {
        if s.len() != 2 {
            return None;
        }
        let f = s[0];
        let r = s[1];
        if 97 <= f && f < 105 && 49 <= r && r < 57 {
            Some(Position::from_coords(f - 97, r - 49))
        } else {
            None
        }
    }
}

/// The coordinate text of square `i`: a file letter `a`..`h` then a rank
/// digit `1`..`8`.
pub open spec fn square_text(i: int) -> Seq<u8> {
    seq![(97 + file_of(i)) as u8, (49 + rank_of(i)) as u8]
}

/// The square named by a coordinate text, or `None` where the text is not
/// a file letter `a`..`h` followed by a rank digit `1`..`8`.
pub open spec fn text_to_square(s: Seq<u8>) -> Option<int> {
    if s.len() == 2 && 97 <= s[0] < 105 && 49 <= s[1] < 57 {
        Some(sq_at(s[0] - 97, s[1] - 49))
    } else {
        None
    }
}

/// A well-formed position is the mask of its own square.
pub proof fn lemma_sq_mask(p: Position)
    requires
        p.wf(),
    ensures
        0 <= p.sq() < 64,
        p.0 == mask_of(p.sq()),
        bit(p.0, p.sq()),
{
    let i = choose|i: int| 0 <= i < 64 && p.0 == mask_of(i);
    lemma_mask_nonzero(i);
}

/// The mask of square `i` is a well-formed position for square `i`.
pub proof fn lemma_mask_of_sq(i: int)
    requires
        0 <= i < 64,
    ensures
        is_mask(mask_of(i)),
        sq_of(mask_of(i)) == i,
        Position::at_sq(i).wf(),
        Position::at_sq(i).sq() == i,
{
    assert(is_mask(mask_of(i)));
    let j = choose|j: int| 0 <= j < 64 && mask_of(i) == mask_of(j);
    lemma_mask_injective(j, i);
}

/// Whether any piece of `team` occupies square `i` on the boards `bs`.
pub open spec fn team_occ(bs: Seq<u64>, team: Teams, i: int) -> bool {
    exists|k: int| team.off() <= k < team.off() + 6 && #[trigger] bit(bs[k], i)
}

impl Teams {
    /// This team's offset into the thirteen-mask board array.
    pub open spec fn off(self) -> int {
        match self {
            Teams::White => 0,
            Teams::Black => 6,
        }
    }

    /// The opposing team.
    pub open spec fn spec_opposite(self) -> Teams {
        match self {
            Teams::White => Teams::Black,
            Teams::Black => Teams::White,
        }
    }

    /// This team's offset into the thirteen-mask board array.
    pub fn offset_index(&self) -> (r: usize)
        ensures
            r == self.off(),
    {
        match self {
            Teams::White => 0,
            Teams::Black => 6,
        }
    }

    /// The opposing team.
    pub fn opposite(&self) -> (r: Teams)
        ensures
            r == self.spec_opposite(),
    {
        match self {
            Teams::White => Teams::Black,
            Teams::Black => Teams::White,
        }
    }

    /// The status that declares this team the winner.
    pub fn win_status(&self) -> (r: GameStatus)
        ensures
            r == self.spec_win_status(),
    {
        match self {
            Teams::White => GameStatus::WhiteWin,
            Teams::Black => GameStatus::BlackWin,
        }
    }

    /// The status that declares this team the winner.
    pub open spec fn spec_win_status(self) -> GameStatus {
        match self {
            Teams::White => GameStatus::WhiteWin,
            Teams::Black => GameStatus::BlackWin,
        }
    }

    /// The board indices of this team's piece kinds other than the king.
    pub fn non_king_pieces(&self) -> (r: core::ops::Range<usize>)
        ensures
            r.start == self.off(),
            r.end == self.off() + 5,
    {
        let base = self.offset_index();
        base..base + 5
    }

    /// The board indices of all of this team's piece kinds.
    pub fn pieces(&self) -> (r: core::ops::Range<usize>)
        ensures
            r.start == self.off(),
            r.end == self.off() + 6,
    {
        let base = self.offset_index();
        base..base + 6
    }

    /// The team to move at the given half-move number: even numbers are
    /// White's moves, odd numbers Black's.
    pub fn from_move_number(move_number: u16) -> (r: Teams)
        ensures
            r == (if move_number % 2 == 0 {
                Teams::White
            } else {
                Teams::Black
            }),
    {
        if move_number % 2 == 0 {
            Teams::White
        } else {
            Teams::Black
        }
    }
}

/// The single-step offsets used by movement rules. `North` is one rank up
/// (towards rank 8); the `Far` variants step two squares.
#[derive(Clone, Copy)]
pub enum Directions {
    NorthWest,
    North,
    FarNorth,
    NorthEast,
    West,
    FarWest,
    East,
    FarEast,
    SouthWest,
    South,
    FarSouth,
    SouthEast,
}

impl Directions {
    /// The change in file of one step in this direction.
    pub open spec fn dfile(self) -> int {
        match self {
            Directions::NorthWest => -1,
            Directions::North => 0,
            Directions::FarNorth => 0,
            Directions::NorthEast => 1,
            Directions::West => -1,
            Directions::FarWest => -2,
            Directions::East => 1,
            Directions::FarEast => 2,
            Directions::SouthWest => -1,
            Directions::South => 0,
            Directions::FarSouth => 0,
            Directions::SouthEast => 1,
        }
    }

    /// The change in rank of one step in this direction.
    pub open spec fn drank(self) -> int {
        match self {
            Directions::NorthWest => 1,
            Directions::North => 1,
            Directions::FarNorth => 2,
            Directions::NorthEast => 1,
            Directions::West => 0,
            Directions::FarWest => 0,
            Directions::East => 0,
            Directions::FarEast => 0,
            Directions::SouthWest => -1,
            Directions::South => -1,
            Directions::FarSouth => -2,
            Directions::SouthEast => -1,
        }
    }

    /// The change in file of one step in this direction.
    pub fn file_step(&self) -> (r: i8)
        ensures
            r as int == self.dfile(),
    {
        match self {
            Directions::NorthWest => -1,
            Directions::North => 0,
            Directions::FarNorth => 0,
            Directions::NorthEast => 1,
            Directions::West => -1,
            Directions::FarWest => -2,
            Directions::East => 1,
            Directions::FarEast => 2,
            Directions::SouthWest => -1,
            Directions::South => 0,
            Directions::FarSouth => 0,
            Directions::SouthEast => 1,
        }
    }

    /// The change in rank of one step in this direction.
    pub fn rank_step(&self) -> (r: i8)
        ensures
            r as int == self.drank(),
    {
        match self {
            Directions::NorthWest => 1,
            Directions::North => 1,
            Directions::FarNorth => 2,
            Directions::NorthEast => 1,
            Directions::West => 0,
            Directions::FarWest => 0,
            Directions::East => 0,
            Directions::FarEast => 0,
            Directions::SouthWest => -1,
            Directions::South => -1,
            Directions::FarSouth => -2,
            Directions::SouthEast => -1,
        }
    }

    /// One step from `position` in this direction, or `None` where the
    /// step would leave the board.
    pub fn offset(&self, position: Position) -> (r: Option<Position>)
        requires
            position.wf(),
        ensures
            match r {
                Some(q) => {
                    &&& 0 <= file_of(position.sq()) + self.dfile() < 8
                    &&& 0 <= rank_of(position.sq()) + self.drank() < 8
                    &&& q.wf()
                    &&& q.sq() == sq_at(
                        file_of(position.sq()) + self.dfile(),
                        rank_of(position.sq()) + self.drank(),
                    )
                },
                None => !(0 <= file_of(position.sq()) + self.dfile() < 8 && 0 <= rank_of(
                    position.sq(),
                ) + self.drank() < 8),
            },
    {
        let i = position.square();
        let f = (i % 8) as i8 + self.file_step();
        let r = (i / 8) as i8 + self.rank_step();
        if 0 <= f && f < 8 && 0 <= r && r < 8 {
            Some(Position::from_coords(f as u8, r as u8))
        } else {
            None
        }
    }
}

impl Board {
    /// The placement mask of one piece kind of one team.
    pub fn get_board(&self, piece: Pieces, team: Teams) -> (r: PiecePositions)
        ensures
            r.0 == self.0@[team.off() + piece.idx()],
    {
        PiecePositions(self.0[team.offset_index() + piece.index()])
    }

    /// Relocates one piece's bit from `position` to `target`, in its own
    /// placement mask and in the aggregate mask.
    pub fn move_piece(&mut self, piece: Pieces, team: Teams, position: Position, target: Position)
        requires
            position.wf(),
            target.wf(),
        ensures
            final(self).0@ =~= old(self).0@.update(
                team.off() + piece.idx(),
                relocate(old(self).0@[team.off() + piece.idx()], position.sq(), target.sq()),
            ).update(12, relocate(old(self).0@[12], position.sq(), target.sq())),
    {
        proof {
            lemma_sq_mask(position);
            lemma_sq_mask(target);
        }
        let slot = team.offset_index() + piece.index();
        self.0[slot] = (self.0[slot] & !position.0) | target.0;
        self.0[12] = (self.0[12] & !position.0) | target.0;
    }

    /// Clears one square's bit in the placement mask at `slot` and in the
    /// aggregate mask.
    pub fn clear_square(&mut self, slot: usize, square: Position)
        requires
            slot < 12,
            square.wf(),
        ensures
            final(self).0@ =~= old(self).0@.update(
                slot as int,
                old(self).0@[slot as int] & !mask_of(square.sq()),
            ).update(12, old(self).0@[12] & !mask_of(square.sq())),
    {
        proof {
            lemma_sq_mask(square);
        }
        self.0[slot] = self.0[slot] & !square.0;
        self.0[12] = self.0[12] & !square.0;
    }
}

/// A placement mask with the bit at `from` cleared and the bit at `to` set.
pub open spec fn relocate(b: u64, from: int, to: int) -> u64 {
    (b & !mask_of(from)) | mask_of(to)
}

/// Appending one position to a sequence adds exactly that position to its
/// members.
pub broadcast proof fn lemma_push_contains(s0: Seq<Position>, p: Position, x: Position)
    ensures
        #[trigger] s0.push(p).contains(x) <==> (s0.contains(x) || x == p),
{
    if s0.contains(x) {
        let k = choose|k: int| 0 <= k < s0.len() && s0[k] == x;
        assert(s0.push(p)[k] == x);
    }
    if x == p {
        assert(s0.push(p)[s0.len() as int] == x);
    }
    if s0.push(p).contains(x) {
        let k = choose|k: int| 0 <= k < s0.push(p).len() && s0.push(p)[k] == x;
        if k < s0.len() {
            assert(s0[k] == x);
        }
    }
}

/// Two squares name the same position exactly when they are equal.
pub proof fn lemma_at_sq_eq(s: int, i: int)
    requires
        0 <= s < 64,
        0 <= i < 64,
    ensures
        (Position::at_sq(s) == Position::at_sq(i)) <==> s == i,
{
    lemma_mask_injective(s, i);
}

/// Whether the sequence of positions holds `p`.
pub fn contains_pos(v: &Vec<Position>, p: Position) -> (r: bool)
    ensures
        r == v@.contains(p),
{
    let mut k: usize = 0;
    while k < v.len()
        invariant
            k <= v@.len(),
            forall|j: int| 0 <= j < k ==> v@[j] != p,
        decreases v@.len() - k,
    {
        if v[k].0 == p.0 {
            assert(v@[k as int] == p);
            return true;
        }
        k = k + 1;
    }
    false
}

/// Whether the opposing team attacks `position`: some non-king piece of
/// the team opposing `team` reaches it in one unfiltered move.
pub fn is_in_check(board: &crate::ChessBoard, position: Position, team: Teams) -> (r: bool)
    requires
        position.wf(),
        board.lp_wf(),
    ensures
        r == crate::model::attacked(
            board.boards(),
            board.lp(),
            position.sq(),
            team.spec_opposite(),
        ),
{
    let enemy = team.opposite();
    let eoff = enemy.offset_index();
    let ghost bs = board.boards();
    let ghost lp = board.lp();
    let ghost target = position.sq();
    proof {
        lemma_sq_mask(position);
    }
    let mut pk: usize = 0;
    while pk < 5
        invariant
            pk <= 5,
            eoff == enemy.off(),
            enemy == team.spec_opposite(),
            position.wf(),
            board.lp_wf(),
            bs == board.boards(),
            lp == board.lp(),
            target == position.sq(),
            forall|k: int, i: int|
                eoff <= k < eoff + pk && 0 <= i < 64 ==> !(#[trigger] bit(bs[k], i)
                    && crate::model::pseudo_move_ok(
                    bs,
                    lp,
                    crate::model::piece_at(k - eoff as int),
                    enemy,
                    i,
                    target,
                )),
        decreases 5 - pk,
    {
        let piece = match pk {
            0 => Pieces::Pawn,
            1 => Pieces::Knight,
            2 => Pieces::Bishop,
            3 => Pieces::Rook,
            _ => Pieces::Queen,
        };
        assert(piece == crate::model::piece_at(pk as int));
        let bboard = board.board.0[eoff + pk];
        let mut sqi: u8 = 0;
        while sqi < 64
            invariant
                sqi <= 64,
                pk < 5,
                eoff == enemy.off(),
                enemy == team.spec_opposite(),
                position.wf(),
                board.lp_wf(),
                bs == board.boards(),
                lp == board.lp(),
                target == position.sq(),
                piece == crate::model::piece_at(pk as int),
                bboard == bs[eoff as int + pk as int],
                forall|k: int, i: int|
                    eoff <= k < eoff + pk && 0 <= i < 64 ==> !(#[trigger] bit(bs[k], i)
                        && crate::model::pseudo_move_ok(
                        bs,
                        lp,
                        crate::model::piece_at(k - eoff as int),
                        enemy,
                        i,
                        target,
                    )),
                forall|i: int|
                    0 <= i < sqi ==> !(#[trigger] bit(bs[eoff as int + pk as int], i)
                        && crate::model::pseudo_move_ok(bs, lp, piece, enemy, i, target)),
            decreases 64 - sqi,
        {
            proof {
                lemma_mask_of_sq(sqi as int);
            }
            if bboard & (1u64 << sqi) != 0 {
                let fp = Position(1u64 << sqi);
                let mvs = crate::pieces::pseudo_list(piece, fp, enemy, board);
                if contains_pos(&mvs, position) {
                    proof {
                        assert(mvs@.contains(Position::at_sq(target)));
                        assert(bit(bs[eoff as int + pk as int], sqi as int));
                        assert(crate::model::attacked(bs, lp, target, enemy));
                    }
                    return true;
                }
                proof {
                    assert(!mvs@.contains(Position::at_sq(target)));
                }
            }
            sqi = sqi + 1;
        }
        assert forall|k: int, i: int|
            eoff <= k < eoff + pk + 1 && 0 <= i < 64 implies !(#[trigger] bit(bs[k], i)
            && crate::model::pseudo_move_ok(
            bs,
            lp,
            crate::model::piece_at(k - eoff as int),
            enemy,
            i,
            target,
        )) by {
            if k == eoff + pk {
                assert(!(bit(bs[eoff as int + pk as int], i) && crate::model::pseudo_move_ok(
                    bs,
                    lp,
                    piece,
                    enemy,
                    i,
                    target,
                )));
            }
        }
        pk = pk + 1;
    }
    proof {
        if crate::model::attacked(bs, lp, target, enemy) {
            let (k, i) = choose|k: int, i: int|
                enemy.off() <= k < enemy.off() + 5 && 0 <= i < 64 && #[trigger] bit(bs[k], i)
                    && crate::model::pseudo_move_ok(
                    bs,
                    lp,
                    crate::model::piece_at(k - enemy.off()),
                    enemy,
                    i,
                    target,
                );
            assert(!(bit(bs[k], i) && crate::model::pseudo_move_ok(
                bs,
                lp,
                crate::model::piece_at(k - eoff as int),
                enemy,
                i,
                target,
            )));
        }
    }
    false
}

} // verus!
