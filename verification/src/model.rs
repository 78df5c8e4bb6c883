//! The mathematical model of the board: squares, single-square masks and
//! bit-level views of the thirteen occupancy masks.
//!
//! A square is an index `0 <= i < 64` with `i == file + rank * 8`; a
//! bitboard is a `u64` holding one bit per square.
//!
//! The movement rules are stated here as predicates over the plain data:
//! the thirteen masks as a sequence `bs`, the double-step pawn memory as
//! an optional square, and squares as indices. The executable move
//! generation is verified against these predicates.
use crate::pieces::Pieces;
use crate::util::{team_occ, GameStatus, Teams};
use vstd::prelude::*;

verus! {

/// The single-square mask of square `i`.
pub open spec fn mask_of(i: int) -> u64 {
    1u64 << (i as u64)
}

/// Whether bit `i` of the bitboard `b` is set.
pub open spec fn bit(b: u64, i: int) -> bool {
    b & mask_of(i) != 0
}

/// Whether `m` is a single-square mask.
pub open spec fn is_mask(m: u64) -> bool {
    exists|i: int| 0 <= i < 64 && m == mask_of(i)
}

/// The square of a single-square mask.
pub open spec fn sq_of(m: u64) -> int {
    choose|i: int| 0 <= i < 64 && m == mask_of(i)
}

/// The square with the given file and rank.
pub open spec fn sq_at(file: int, rank: int) -> int {
    file + rank * 8
}

/// The file of a square.
pub open spec fn file_of(i: int) -> int {
    i % 8
}

/// The rank of a square.
pub open spec fn rank_of(i: int) -> int {
    i / 8
}

pub broadcast proof fn lemma_mask_nonzero(i: int)
    requires
        0 <= i < 64,
    ensures
        #[trigger] mask_of(i) != 0,
        bit(mask_of(i), i),
{
    let iu = i as u64;
    assert(1u64 << iu != 0 && (1u64 << iu) & (1u64 << iu) != 0) by (bit_vector)
        requires
            iu < 64,
    ;
}

pub broadcast proof fn lemma_mask_injective(i: int, j: int)
    requires
        0 <= i < 64,
        0 <= j < 64,
    ensures
        #[trigger] bit(mask_of(i), j) <==> i == j,
        mask_of(i) == mask_of(j) ==> i == j,
{
    let iu = i as u64;
    let ju = j as u64;
    assert(((1u64 << iu) & (1u64 << ju) != 0 <==> iu == ju) && (1u64 << iu == 1u64 << ju
        ==> iu == ju)) by (bit_vector)
        requires
            iu < 64 && ju < 64,
    ;
}

pub broadcast proof fn lemma_bit_or(a: u64, b: u64, i: int)
    requires
        0 <= i < 64,
    ensures
        #[trigger] bit(a | b, i) <==> bit(a, i) || bit(b, i),
{
    let iu = i as u64;
    assert((a | b) & (1u64 << iu) != 0 <==> (a & (1u64 << iu) != 0) || (b & (1u64 << iu) != 0))
        by (bit_vector);
}

pub broadcast proof fn lemma_bit_set(b: u64, i: int, j: int)
    requires
        0 <= i < 64,
        0 <= j < 64,
    ensures
        #[trigger] bit(b | mask_of(i), j) <==> (i == j || bit(b, j)),
{
    let iu = i as u64;
    let ju = j as u64;
    assert((b | (1u64 << iu)) & (1u64 << ju) != 0 <==> (iu == ju || b & (1u64 << ju) != 0))
        by (bit_vector)
        requires
            iu < 64 && ju < 64,
    ;
}

pub broadcast proof fn lemma_bit_clear(b: u64, i: int, j: int)
    requires
        0 <= i < 64,
        0 <= j < 64,
    ensures
        #[trigger] bit(b & !mask_of(i), j) <==> (i != j && bit(b, j)),
{
    let iu = i as u64;
    let ju = j as u64;
    assert((b & !(1u64 << iu)) & (1u64 << ju) != 0 <==> (iu != ju && b & (1u64 << ju) != 0))
        by (bit_vector)
        requires
            iu < 64 && ju < 64,
    ;
}

pub broadcast proof fn lemma_bit_and(a: u64, b: u64, i: int)
    requires
        0 <= i < 64,
    ensures
        #[trigger] bit(a & b, i) <==> bit(a, i) && bit(b, i),
{
    let iu = i as u64;
    assert((a & b) & (1u64 << iu) != 0 <==> ((a & (1u64 << iu) != 0) && (b & (1u64 << iu) != 0)))
        by (bit_vector);
}

/// Two bitboards with no square in common.
pub open spec fn disjoint(a: u64, b: u64) -> bool {
    a & b == 0
}

/// Bitboards that share no square are disjoint.
pub proof fn lemma_disjoint_intro(a: u64, b: u64)
    requires
        forall|i: int| 0 <= i < 64 ==> !(bit(a, i) && bit(b, i)),
    ensures
        disjoint(a, b),
{
    assert forall|i: int| 0 <= i < 64 implies !bit(a & b, i) by {
        lemma_bit_and(a, b, i);
    }
    lemma_no_bits_zero(a & b);
}

pub broadcast proof fn lemma_disjoint_bit(a: u64, b: u64, i: int)
    requires
        0 <= i < 64,
        disjoint(a, b),
    ensures
        #![trigger bit(a, i), bit(b, i)]
        !(bit(a, i) && bit(b, i)),
{
    let iu = i as u64;
    assert(a & b == 0 ==> !(a & (1u64 << iu) != 0 && b & (1u64 << iu) != 0)) by (bit_vector);
}

/// A bitboard with no bit set below square 64 is zero.
pub proof fn lemma_no_bits_zero(b: u64)
    requires
        forall|i: int| 0 <= i < 64 ==> !bit(b, i),
    ensures
        b == 0,
{
    if b != 0 {
        assert(bit(b, 0) || bit(b, 1) || bit(b, 2) || bit(b, 3) || bit(b, 4) || bit(b, 5) || bit(
            b,
            6,
        ) || bit(b, 7) || bit(b, 8) || bit(b, 9) || bit(b, 10) || bit(b, 11) || bit(b, 12) || bit(
            b,
            13,
        ) || bit(b, 14) || bit(b, 15) || bit(b, 16) || bit(b, 17) || bit(b, 18) || bit(b, 19)
            || bit(b, 20) || bit(b, 21) || bit(b, 22) || bit(b, 23) || bit(b, 24) || bit(b, 25)
            || bit(b, 26) || bit(b, 27) || bit(b, 28) || bit(b, 29) || bit(b, 30) || bit(b, 31)
            || bit(b, 32) || bit(b, 33) || bit(b, 34) || bit(b, 35) || bit(b, 36) || bit(b, 37)
            || bit(b, 38) || bit(b, 39) || bit(b, 40) || bit(b, 41) || bit(b, 42) || bit(b, 43)
            || bit(b, 44) || bit(b, 45) || bit(b, 46) || bit(b, 47) || bit(b, 48) || bit(b, 49)
            || bit(b, 50) || bit(b, 51) || bit(b, 52) || bit(b, 53) || bit(b, 54) || bit(b, 55)
            || bit(b, 56) || bit(b, 57) || bit(b, 58) || bit(b, 59) || bit(b, 60) || bit(b, 61)
            || bit(b, 62) || bit(b, 63)) by (bit_vector)
            requires
                b != 0,
        ;
    }
}

/// Bitboards with the same squares are equal.
pub proof fn lemma_bits_extensional(a: u64, b: u64)
    requires
        forall|i: int| 0 <= i < 64 ==> (bit(a, i) <==> bit(b, i)),
    ensures
        a == b,
{
    let x = a ^ b;
    assert forall|i: int| 0 <= i < 64 implies !bit(x, i) by {
        assert(bit(a, i) <==> bit(b, i));
        let iu = i as u64;
        assert((a ^ b) & (1u64 << iu) != 0 <==> ((a & (1u64 << iu) != 0) != (b & (1u64 << iu)
            != 0))) by (bit_vector);
    }
    lemma_no_bits_zero(x);
    assert(a ^ b == 0 ==> a == b) by (bit_vector);
}

/// A file and rank in range name a square, whose file and rank they are.
pub proof fn lemma_sq_parts(f: int, r: int)
    requires
        0 <= f < 8,
        0 <= r < 8,
    ensures
        0 <= sq_at(f, r) < 64,
        file_of(sq_at(f, r)) == f,
        rank_of(sq_at(f, r)) == r,
{
    vstd::arithmetic::div_mod::lemma_fundamental_div_mod_converse(sq_at(f, r), 8, r, f);
}

/// Every square is named by its file and rank, which are in range.
pub proof fn lemma_sq_whole(i: int)
    requires
        0 <= i < 64,
    ensures
        0 <= file_of(i) < 8,
        0 <= rank_of(i) < 8,
        sq_at(file_of(i), rank_of(i)) == i,
{
    vstd::arithmetic::div_mod::lemma_fundamental_div_mod(i, 8);
    vstd::arithmetic::div_mod::lemma_mod_pos_bound(i, 8);
}

/// Whether any piece at all occupies square `i`.
pub open spec fn occ(bs: Seq<u64>, i: int) -> bool {
    bit(bs[12], i)
}

/// The union of the twelve placement masks.
pub open spec fn union12(bs: Seq<u64>) -> u64 {
    bs[0] | bs[1] | bs[2] | bs[3] | bs[4] | bs[5] | bs[6] | bs[7] | bs[8] | bs[9] | bs[10] | bs[11]
}

/// The boards are well formed: thirteen masks, the aggregate mask is the
/// union of the twelve placement masks, and no two placement masks share a
/// square.
pub open spec fn boards_ok(bs: Seq<u64>) -> bool {
    &&& bs.len() == 13
    &&& bs[12] == union12(bs)
    &&& forall|k1: int, k2: int|
        0 <= k1 < 12 && 0 <= k2 < 12 && k1 != k2 ==> disjoint(#[trigger] bs[k1], #[trigger] bs[k2])
}

/// A square is in the union of the twelve placement masks exactly when
/// some placement mask holds it.
pub proof fn lemma_union12_bit(bs: Seq<u64>, i: int)
    requires
        0 <= i < 64,
        bs.len() == 13,
    ensures
        bit(union12(bs), i) <==> exists|k: int| 0 <= k < 12 && #[trigger] bit(bs[k], i),
{
    let a1 = bs[0] | bs[1];
    let a2 = a1 | bs[2];
    let a3 = a2 | bs[3];
    let a4 = a3 | bs[4];
    let a5 = a4 | bs[5];
    let a6 = a5 | bs[6];
    let a7 = a6 | bs[7];
    let a8 = a7 | bs[8];
    let a9 = a8 | bs[9];
    let a10 = a9 | bs[10];
    lemma_bit_or(bs[0], bs[1], i);
    lemma_bit_or(a1, bs[2], i);
    lemma_bit_or(a2, bs[3], i);
    lemma_bit_or(a3, bs[4], i);
    lemma_bit_or(a4, bs[5], i);
    lemma_bit_or(a5, bs[6], i);
    lemma_bit_or(a6, bs[7], i);
    lemma_bit_or(a7, bs[8], i);
    lemma_bit_or(a8, bs[9], i);
    lemma_bit_or(a9, bs[10], i);
    lemma_bit_or(a10, bs[11], i);
}

/// A pawn's single push, double push from its starting rank, diagonal
/// capture, or en-passant capture.
pub open spec fn pawn_move_ok(
    bs: Seq<u64>,
    lp: Option<int>,
    team: Teams,
    from: int,
    to: int,
) -> bool {
    let f = file_of(from);
    let r = rank_of(from);
    let tf = file_of(to);
    let tr = rank_of(to);
    0 <= to < 64 && match team {
        Teams::White => {
            ||| (tf == f && tr == r + 1 && !occ(bs, to))
            ||| (tf == f && r == 1 && tr == 3 && !occ(bs, sq_at(f, 2)) && !occ(bs, to))
            ||| (tr == r + 1 && (tf == f - 1 || tf == f + 1) && team_occ(bs, Teams::Black, to))
            ||| en_passant_ok(bs, lp, Teams::White, from, to)
        },
        Teams::Black => {
            ||| (tf == f && tr == r - 1 && !occ(bs, to))
            ||| (tf == f && r == 6 && tr == 4 && !occ(bs, sq_at(f, 5)) && !occ(bs, to))
            ||| (tr == r - 1 && (tf == f - 1 || tf == f + 1) && team_occ(bs, Teams::White, to))
            ||| en_passant_ok(bs, lp, Teams::Black, from, to)
        },
    }
}

/// En-passant capture: the immediately preceding half-move was an enemy
/// pawn's two-square advance to `l`, that pawn stands one file beside the
/// moving pawn on the same rank, and the destination is the empty square
/// one rank beyond it along the moving team's forward direction.
pub open spec fn en_passant_ok(
    bs: Seq<u64>,
    lp: Option<int>,
    team: Teams,
    from: int,
    to: int,
) -> bool {
    match lp {
        Some(l) => {
            let f = file_of(from);
            let r = rank_of(from);
            &&& bit(bs[team.spec_opposite().off()], l)
            &&& rank_of(l) == r
            &&& (file_of(l) == f - 1 || file_of(l) == f + 1)
            &&& to == l + match team {
                Teams::White => 8int,
                Teams::Black => -8int,
            }
            &&& 0 <= to < 64
            &&& !occ(bs, to)
        },
        None => false,
    }
}

/// A knight's jump: two squares along one axis and one along the other,
/// onto a square not occupied by the moving team.
pub open spec fn knight_move_ok(bs: Seq<u64>, team: Teams, from: int, to: int) -> bool {
    let df = file_of(to) - file_of(from);
    let dr = rank_of(to) - rank_of(from);
    0 <= to < 64 && !team_occ(bs, team, to) && {
        ||| (df == 1 && dr == 2)
        ||| (df == 2 && dr == 1)
        ||| (df == -1 && dr == 2)
        ||| (df == -2 && dr == 1)
        ||| (df == 1 && dr == -2)
        ||| (df == 2 && dr == -1)
        ||| (df == -1 && dr == -2)
        ||| (df == -2 && dr == -1)
    }
}

/// A king's step: one square in any direction, onto a square not occupied
/// by the moving team.
pub open spec fn king_move_ok(bs: Seq<u64>, team: Teams, from: int, to: int) -> bool {
    let df = file_of(to) - file_of(from);
    let dr = rank_of(to) - rank_of(from);
    0 <= to < 64 && !team_occ(bs, team, to) && {
        ||| (df == 1 && dr == 1)
        ||| (df == 1 && dr == 0)
        ||| (df == 1 && dr == -1)
        ||| (df == 0 && dr == 1)
        ||| (df == 0 && dr == -1)
        ||| (df == -1 && dr == 1)
        ||| (df == -1 && dr == 0)
        ||| (df == -1 && dr == -1)
    }
}

/// Whether `to` lies on the ray cast from file `f`, rank `r` one step per
/// unit of `fuel` in direction (`df`, `dr`): the ray takes every empty
/// square, then the first occupied square only if the moving team does not
/// occupy it, and stops there.
pub open spec fn ray_reach(
    bs: Seq<u64>,
    team: Teams,
    f: int,
    r: int,
    df: int,
    dr: int,
    fuel: nat,
    to: int,
) -> bool
    decreases fuel,
{
    fuel > 0 && {
        let nf = f + df;
        let nr = r + dr;
        &&& 0 <= nf < 8
        &&& 0 <= nr < 8
        &&& {
            let n = sq_at(nf, nr);
            if occ(bs, n) {
                to == n && !team_occ(bs, team, n)
            } else {
                to == n || ray_reach(bs, team, nf, nr, df, dr, (fuel - 1) as nat, to)
            }
        }
    }
}

/// One unfolding of `ray_reach`.
pub proof fn lemma_ray_unfold(
    bs: Seq<u64>,
    team: Teams,
    f: int,
    r: int,
    df: int,
    dr: int,
    fuel: nat,
    to: int,
)
    requires
        fuel > 0,
    ensures
        ray_reach(bs, team, f, r, df, dr, fuel, to) == ({
            let nf = f + df;
            let nr = r + dr;
            &&& 0 <= nf < 8
            &&& 0 <= nr < 8
            &&& {
                let n = sq_at(nf, nr);
                if occ(bs, n) {
                    to == n && !team_occ(bs, team, n)
                } else {
                    to == n || ray_reach(bs, team, nf, nr, df, dr, (fuel - 1) as nat, to)
                }
            }
        }),
{
}

/// A ray only reaches squares of the board.
pub proof fn lemma_ray_bounds(
    bs: Seq<u64>,
    team: Teams,
    f: int,
    r: int,
    df: int,
    dr: int,
    fuel: nat,
    to: int,
)
    requires
        ray_reach(bs, team, f, r, df, dr, fuel, to),
    ensures
        0 <= to < 64,
    decreases fuel,
{
    let nf = f + df;
    let nr = r + dr;
    let n = sq_at(nf, nr);
    lemma_sq_parts(nf, nr);
    if !occ(bs, n) && to != n {
        lemma_ray_bounds(bs, team, nf, nr, df, dr, (fuel - 1) as nat, to);
    }
}

/// A bishop's move: a ray along one of the four diagonals.
pub open spec fn bishop_move_ok(bs: Seq<u64>, team: Teams, from: int, to: int) -> bool {
    let f = file_of(from);
    let r = rank_of(from);
    ||| ray_reach(bs, team, f, r, 1, 1, 7, to)
    ||| ray_reach(bs, team, f, r, 1, -1, 7, to)
    ||| ray_reach(bs, team, f, r, -1, 1, 7, to)
    ||| ray_reach(bs, team, f, r, -1, -1, 7, to)
}

/// A rook's move: a ray along one of the four files and ranks.
pub open spec fn rook_move_ok(bs: Seq<u64>, team: Teams, from: int, to: int) -> bool {
    let f = file_of(from);
    let r = rank_of(from);
    ||| ray_reach(bs, team, f, r, 1, 0, 7, to)
    ||| ray_reach(bs, team, f, r, -1, 0, 7, to)
    ||| ray_reach(bs, team, f, r, 0, 1, 7, to)
    ||| ray_reach(bs, team, f, r, 0, -1, 7, to)
}

/// A move of the stated piece kind, before the check-safety filter.
pub open spec fn pseudo_move_ok(
    bs: Seq<u64>,
    lp: Option<int>,
    piece: Pieces,
    team: Teams,
    from: int,
    to: int,
) -> bool {
    match piece {
        Pieces::Pawn => pawn_move_ok(bs, lp, team, from, to),
        Pieces::Knight => knight_move_ok(bs, team, from, to),
        Pieces::Bishop => bishop_move_ok(bs, team, from, to),
        Pieces::Rook => rook_move_ok(bs, team, from, to),
        Pieces::Queen => bishop_move_ok(bs, team, from, to) || rook_move_ok(bs, team, from, to),
        Pieces::King => king_move_ok(bs, team, from, to),
    }
}

/// The piece kind with index `k` within a team's six placement masks.
pub open spec fn piece_at(k: int) -> Pieces {
    if k == 0 {
        Pieces::Pawn
    } else if k == 1 {
        Pieces::Knight
    } else if k == 2 {
        Pieces::Bishop
    } else if k == 3 {
        Pieces::Rook
    } else if k == 4 {
        Pieces::Queen
    } else {
        Pieces::King
    }
}

/// Whether some non-king piece of team `by` reaches `target` in one
/// unfiltered move. Kings are excluded: a king cannot give check through
/// this detector.
pub open spec fn attacked(bs: Seq<u64>, lp: Option<int>, target: int, by: Teams) -> bool {
    exists|k: int, i: int|
        by.off() <= k < by.off() + 5 && 0 <= i < 64 && #[trigger] bit(bs[k], i) && pseudo_move_ok(
            bs,
            lp,
            piece_at(k - by.off()),
            by,
            i,
            target,
        )
}

/// Every move reaches a square of the board.
pub proof fn lemma_pseudo_bounds(
    bs: Seq<u64>,
    lp: Option<int>,
    piece: Pieces,
    team: Teams,
    from: int,
    to: int,
)
    requires
        pseudo_move_ok(bs, lp, piece, team, from, to),
    ensures
        0 <= to < 64,
{
    let f = file_of(from);
    let r = rank_of(from);
    if ray_reach(bs, team, f, r, 1, 1, 7, to) {
        lemma_ray_bounds(bs, team, f, r, 1, 1, 7, to);
    }
    if ray_reach(bs, team, f, r, 1, -1, 7, to) {
        lemma_ray_bounds(bs, team, f, r, 1, -1, 7, to);
    }
    if ray_reach(bs, team, f, r, -1, 1, 7, to) {
        lemma_ray_bounds(bs, team, f, r, -1, 1, 7, to);
    }
    if ray_reach(bs, team, f, r, -1, -1, 7, to) {
        lemma_ray_bounds(bs, team, f, r, -1, -1, 7, to);
    }
    if ray_reach(bs, team, f, r, 1, 0, 7, to) {
        lemma_ray_bounds(bs, team, f, r, 1, 0, 7, to);
    }
    if ray_reach(bs, team, f, r, -1, 0, 7, to) {
        lemma_ray_bounds(bs, team, f, r, -1, 0, 7, to);
    }
    if ray_reach(bs, team, f, r, 0, 1, 7, to) {
        lemma_ray_bounds(bs, team, f, r, 0, 1, 7, to);
    }
    if ray_reach(bs, team, f, r, 0, -1, 7, to) {
        lemma_ray_bounds(bs, team, f, r, 0, -1, 7, to);
    }
}

/// Nothing attacks a target outside the board.
pub proof fn lemma_attacked_oob(bs: Seq<u64>, lp: Option<int>, target: int, by: Teams)
    requires
        !(0 <= target < 64),
    ensures
        !attacked(bs, lp, target, by),
{
    if attacked(bs, lp, target, by) {
        let (k, i) = choose|k: int, i: int|
            by.off() <= k < by.off() + 5 && 0 <= i < 64 && #[trigger] bit(bs[k], i)
                && pseudo_move_ok(bs, lp, piece_at(k - by.off()), by, i, target);
        lemma_pseudo_bounds(bs, lp, piece_at(k - by.off()), by, i, target);
    }
}

/// The boards after virtually applying a move, as the check-safety probe
/// does: every enemy mask is cleared at the destination, the moving
/// piece's mask and the aggregate mask have the source bit cleared and the
/// destination bit set.
pub open spec fn sim_boards(
    bs: Seq<u64>,
    piece: Pieces,
    team: Teams,
    from: int,
    to: int,
) -> Seq<u64> {
    Seq::new(13, |k: int| sim_entry(bs, piece, team, from, to, k))
}

/// One mask of `sim_boards`.
pub open spec fn sim_entry(
    bs: Seq<u64>,
    piece: Pieces,
    team: Teams,
    from: int,
    to: int,
    k: int,
) -> u64 {
    let own = team.off() + piece.idx();
    let e = team.spec_opposite().off();
    if k == 12 {
        crate::util::relocate(bs[12], from, to)
    } else if k == own {
        crate::util::relocate(bs[k], from, to)
    } else if e <= k < e + 6 {
        bs[k] & !mask_of(to)
    } else {
        bs[k]
    }
}

/// The lowest set bit of `b` at or above square `i`, or 64 where there is
/// none.
pub open spec fn first_bit_from(b: u64, i: int) -> int
    decreases 64 - i when 0 <= i <= 64
{
    if i >= 64 {
        64
    } else if bit(b, i) {
        i
    } else {
        first_bit_from(b, i + 1)
    }
}

/// Whether the stated move would leave the moving team's own king
/// attacked: the move is applied virtually and the king's square is tested
/// for attack by the opposing team.
pub open spec fn sim_creates_check(
    bs: Seq<u64>,
    lp: Option<int>,
    piece: Pieces,
    team: Teams,
    from: int,
    to: int,
) -> bool {
    let sim = sim_boards(bs, piece, team, from, to);
    attacked(sim, lp, first_bit_from(sim[team.off() + 5], 0), team.spec_opposite())
}

/// A move of the stated piece kind that passes the check-safety filter.
pub open spec fn legal_move_ok(
    bs: Seq<u64>,
    lp: Option<int>,
    piece: Pieces,
    team: Teams,
    from: int,
    to: int,
) -> bool {
    pseudo_move_ok(bs, lp, piece, team, from, to) && !sim_creates_check(
        bs,
        lp,
        piece,
        team,
        from,
        to,
    )
}

/// With well-formed boards, a square some team occupies is occupied.
pub proof fn lemma_team_occ_occ(bs: Seq<u64>, team: Teams, i: int)
    requires
        boards_ok(bs),
        0 <= i < 64,
    ensures
        team_occ(bs, team, i) ==> occ(bs, i),
        !occ(bs, i) ==> forall|k: int| 0 <= k < 12 ==> !(#[trigger] bit(bs[k], i)),
{
    lemma_union12_bit(bs, i);
}

/// On well-formed boards, no move lands on a square the moving team
/// occupies.
pub proof fn lemma_dest_not_own(
    bs: Seq<u64>,
    lp: Option<int>,
    piece: Pieces,
    team: Teams,
    from: int,
    to: int,
)
    requires
        boards_ok(bs),
        pseudo_move_ok(bs, lp, piece, team, from, to),
    ensures
        !team_occ(bs, team, to),
{
    lemma_pseudo_bounds(bs, lp, piece, team, from, to);
    lemma_union12_bit(bs, to);
    let f = file_of(from);
    let r = rank_of(from);
    if team_occ(bs, team, to) && (team_occ(bs, team.spec_opposite(), to) || occ(bs, to)) {
        let k1 = choose|k: int|
            team.off() <= k < team.off() + 6 && #[trigger] bit(bs[k], to);
        if team_occ(bs, team.spec_opposite(), to) {
            let k2 = choose|k: int|
                team.spec_opposite().off() <= k < team.spec_opposite().off() + 6 && #[trigger] bit(
                    bs[k],
                    to,
                );
            lemma_disjoint_bit(bs[k1], bs[k2], to);
        }
    }
    if ray_reach(bs, team, f, r, 1, 1, 7, to) {
        lemma_ray_dest(bs, team, f, r, 1, 1, 7, to);
    }
    if ray_reach(bs, team, f, r, 1, -1, 7, to) {
        lemma_ray_dest(bs, team, f, r, 1, -1, 7, to);
    }
    if ray_reach(bs, team, f, r, -1, 1, 7, to) {
        lemma_ray_dest(bs, team, f, r, -1, 1, 7, to);
    }
    if ray_reach(bs, team, f, r, -1, -1, 7, to) {
        lemma_ray_dest(bs, team, f, r, -1, -1, 7, to);
    }
    if ray_reach(bs, team, f, r, 1, 0, 7, to) {
        lemma_ray_dest(bs, team, f, r, 1, 0, 7, to);
    }
    if ray_reach(bs, team, f, r, -1, 0, 7, to) {
        lemma_ray_dest(bs, team, f, r, -1, 0, 7, to);
    }
    if ray_reach(bs, team, f, r, 0, 1, 7, to) {
        lemma_ray_dest(bs, team, f, r, 0, 1, 7, to);
    }
    if ray_reach(bs, team, f, r, 0, -1, 7, to) {
        lemma_ray_dest(bs, team, f, r, 0, -1, 7, to);
    }
}

/// On well-formed boards, a ray never lands on the moving team's own
/// square.
pub proof fn lemma_ray_dest(
    bs: Seq<u64>,
    team: Teams,
    f: int,
    r: int,
    df: int,
    dr: int,
    fuel: nat,
    to: int,
)
    requires
        boards_ok(bs),
        ray_reach(bs, team, f, r, df, dr, fuel, to),
    ensures
        !team_occ(bs, team, to),
    decreases fuel,
{
    let nf = f + df;
    let nr = r + dr;
    let n = sq_at(nf, nr);
    lemma_sq_parts(nf, nr);
    if occ(bs, n) {
    } else if to == n {
        lemma_team_occ_occ(bs, team, to);
    } else {
        lemma_ray_dest(bs, team, nf, nr, df, dr, (fuel - 1) as nat, to);
    }
}

/// A move generated with the check-safety filter skipped or applied.
pub open spec fn move_ok(
    bs: Seq<u64>,
    lp: Option<int>,
    piece: Pieces,
    team: Teams,
    from: int,
    to: int,
    ignore_check: bool,
) -> bool {
    if ignore_check {
        pseudo_move_ok(bs, lp, piece, team, from, to)
    } else {
        legal_move_ok(bs, lp, piece, team, from, to)
    }
}

/// One mask of the board after a committed move: every enemy mask loses
/// the destination square, the enemy pawn mask also loses the square of a
/// pawn captured en passant, the moved piece's mask loses the source
/// square, the placed piece's mask (the promotion kind, where one applies)
/// gains the destination, and the aggregate mask follows.
pub open spec fn commit_entry(
    bs: Seq<u64>,
    piece: Pieces,
    team: Teams,
    from: int,
    to: int,
    placed: Pieces,
    ep: Option<int>,
    k: int,
) -> u64 {
    let src = team.off() + piece.idx();
    let dst = team.off() + placed.idx();
    let e = team.spec_opposite().off();
    if k == 12 {
        let a = bs[12] & !mask_of(from);
        let a2 = match ep {
            Some(l) => a & !mask_of(l),
            None => a,
        };
        a2 | mask_of(to)
    } else {
        let b0 = if e <= k < e + 6 {
            bs[k] & !mask_of(to)
        } else {
            bs[k]
        };
        let b1 = if k == e {
            match ep {
                Some(l) => b0 & !mask_of(l),
                None => b0,
            }
        } else {
            b0
        };
        let b2 = if k == src {
            b1 & !mask_of(from)
        } else {
            b1
        };
        if k == dst {
            b2 | mask_of(to)
        } else {
            b2
        }
    }
}

/// The thirteen masks after a committed move.
pub open spec fn commit_boards(
    bs: Seq<u64>,
    piece: Pieces,
    team: Teams,
    from: int,
    to: int,
    placed: Pieces,
    ep: Option<int>,
) -> Seq<u64> {
    Seq::new(13, |k: int| commit_entry(bs, piece, team, from, to, placed, ep, k))
}

/// A committed move preserves the board invariant: the aggregate mask
/// stays the union of the placement masks, the masks stay pairwise
/// disjoint, and each team keeps exactly one king.
pub proof fn lemma_commit_wf(
    bs: Seq<u64>,
    piece: Pieces,
    team: Teams,
    from: int,
    to: int,
    placed: Pieces,
    ep: Option<int>,
)
    requires
        boards_ok(bs),
        is_mask(bs[Teams::White.off() + 5]),
        is_mask(bs[Teams::Black.off() + 5]),
        0 <= from < 64,
        0 <= to < 64,
        bit(bs[team.off() + piece.idx()], from),
        !team_occ(bs, team, to),
        !bit(bs[team.spec_opposite().off() + 5], to),
        piece is King <==> placed is King,
        match ep {
            Some(l) => 0 <= l < 64 && l != to && bit(bs[team.spec_opposite().off()], l),
            None => true,
        },
    ensures
        boards_ok(commit_boards(bs, piece, team, from, to, placed, ep)),
        is_mask(commit_boards(bs, piece, team, from, to, placed, ep)[Teams::White.off() + 5]),
        is_mask(commit_boards(bs, piece, team, from, to, placed, ep)[Teams::Black.off() + 5]),
{
    let nbs = commit_boards(bs, piece, team, from, to, placed, ep);
    let src = team.off() + piece.idx();
    let dst = team.off() + placed.idx();
    let e = team.spec_opposite().off();
    assert(from != to) by {
        if from == to {
            assert(bit(bs[src], to));
        }
    }
    assert(match ep {
        Some(l) => l != from,
        None => true,
    }) by {
        match ep {
            Some(l) => {
                if l == from {
                    lemma_disjoint_bit(bs[e], bs[src], from);
                }
            },
            None => {},
        }
    }
    // Pointwise description of every new mask.
    assert forall|k: int, i: int| 0 <= k < 12 && 0 <= i < 64 implies (#[trigger] bit(nbs[k], i)
        == (if i == to {
        k == dst
    } else if i == from {
        k != src && bit(bs[k], i)
    } else if ep == Some(i) {
        k != e && bit(bs[k], i)
    } else {
        bit(bs[k], i)
    })) by {
        lemma_commit_entry_bit(bs, piece, team, from, to, placed, ep, k, i);
    }
    // The aggregate mask is the union of the new placement masks.
    assert forall|i: int| 0 <= i < 64 implies (bit(nbs[12], i) <==> bit(union12(nbs), i)) by {
        lemma_union12_bit(bs, i);
        lemma_union12_bit(nbs, i);
        lemma_agg_entry_bit(bs, piece, team, from, to, placed, ep, i);
        assert forall|k: int|
            #![trigger bit(nbs[k], i)]
            #![trigger bit(bs[k], i)]
            0 <= k < 12 implies (bit(nbs[k], i) == (if i == to {
            k == dst
        } else if i == from {
            k != src && bit(bs[k], i)
        } else if ep == Some(i) {
            k != e && bit(bs[k], i)
        } else {
            bit(bs[k], i)
        })) by {
            lemma_commit_entry_bit(bs, piece, team, from, to, placed, ep, k, i);
        }
        if i == to {
            assert(bit(nbs[dst], i));
        } else if i == from {
            assert(bit(bs[12], i)) by {
                assert(bit(bs[src], from));
            }
            assert forall|k: int| 0 <= k < 12 implies !bit(nbs[k], i) by {
                if k != src && bit(bs[k], i) {
                    lemma_disjoint_bit(bs[src], bs[k], i);
                }
            }
        } else if ep == Some(i) {
            assert forall|k: int| 0 <= k < 12 implies !bit(nbs[k], i) by {
                if k != e && bit(bs[k], i) {
                    lemma_disjoint_bit(bs[e], bs[k], i);
                }
            }
        } else {
            assert(bit(bs[12], i) <==> bit(union12(bs), i));
        }
    }
    lemma_bits_extensional(nbs[12], union12(nbs));
    // The new placement masks are pairwise disjoint.
    assert forall|k1: int, k2: int| 0 <= k1 < 12 && 0 <= k2 < 12 && k1 != k2 implies disjoint(
        #[trigger] nbs[k1],
        #[trigger] nbs[k2],
    ) by {
        assert forall|i: int| 0 <= i < 64 implies !(bit(nbs[k1], i) && bit(nbs[k2], i)) by {
            lemma_disjoint_bit(bs[k1], bs[k2], i);
        }
        lemma_disjoint_intro(nbs[k1], nbs[k2]);
    }
    // Each team keeps exactly one king.
    lemma_commit_kings(bs, piece, team, from, to, placed, ep);
}

/// The bit-level effect of a committed move on one placement mask.
proof fn lemma_commit_entry_bit(
    bs: Seq<u64>,
    piece: Pieces,
    team: Teams,
    from: int,
    to: int,
    placed: Pieces,
    ep: Option<int>,
    k: int,
    i: int,
)
    requires
        0 <= from < 64,
        0 <= to < 64,
        from != to,
        0 <= k < 12,
        0 <= i < 64,
        !team_occ(bs, team, to),
        match ep {
            Some(l) => 0 <= l < 64 && l != to && l != from,
            None => true,
        },
    ensures
        bit(commit_entry(bs, piece, team, from, to, placed, ep, k), i) == (if i == to {
            k == team.off() + placed.idx()
        } else if i == from {
            k != team.off() + piece.idx() && bit(bs[k], i)
        } else if ep == Some(i) {
            k != team.spec_opposite().off() && bit(bs[k], i)
        } else {
            bit(bs[k], i)
        }),
{
    let src = team.off() + piece.idx();
    let dst = team.off() + placed.idx();
    let e = team.spec_opposite().off();
    let b0 = if e <= k < e + 6 {
        bs[k] & !mask_of(to)
    } else {
        bs[k]
    };
    let b1 = if k == e {
        match ep {
            Some(l) => b0 & !mask_of(l),
            None => b0,
        }
    } else {
        b0
    };
    let b2 = if k == src {
        b1 & !mask_of(from)
    } else {
        b1
    };
    lemma_bit_clear(bs[k], to, i);
    match ep {
        Some(l) => {
            lemma_bit_clear(b0, l, i);
        },
        None => {},
    }
    lemma_bit_clear(b1, from, i);
    lemma_bit_set(b2, to, i);
    // At the destination, a mask of the moving team other than the placed
    // one never held the square: the destination is not occupied by the
    // moving team.
    if i == to && team.off() <= k < team.off() + 6 && bit(bs[k], i) {
        assert(team_occ(bs, team, to));
    }
}

/// Each team keeps exactly one king over a committed move.
proof fn lemma_commit_kings(
    bs: Seq<u64>,
    piece: Pieces,
    team: Teams,
    from: int,
    to: int,
    placed: Pieces,
    ep: Option<int>,
)
    requires
        boards_ok(bs),
        is_mask(bs[Teams::White.off() + 5]),
        is_mask(bs[Teams::Black.off() + 5]),
        0 <= from < 64,
        0 <= to < 64,
        from != to,
        bit(bs[team.off() + piece.idx()], from),
        !team_occ(bs, team, to),
        !bit(bs[team.spec_opposite().off() + 5], to),
        piece is King <==> placed is King,
        match ep {
            Some(l) => 0 <= l < 64 && l != to && l != from,
            None => true,
        },
    ensures
        is_mask(commit_boards(bs, piece, team, from, to, placed, ep)[Teams::White.off() + 5]),
        is_mask(commit_boards(bs, piece, team, from, to, placed, ep)[Teams::Black.off() + 5]),
{
    let nbs = commit_boards(bs, piece, team, from, to, placed, ep);
    let src = team.off() + piece.idx();
    let dst = team.off() + placed.idx();
    let e = team.spec_opposite().off();
    let okidx = team.off() + 5;
    let ekidx = e + 5;
    // The enemy king stands neither on the destination nor on the
    // en-passant square (that square holds an enemy pawn, a different
    // mask), so its mask keeps the same squares.
    assert forall|i: int| 0 <= i < 64 implies (bit(nbs[ekidx], i) <==> bit(bs[ekidx], i)) by {
        lemma_commit_entry_bit(bs, piece, team, from, to, placed, ep, ekidx, i);
        if ep == Some(i) && bit(bs[ekidx], i) {
            lemma_disjoint_bit(bs[e], bs[ekidx], i);
        }
    }
    lemma_bits_extensional(nbs[ekidx], bs[ekidx]);
    if piece is King {
        // The king's own single bit moves from the source to the
        // destination.
        let w = choose|i: int| 0 <= i < 64 && bs[okidx] == mask_of(i);
        lemma_mask_injective(w, from);
        assert(bs[okidx] == mask_of(from));
        assert forall|i: int| 0 <= i < 64 implies (bit(nbs[okidx], i) <==> bit(mask_of(to), i)) by {
            lemma_commit_entry_bit(bs, piece, team, from, to, placed, ep, okidx, i);
            lemma_mask_injective(from, i);
            lemma_mask_injective(to, i);
        }
        lemma_bits_extensional(nbs[okidx], mask_of(to));
    } else {
        // The moving team's king mask is untouched.
        assert forall|i: int| 0 <= i < 64 implies (bit(nbs[okidx], i) <==> bit(bs[okidx], i)) by {
            lemma_commit_entry_bit(bs, piece, team, from, to, placed, ep, okidx, i);
            if i == to && bit(bs[okidx], i) {
                assert(team_occ(bs, team, to));
            }
            if i == to && !bit(bs[okidx], i) {
            }
        }
        lemma_bits_extensional(nbs[okidx], bs[okidx]);
    }
}

/// The bit-level effect of a committed move on the aggregate mask.
proof fn lemma_agg_entry_bit(
    bs: Seq<u64>,
    piece: Pieces,
    team: Teams,
    from: int,
    to: int,
    placed: Pieces,
    ep: Option<int>,
    i: int,
)
    requires
        0 <= from < 64,
        0 <= to < 64,
        0 <= i < 64,
        match ep {
            Some(l) => 0 <= l < 64,
            None => true,
        },
    ensures
        bit(commit_boards(bs, piece, team, from, to, placed, ep)[12], i) == (i == to || (bit(
            bs[12],
            i,
        ) && i != from && ep != Some(i))),
{
    let a = bs[12] & !mask_of(from);
    let a2 = match ep {
        Some(l) => a & !mask_of(l),
        None => a,
    };
    lemma_bit_clear(bs[12], from, i);
    match ep {
        Some(l) => {
            lemma_bit_clear(a, l, i);
        },
        None => {},
    }
    lemma_bit_set(a2, to, i);
}

/// A pawn move to an empty square on another file is an en-passant
/// capture: the en-passant memory names the enemy pawn beside the moving
/// pawn, one rank short of the destination.
pub proof fn lemma_ep_facts(bs: Seq<u64>, lp: Option<int>, team: Teams, from: int, to: int)
    requires
        boards_ok(bs),
        0 <= from < 64,
        pawn_move_ok(bs, lp, team, from, to),
        file_of(to) != file_of(from),
        !occ(bs, to),
    ensures
        ({
            let l = sq_at(file_of(to), rank_of(from));
            &&& lp == Some(l)
            &&& 0 <= l < 64
            &&& l != to
            &&& bit(bs[team.spec_opposite().off()], l)
        }),
{
    lemma_sq_whole(from);
    lemma_sq_whole(to);
    if team_occ(bs, team.spec_opposite(), to) {
        lemma_team_occ_occ(bs, team.spec_opposite(), to);
    }
    match lp {
        Some(l0) => {
            assert(en_passant_ok(bs, lp, team, from, to));
            assert(0 <= l0 < 64) by {
                assert(rank_of(l0) == rank_of(from));
                match team {
                    Teams::White => {
                        assert(l0 == to - 8);
                    },
                    Teams::Black => {
                        assert(l0 == to + 8);
                    },
                }
            }
            lemma_sq_whole(l0);
            match team {
                Teams::White => {
                    lemma_sq_parts(file_of(l0), rank_of(l0) + 1);
                },
                Teams::Black => {
                    lemma_sq_parts(file_of(l0), rank_of(l0) - 1);
                },
            }
        },
        None => {},
    }
}

/// Whether the piece `pc` standing at square `i` has any move that passes
/// the check-safety filter.
pub open spec fn piece_has_move(
    bs: Seq<u64>,
    lp: Option<int>,
    pc: Pieces,
    team: Teams,
    i: int,
) -> bool {
    exists|j: int| 0 <= j < 64 && #[trigger] legal_move_ok(bs, lp, pc, team, i, j)
}

/// Whether any piece of `team` has any move that passes the check-safety
/// filter.
pub open spec fn team_has_legal_move(bs: Seq<u64>, lp: Option<int>, team: Teams) -> bool {
    exists|k: int, i: int|
        team.off() <= k < team.off() + 6 && 0 <= i < 64 && #[trigger] bit(bs[k], i)
            && piece_has_move(bs, lp, piece_at(k - team.off()), team, i)
}

/// The outcome for one team: `Ongoing` while it has any legal move; with
/// none, the opposing team wins if this team's king is attacked, else the
/// game is a stalemate.
pub open spec fn mate_status(bs: Seq<u64>, lp: Option<int>, team: Teams) -> GameStatus {
    if team_has_legal_move(bs, lp, team) {
        GameStatus::Ongoing
    } else if attacked(bs, lp, first_bit_from(bs[team.off() + 5], 0), team.spec_opposite()) {
        team.spec_opposite().spec_win_status()
    } else {
        GameStatus::DrawByStalemate
    }
}

/// The end-of-move outcome: White is examined first; Black is examined
/// only if the game is still ongoing after that.
pub open spec fn evaluate_mates(bs: Seq<u64>, lp: Option<int>) -> GameStatus {
    let w = mate_status(bs, lp, Teams::White);
    if w is Ongoing {
        mate_status(bs, lp, Teams::Black)
    } else {
        w
    }
}

/// Scanning from any square at or below a set bit finds a set bit.
pub proof fn lemma_first_bit_finds(b: u64, s: int, i: int)
    requires
        0 <= s <= i < 64,
        bit(b, i),
    ensures
        s <= first_bit_from(b, s) <= i,
        bit(b, first_bit_from(b, s)),
    decreases i - s,
{
    if !bit(b, s) {
        lemma_first_bit_finds(b, s + 1, i);
    }
}

} // verus!
