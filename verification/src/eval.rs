//! Handcrafted evaluation terms: material, piece-square tables, mobility
//! and basic king safety. Scores are centipawns.
use vstd::prelude::*;
use crate::bits::{popcount, count_ones, lsb, clear_lsb, lemma_lsb, pop_lsb, is_set, bit, lemma_and_bit, lemma_popcount_bound};
use crate::board::{Position, WHITE, BLACK, PAWN, KNIGHT, BISHOP, ROOK, QUEEN, KING, FILE_A, file_of, rank_of, sq};
use crate::movegen::{
    Tables, piece_attacks, king_square, king_sq, bishop_attacks, rook_attacks, queen_attacks,
    gen_pseudo_legal, pseudo_moves, gen_ok,
};
use vstd::std_specs::bits::{u64_trailing_zeros, axiom_u64_trailing_zeros};

verus! {

pub const MATE_SCORE: i32 = 30000;

/// Material value of each piece type (pawn, knight, bishop, rook, queen, king).
pub const PIECE_VALUE: [i32; 6] = [100, 320, 330, 500, 900, 0];

// Piece-square tables ("simplified evaluation"), written eighth rank first;
// white pieces read them with the rank flipped.
pub const PAWN_PST: [i32; 64] = [
      0,  0,  0,  0,  0,  0,  0,  0,
     50, 50, 50, 50, 50, 50, 50, 50,
     10, 10, 20, 30, 30, 20, 10, 10,
      5,  5, 10, 25, 25, 10,  5,  5,
      0,  0,  0, 20, 20,  0,  0,  0,
      5, -5,-10,  0,  0,-10, -5,  5,
      5, 10, 10,-20,-20, 10, 10,  5,
      0,  0,  0,  0,  0,  0,  0,  0,
];
pub const KNIGHT_PST: [i32; 64] = [
    -50,-40,-30,-30,-30,-30,-40,-50,
    -40,-20,  0,  0,  0,  0,-20,-40,
    -30,  0, 10, 15, 15, 10,  0,-30,
    -30,  5, 15, 20, 20, 15,  5,-30,
    -30,  0, 15, 20, 20, 15,  0,-30,
    -30,  5, 10, 15, 15, 10,  5,-30,
    -40,-20,  0,  5,  5,  0,-20,-40,
    -50,-40,-30,-30,-30,-30,-40,-50,
];
pub const BISHOP_PST: [i32; 64] = [
    -20,-10,-10,-10,-10,-10,-10,-20,
    -10,  0,  0,  0,  0,  0,  0,-10,
    -10,  0,  5, 10, 10,  5,  0,-10,
    -10,  5,  5, 10, 10,  5,  5,-10,
    -10,  0, 10, 10, 10, 10,  0,-10,
    -10, 10, 10, 10, 10, 10, 10,-10,
    -10,  5,  0,  0,  0,  0,  5,-10,
    -20,-10,-10,-10,-10,-10,-10,-20,
];
pub const ROOK_PST: [i32; 64] = [
      0,  0,  0,  0,  0,  0,  0,  0,
      5, 10, 10, 10, 10, 10, 10,  5,
     -5,  0,  0,  0,  0,  0,  0, -5,
     -5,  0,  0,  0,  0,  0,  0, -5,
     -5,  0,  0,  0,  0,  0,  0, -5,
     -5,  0,  0,  0,  0,  0,  0, -5,
     -5,  0,  0,  0,  0,  0,  0, -5,
      0,  0,  0,  5,  5,  0,  0,  0,
];
pub const QUEEN_PST: [i32; 64] = [
    -20,-10,-10, -5, -5,-10,-10,-20,
    -10,  0,  0,  0,  0,  0,  0,-10,
    -10,  0,  5,  5,  5,  5,  0,-10,
     -5,  0,  5,  5,  5,  5,  0, -5,
      0,  0,  5,  5,  5,  5,  0, -5,
    -10,  5,  5,  5,  5,  5,  0,-10,
    -10,  0,  5,  0,  0,  0,  0,-10,
    -20,-10,-10, -5, -5,-10,-10,-20,
];
pub const KING_MG_PST: [i32; 64] = [
    -30,-40,-40,-50,-50,-40,-40,-30,
    -30,-40,-40,-50,-50,-40,-40,-30,
    -30,-40,-40,-50,-50,-40,-40,-30,
    -30,-40,-40,-50,-50,-40,-40,-30,
    -20,-30,-30,-40,-40,-30,-30,-20,
    -10,-20,-20,-20,-20,-20,-20,-10,
     20, 20,  0,  0,  0,  0, 20, 20,
     20, 30, 10,  0,  0, 10, 30, 20,
];
pub const KING_EG_PST: [i32; 64] = [
    -50,-40,-30,-20,-20,-30,-40,-50,
    -30,-20,-10,  0,  0,-10,-20,-30,
    -30,-10, 20, 30, 30, 20,-10,-30,
    -30,-10, 30, 40, 40, 30,-10,-30,
    -30,-10, 30, 40, 40, 30,-10,-30,
    -30,-10, 20, 30, 30, 20,-10,-30,
    -30,-30,  0,  0,  0,  0,-30,-30,
    -50,-30,-30,-30,-30,-30,-30,-50,
];

/// Mobility weight of each piece type.
pub const MOBILITY_WEIGHT: [i32; 6] = [0, 4, 4, 2, 1, 0];

/// Piece-square table index of square `s` for `color`: the rank is flipped
/// for white.
pub open spec fn pst_index(color: int, s: u8) -> int {
    if color == WHITE { (s ^ 56u8) as int } else { s as int }
}

proof fn lemma_flip_rank(s: u8)
    by (bit_vector)
    requires
        s < 64,
    ensures
        s ^ 56u8 < 64,
{
}

fn pst_index_exec(color: usize, s: u8) -> (i: usize)
    requires
        s < 64,
    ensures
        i == pst_index(color as int, s),
        i < 64,
{
    proof {
        lemma_flip_rank(s);
    }
    if color == WHITE { (s ^ 56) as usize } else { s as usize }
}

/// Piece-square bonus of a non-king piece (0 for the king, whose bonus
/// blends the middlegame and endgame tables by game phase).
pub open spec fn pst_spec(ptype: int, color: int, s: u8) -> int {
    let idx = pst_index(color, s);
    if ptype == PAWN {
        PAWN_PST[idx] as int
    } else if ptype == KNIGHT {
        KNIGHT_PST[idx] as int
    } else if ptype == BISHOP {
        BISHOP_PST[idx] as int
    } else if ptype == ROOK {
        ROOK_PST[idx] as int
    } else if ptype == QUEEN {
        QUEEN_PST[idx] as int
    } else {
        0
    }
}

/// Piece-square bonus of a non-king piece on `s`; 0 for the king and for
/// unknown piece types.
pub fn piece_square_value(ptype: usize, color: usize, s: u8) -> (v: i32)
    requires
        s < 64,
    ensures
        v == pst_spec(ptype as int, color as int, s),
{
    let idx = pst_index_exec(color, s);
    match ptype {
        PAWN => PAWN_PST[idx],
        KNIGHT => KNIGHT_PST[idx],
        BISHOP => BISHOP_PST[idx],
        ROOK => ROOK_PST[idx],
        QUEEN => QUEEN_PST[idx],
        _ => 0,
    }
}

/// Middlegame and endgame piece-square values of a king of `color` on `s`.
pub fn king_square_values(color: usize, s: u8) -> (r: (i32, i32))
    requires
        s < 64,
    ensures
        r == (KING_MG_PST[pst_index(color as int, s)], KING_EG_PST[pst_index(color as int, s)]),
{
    let idx = pst_index_exec(color, s);
    (KING_MG_PST[idx], KING_EG_PST[idx])
}

/// Non-pawn material of one colour.
pub open spec fn color_material(pos: Position, c: int) -> int {
    let r = pos.pieces[c];
    (popcount(r[1]) * 320 + popcount(r[2]) * 330 + popcount(r[3]) * 500 + popcount(r[4]) * 900) as int
}

/// Non-pawn material of both sides, the measure of game phase.
pub open spec fn phase_material_spec(pos: Position) -> int {
    color_material(pos, 0) + color_material(pos, 1)
}

/// Non-pawn material of both sides (knights 320, bishops 330, rooks 500,
/// queens 900): the input of the game-phase estimate.
pub fn phase_material(pos: &Position) -> (total: i32)
    ensures
        total == phase_material_spec(*pos),
{
    let mut total = 0i32;
    for c in 0..2usize
        invariant
            total == (if c == 0 { 0 } else if c == 1 { color_material(*pos, 0) } else {
                color_material(*pos, 0) + color_material(*pos, 1)
            }),
            0 <= total <= c * 64 * 2050,
    {
        proof {
            lemma_popcount_bound(pos.pieces[c as int][1]);
            lemma_popcount_bound(pos.pieces[c as int][2]);
            lemma_popcount_bound(pos.pieces[c as int][3]);
            lemma_popcount_bound(pos.pieces[c as int][4]);
        }
        total += (count_ones(pos.pieces[c][KNIGHT]) as i32) * 320;
        total += (count_ones(pos.pieces[c][BISHOP]) as i32) * 330;
        total += (count_ones(pos.pieces[c][ROOK]) as i32) * 500;
        total += (count_ones(pos.pieces[c][QUEEN]) as i32) * 900;
    }
    total
}

/// Pawn-shield and open-file terms for the king of `color`: -15 for each
/// file next to (or of) the king without an own pawn, +10 for each own
/// pawn on the three squares in front of the king.
pub open spec fn king_safety_spec(pos: Position, color: int) -> int {
    let ks = king_sq(pos, color);
    let kf = ks % 8;
    let shield_rank = if color == WHITE { ks / 8 + 1 } else { ks / 8 - 1 };
    shield_term(pos, color, kf - 1, shield_rank) + shield_term(pos, color, kf, shield_rank) + shield_term(
        pos,
        color,
        kf + 1,
        shield_rank,
    )
}

/// The king-safety contribution of file `f`.
pub open spec fn shield_term(pos: Position, color: int, f: int, shield_rank: int) -> int {
    let pawns = pos.pieces[color][PAWN as int];
    if !(0 <= f < 8) {
        0
    } else {
        (if pawns & ((FILE_A << (f as u64)) as u64) == 0 { -15int } else { 0int }) + (if 0 <= shield_rank < 8
            && pawns & bit(shield_rank * 8 + f) != 0 {
            10int
        } else {
            0int
        })
    }
}

/// Pawn-shield and open-file terms for the king of `color`.
pub fn king_safety(pos: &Position, color: usize) -> (score: i32)
    requires
        color < 2,
    ensures
        score == king_safety_spec(*pos, color as int),
{
    let ks = king_square(pos, color);
    let kf = file_of(ks) as i32;
    let mut score: i32 = 0;
    let (shield_rank, _dir): (i32, i32) = if color == WHITE {
        (rank_of(ks) as i32 + 1, 1)
    } else {
        (rank_of(ks) as i32 - 1, -1)
    };
    let ghost sr: int = shield_rank as int;
    let mut df: i32 = -1;
    while df <= 1
        invariant
            -1 <= df <= 2,
            color < 2,
            kf == king_sq(*pos, color as int) % 8,
            shield_rank == sr,
            sr == (if color == WHITE { king_sq(*pos, color as int) / 8 + 1 } else { king_sq(*pos, color as int) / 8 - 1 }),
            score == (if df >= 0 { shield_term(*pos, color as int, kf - 1, sr) } else { 0 }) + (if df >= 1 {
                shield_term(*pos, color as int, kf as int, sr)
            } else {
                0
            }) + (if df >= 2 { shield_term(*pos, color as int, kf + 1, sr) } else { 0 }),
        decreases 2 - df,
    {
        let f = kf + df;
        if 0 <= f && f < 8 {
            let own_pawns_on_file = {
                let file_mask = FILE_A << f;
                pos.pieces[color][PAWN] & file_mask
            };
            if own_pawns_on_file == 0 {
                score -= 15;
            }
            if 0 <= shield_rank && shield_rank < 8 {
                let shield_sq = sq(f as u8, shield_rank as u8);
                if pos.pieces[color][PAWN] & (1u64 << shield_sq) != 0 {
                    score += 10;
                }
            }
        }
        df += 1;
    }
    score
}

/// Weighted count of the squares that the pieces of type `piece` on the
/// squares of `bb` attack and that do not hold a piece of `color`.
pub open spec fn mobility_sum(pos: Position, color: int, piece: int, bb: u64) -> int
    decreases bb,
{
    if bb == 0 {
        0
    } else {
        proof {
            lemma_lsb(bb);
        }
        popcount(piece_attacks(piece, lsb(bb), pos.all_occ) & !pos.occ[color]) * MOBILITY_WEIGHT[piece]
            + mobility_sum(pos, color, piece, clear_lsb(bb))
    }
}

/// Mobility of `color`: attacked squares not holding an own piece, weighted
/// 4 per knight and bishop square, 2 per rook square and 1 per queen square.
pub open spec fn mobility_spec(pos: Position, color: int) -> int {
    mobility_sum(pos, color, KNIGHT as int, pos.pieces[color][KNIGHT as int]) + mobility_sum(
        pos,
        color,
        BISHOP as int,
        pos.pieces[color][BISHOP as int],
    ) + mobility_sum(pos, color, ROOK as int, pos.pieces[color][ROOK as int]) + mobility_sum(
        pos,
        color,
        QUEEN as int,
        pos.pieces[color][QUEEN as int],
    )
}

proof fn lemma_mobility_sum_bound(pos: Position, color: int, piece: int, bb: u64)
    requires
        0 <= piece < 6,
    ensures
        0 <= mobility_sum(pos, color, piece, bb) <= popcount(bb) * 256,
    decreases bb,
{
    if bb != 0 {
        lemma_lsb(bb);
        lemma_mobility_sum_bound(pos, color, piece, clear_lsb(bb));
        let a = piece_attacks(piece, lsb(bb), pos.all_occ) & !pos.occ[color];
        lemma_popcount_bound(a);
        assert(0 <= MOBILITY_WEIGHT[piece] <= 4);
        assert(popcount(a) * MOBILITY_WEIGHT[piece] <= 64 * 4) by (nonlinear_arith)
            requires
                popcount(a) <= 64,
                0 <= MOBILITY_WEIGHT[piece] <= 4;
        assert(popcount(a) * MOBILITY_WEIGHT[piece] >= 0) by (nonlinear_arith)
            requires
                popcount(a) >= 0,
                0 <= MOBILITY_WEIGHT[piece];
    }
}

fn mobility_of(t: &Tables, pos: &Position, color: usize, piece: usize) -> (score: i32)
    requires
        t.wf(),
        color < 2,
        piece == KNIGHT || piece == BISHOP || piece == ROOK || piece == QUEEN,
    ensures
        score == mobility_sum(*pos, color as int, piece as int, pos.pieces[color as int][piece as int]),
{
    let occ = pos.all_occ;
    let own = pos.occ[color];
    let mut score = 0i32;
    let mut pieces = pos.pieces[color][piece];
    proof {
        lemma_mobility_sum_bound(*pos, color as int, piece as int, pieces);
        lemma_popcount_bound(pieces);
    }
    while pieces != 0
        invariant
            t.wf(),
            color < 2,
            piece == KNIGHT || piece == BISHOP || piece == ROOK || piece == QUEEN,
            occ == pos.all_occ,
            own == pos.occ[color as int],
            0 <= score,
            score + mobility_sum(*pos, color as int, piece as int, pieces) == mobility_sum(
                *pos,
                color as int,
                piece as int,
                pos.pieces[color as int][piece as int],
            ),
            mobility_sum(*pos, color as int, piece as int, pos.pieces[color as int][piece as int]) <= 64 * 256,
        decreases pieces,
    {
        proof {
            lemma_lsb(pieces);
            lemma_mobility_sum_bound(*pos, color as int, piece as int, clear_lsb(pieces));
        }
        let s = pop_lsb(&mut pieces);
        let atk = if piece == KNIGHT {
            t.knight[s as usize]
        } else if piece == BISHOP {
            bishop_attacks(t, s, occ)
        } else if piece == ROOK {
            rook_attacks(t, s, occ)
        } else {
            queen_attacks(t, s, occ)
        };
        let n = count_ones(atk & !own) as i32;
        score += n * MOBILITY_WEIGHT[piece];
    }
    score
}

/// Mobility of `color`: attacked squares not holding an own piece, weighted
/// 4 per knight and bishop square, 2 per rook square and 1 per queen square.
pub fn mobility(t: &Tables, pos: &Position, color: usize) -> (score: i32)
    requires
        t.wf(),
        color < 2,
    ensures
        score == mobility_spec(*pos, color as int),
{
    proof {
        lemma_mobility_sum_bound(*pos, color as int, KNIGHT as int, pos.pieces[color as int][KNIGHT as int]);
        lemma_mobility_sum_bound(*pos, color as int, BISHOP as int, pos.pieces[color as int][BISHOP as int]);
        lemma_mobility_sum_bound(*pos, color as int, ROOK as int, pos.pieces[color as int][ROOK as int]);
        lemma_mobility_sum_bound(*pos, color as int, QUEEN as int, pos.pieces[color as int][QUEEN as int]);
        lemma_popcount_bound(pos.pieces[color as int][KNIGHT as int]);
        lemma_popcount_bound(pos.pieces[color as int][BISHOP as int]);
        lemma_popcount_bound(pos.pieces[color as int][ROOK as int]);
        lemma_popcount_bound(pos.pieces[color as int][QUEEN as int]);
    }
    let mut score = mobility_of(t, pos, color, KNIGHT);
    score += mobility_of(t, pos, color, BISHOP);
    score += mobility_of(t, pos, color, ROOK);
    score += mobility_of(t, pos, color, QUEEN);
    score
}

/// Number of pseudo-legal moves.
pub fn pseudo_move_count(t: &Tables, pos: &Position) -> (n: usize)
    requires
        t.wf(),
        gen_ok(*pos),
    ensures
        n == pseudo_moves(*pos).len(),
{
    gen_pseudo_legal(t, pos).len()
}

/// Material and piece-square bonus of the pieces of type `piece` of `color`
/// on the squares of `bb`.
pub open spec fn placed_sum(color: int, piece: int, bb: u64) -> int
    decreases bb,
{
    if bb == 0 {
        0
    } else {
        proof {
            lemma_lsb(bb);
        }
        PIECE_VALUE[piece] + pst_spec(piece, color, lsb(bb) as u8) + placed_sum(color, piece, clear_lsb(bb))
    }
}

/// Material and piece-square bonuses of the pawns, knights, bishops, rooks
/// and queens of `color` (the king's value is 0 and its bonus depends on
/// the game phase).
pub open spec fn placed_value_spec(pos: Position, color: int) -> int {
    placed_sum(color, PAWN as int, pos.pieces[color][PAWN as int]) + placed_sum(
        color,
        KNIGHT as int,
        pos.pieces[color][KNIGHT as int],
    ) + placed_sum(color, BISHOP as int, pos.pieces[color][BISHOP as int]) + placed_sum(
        color,
        ROOK as int,
        pos.pieces[color][ROOK as int],
    ) + placed_sum(color, QUEEN as int, pos.pieces[color][QUEEN as int])
}

proof fn lemma_placed_sum_bound(color: int, piece: int, bb: u64)
    requires
        0 <= piece < 5,
    ensures
        -(popcount(bb) * 4294967296) <= placed_sum(color, piece, bb) <= popcount(bb) * 4294967296,
    decreases bb,
{
    if bb != 0 {
        lemma_lsb(bb);
        lemma_placed_sum_bound(color, piece, clear_lsb(bb));
    }
}

fn placed_of(pos: &Position, color: usize, piece: usize) -> (v: i64)
    requires
        color < 2,
        piece < 5,
    ensures
        v == placed_sum(color as int, piece as int, pos.pieces[color as int][piece as int]),
        -(64 * 4294967296) <= v <= 64 * 4294967296,
{
    let mut bb = pos.pieces[color][piece];
    let mut v: i64 = 0;
    proof {
        lemma_placed_sum_bound(color as int, piece as int, bb);
        lemma_popcount_bound(bb);
    }
    while bb != 0
        invariant
            color < 2,
            piece < 5,
            v + placed_sum(color as int, piece as int, bb) == placed_sum(
                color as int,
                piece as int,
                pos.pieces[color as int][piece as int],
            ),
            -(popcount(bb) * 4294967296) <= placed_sum(color as int, piece as int, bb) <= popcount(bb) * 4294967296,
            popcount(bb) <= 64,
            -((64 - popcount(bb)) * 4294967296) <= v <= (64 - popcount(bb)) * 4294967296,
        decreases bb,
    {
        proof {
            lemma_lsb(bb);
            lemma_placed_sum_bound(color as int, piece as int, clear_lsb(bb));
        }
        let s = pop_lsb(&mut bb);
        let term = PIECE_VALUE[piece] as i64 + piece_square_value(piece, color, s) as i64;
        v = v + term;
    }
    v
}

/// Material and piece-square bonuses of the non-king pieces of `color`
/// (see `placed_value_spec`).
pub fn placed_value(pos: &Position, color: usize) -> (v: i64)
    requires
        color < 2,
    ensures
        v == placed_value_spec(*pos, color as int),
        -(5 * 64 * 4294967296) <= v <= 5 * 64 * 4294967296,
{
    let mut v = placed_of(pos, color, PAWN);
    v = v + placed_of(pos, color, KNIGHT);
    v = v + placed_of(pos, color, BISHOP);
    v = v + placed_of(pos, color, ROOK);
    v + placed_of(pos, color, QUEEN)
}

/// The evaluation terms of `color` given its kings' piece-square values
/// `king_value`: material and piece-square bonuses of its other pieces, the
/// kings' values, mobility and king safety.
pub open spec fn side_total(pos: Position, color: int, king_value: int) -> int {
    placed_value_spec(pos, color) + king_value + mobility_spec(pos, color) + king_safety_spec(pos, color)
}

/// The static evaluation of `pos` from the side to move's point of view,
/// given the kings' piece-square values of each colour (`kings`, which blend
/// two tables by the game phase): White's terms minus Black's when White is
/// to move, else Black's minus White's.
pub fn evaluation_total(t: &Tables, pos: &Position, kings: [i32; 2]) -> (r: i64)
    requires
        t.wf(),
    ensures
        r == (if pos.side == WHITE {
            side_total(*pos, WHITE as int, kings[WHITE as int] as int) - side_total(*pos, BLACK as int, kings[BLACK as int] as int)
        } else {
            side_total(*pos, BLACK as int, kings[BLACK as int] as int) - side_total(*pos, WHITE as int, kings[WHITE as int] as int)
        }),
{
    let mut score: [i64; 2] = [0, 0];
    let mut color: usize = 0;
    while color < 2
        invariant
            t.wf(),
            color <= 2,
            forall|c: int| 0 <= c < color ==> #[trigger] score[c] == side_total(*pos, c, kings[c] as int),
            forall|c: int| 0 <= c < 2 ==> -(5 * 64 * 4294967296 + 3 * 2147483648) <= #[trigger] score[c] <= 5 * 64
                * 4294967296 + 3 * 2147483648,
        decreases 2 - color,
    {
        let placed = placed_value(pos, color);
        let m = mobility(t, pos, color);
        let k = king_safety(pos, color);
        score[color] = placed + kings[color] as i64 + m as i64 + k as i64;
        color += 1;
    }
    let white_score = score[WHITE] - score[BLACK];
    if pos.side == WHITE {
        white_score
    } else {
        -white_score
    }
}

} // verus!
