//! Each legal move's UCI text reads back as that very move, on positions
//! whose bitboards are consistent and whose en-passant square is empty.

use vstd::prelude::*;
use crate::bits::{is_set, bit, lsb, clear_lsb, lemma_lsb, lemma_bit, lemma_bit_ops, lemma_and_bit};
use crate::board::{
    Move, Position, Zobrist, occ_consistent, uci_spec, PAWN, KNIGHT, BISHOP, ROOK, QUEEN, KING, FLAG_NORMAL,
    FLAG_DOUBLE, FLAG_EP, FLAG_CASTLE_K, FLAG_CASTLE_Q, WHITE,
};
use crate::movegen::{
    on_board, step_bit, king_bb, pawn_bb, quiet_moves, pawn_captures, promo_moves, pawn_pushes, pawn_moves_from,
    pawn_section, piece_section, piece_attacks, castle_moves, king_section, pseudo_moves, push_dir, promo_rank,
    start_rank, king_sq, gen_ok, legal_ok, legal_moves, uci_move_spec, find_move, lemma_legal_iff,
    lemma_uci_roundtrip, mv, lemma_start_rank, square_of_bytes, uci_promo,
};
use vstd::utf8::encode_utf8;
use crate::board::sq_name_spec;
use crate::movegen::{make_move_spec, after_us};

verus! {

/// Positions whose bitboards tell a consistent story: the occupancy fields
/// agree with the pieces, no square holds two pieces of one colour, and the
/// en-passant square, if any, is empty.
pub open spec fn board_ok(pos: Position) -> bool {
    &&& occ_consistent(pos)
    &&& forall|c: int, p: int, q: int, s: int|
        0 <= c < 2 && 0 <= p < q < 6 ==> !(#[trigger] is_set(pos.pieces[c][p], s) && #[trigger] is_set(
            pos.pieces[c][q],
            s,
        ))
    &&& pos.ep_square matches Some(e) ==> !is_set(pos.all_occ, e as int)
}

/// What a pseudo-legal move of `pos` looks like, by its flag.
pub open spec fn move_shape(pos: Position, m: Move) -> bool {
    let us = pos.side as int;
    let f = m.from as int;
    let t = m.to as int;
    let pawns = pos.pieces[us][PAWN as int];
    if m.flag == FLAG_DOUBLE {
        is_set(pawns, f) && t == f + 2 * push_dir(us)
    } else if m.flag == FLAG_EP {
        is_set(pawns, f) && pos.ep_square == Some(m.to) && is_set(pawn_bb(us, f), t)
    } else if m.flag == FLAG_CASTLE_K {
        f == king_sq(pos, us) && f % 8 == 4 && t == f + 2
    } else if m.flag == FLAG_CASTLE_Q {
        f == king_sq(pos, us) && f % 8 == 4 && t == f - 2
    } else if m.flag == FLAG_NORMAL {
        ||| (is_set(pawns, f) && (t == f + push_dir(us) || (is_set(pawn_bb(us, f), t) && is_set(pos.occ[1 - us], t))))
        ||| is_set(pos.pieces[us][KNIGHT as int], f)
        ||| is_set(pos.pieces[us][BISHOP as int], f)
        ||| is_set(pos.pieces[us][ROOK as int], f)
        ||| is_set(pos.pieces[us][QUEEN as int], f)
        ||| (f == king_sq(pos, us) && is_set(king_bb(f), t))
    } else {
        false
    }
}

pub open spec fn all_shaped(pos: Position, ms: Seq<Move>) -> bool {
    forall|i: int| 0 <= i < ms.len() ==> move_shape(pos, #[trigger] ms[i])
}

/// The moves of `quiet_moves(from, tgt)` are plain moves from `from` to the
/// squares of `tgt`.
proof fn lemma_quiet_shape(from: int, tgt: u64)
    requires
        0 <= from < 64,
    ensures
        forall|i: int| 0 <= i < quiet_moves(from, tgt).len() ==> {
            let m = #[trigger] quiet_moves(from, tgt)[i];
            m.from == from && m.flag == FLAG_NORMAL && is_set(tgt, m.to as int)
        },
    decreases tgt,
{
    if tgt != 0 {
        lemma_lsb(tgt);
        lemma_quiet_shape(from, clear_lsb(tgt));
        let rest = quiet_moves(from, clear_lsb(tgt));
        assert forall|i: int| 0 <= i < quiet_moves(from, tgt).len() implies {
            let m = #[trigger] quiet_moves(from, tgt)[i];
            m.from == from && m.flag == FLAG_NORMAL && is_set(tgt, m.to as int)
        } by {
            if i > 0 {
                assert(quiet_moves(from, tgt)[i] == rest[i - 1]);
            }
        }
    }
}

proof fn lemma_capture_shape(from: int, tgt: u64, pr: u64)
    requires
        0 <= from < 64,
    ensures
        forall|i: int| 0 <= i < pawn_captures(from, tgt, pr).len() ==> {
            let m = #[trigger] pawn_captures(from, tgt, pr)[i];
            m.from == from && m.flag == FLAG_NORMAL && is_set(tgt, m.to as int)
        },
    decreases tgt,
{
    if tgt != 0 {
        lemma_lsb(tgt);
        lemma_capture_shape(from, clear_lsb(tgt), pr);
        let to = lsb(tgt);
        let head = if bit(to) & pr != 0 {
            promo_moves(from, to, FLAG_NORMAL)
        } else {
            seq![mv(from, to, 0, FLAG_NORMAL)]
        };
        let rest = pawn_captures(from, clear_lsb(tgt), pr);
        assert forall|i: int| 0 <= i < pawn_captures(from, tgt, pr).len() implies {
            let m = #[trigger] pawn_captures(from, tgt, pr)[i];
            m.from == from && m.flag == FLAG_NORMAL && is_set(tgt, m.to as int)
        } by {
            if i >= head.len() {
                assert(pawn_captures(from, tgt, pr)[i] == rest[i - head.len()]);
            }
        }
    }
}

proof fn lemma_pawn_from_shape(pos: Position, from: int)
    requires
        gen_ok(pos),
        0 <= from < 64,
        is_set(pos.pieces[pos.side as int][PAWN as int], from),
    ensures
        all_shaped(pos, pawn_moves_from(pos, from)),
{
    let side = pos.side as int;
    let caps = pawn_bb(side, from) & pos.occ[1 - side];
    lemma_capture_shape(from, caps, promo_rank(side));
    lemma_bit_ops(pawn_bb(side, from), pos.occ[1 - side]);
    lemma_start_rank(from as u64);
    let pushes = pawn_pushes(pos, from);
    let capl = pawn_captures(from, caps, promo_rank(side));
    let epl = match pos.ep_square {
        Some(e) => if pawn_bb(side, from) & bit(e as int) != 0 {
            seq![mv(from, e as int, 0, FLAG_EP)]
        } else {
            Seq::empty()
        },
        None => Seq::empty(),
    };
    assert(all_shaped(pos, pushes)) by {
        assert forall|i: int| 0 <= i < pushes.len() implies move_shape(pos, #[trigger] pushes[i]) by {
            assert(bit(from) & start_rank(side) != 0 ==> 0 <= from + 2 * push_dir(side) < 64);
        }
    }
    assert(all_shaped(pos, capl)) by {
        assert forall|i: int| 0 <= i < capl.len() implies move_shape(pos, #[trigger] capl[i]) by {
            assert(is_set(caps, capl[i].to as int));
        }
    }
    assert(all_shaped(pos, epl)) by {
        if let Some(e) = pos.ep_square {
            if pawn_bb(side, from) & bit(e as int) != 0 {
                lemma_and_bit(pawn_bb(side, from), e as int);
            }
        }
    }
    assert(pawn_moves_from(pos, from) =~= pushes + capl + epl);
}

proof fn lemma_pawn_section_shape(pos: Position, bb: u64)
    requires
        gen_ok(pos),
        forall|s: int| #[trigger] is_set(bb, s) ==> is_set(pos.pieces[pos.side as int][PAWN as int], s),
    ensures
        all_shaped(pos, pawn_section(pos, bb)),
    decreases bb,
{
    if bb != 0 {
        lemma_lsb(bb);
        lemma_pawn_section_shape(pos, clear_lsb(bb));
        lemma_pawn_from_shape(pos, lsb(bb));
    }
}

proof fn lemma_piece_section_shape(pos: Position, piece: int, bb: u64)
    requires
        gen_ok(pos),
        1 <= piece <= 4,
        forall|s: int| #[trigger] is_set(bb, s) ==> is_set(pos.pieces[pos.side as int][piece], s),
    ensures
        all_shaped(pos, piece_section(pos, piece, bb)),
    decreases bb,
{
    if bb != 0 {
        lemma_lsb(bb);
        lemma_piece_section_shape(pos, piece, clear_lsb(bb));
        let from = lsb(bb);
        let tgt = piece_attacks(piece, from, pos.all_occ) & !pos.occ[pos.side as int];
        lemma_quiet_shape(from, tgt);
        let q = quiet_moves(from, tgt);
        assert(all_shaped(pos, q));
    }
}

proof fn lemma_king_section_shape(pos: Position)
    requires
        gen_ok(pos),
    ensures
        all_shaped(pos, king_section(pos)),
{
    let us = pos.side as int;
    let from = king_sq(pos, us);
    lemma_lsb(pos.pieces[us][KING as int]);
    assert(0 <= from < 64);
    let tgt = king_bb(from) & !pos.occ[us];
    lemma_quiet_shape(from, tgt);
    lemma_bit_ops(king_bb(from), !pos.occ[us]);
    let q = quiet_moves(from, tgt);
    assert(all_shaped(pos, q));
    let c = castle_moves(pos, from);
    assert(all_shaped(pos, c));
}

/// Every pseudo-legal move has the shape its flag asks for.
proof fn lemma_pseudo_shape(pos: Position)
    requires
        gen_ok(pos),
    ensures
        all_shaped(pos, pseudo_moves(pos)),
{
    let us = pos.side as int;
    lemma_pawn_section_shape(pos, pos.pieces[us][PAWN as int]);
    lemma_piece_section_shape(pos, KNIGHT as int, pos.pieces[us][KNIGHT as int]);
    lemma_piece_section_shape(pos, BISHOP as int, pos.pieces[us][BISHOP as int]);
    lemma_piece_section_shape(pos, ROOK as int, pos.pieces[us][ROOK as int]);
    lemma_piece_section_shape(pos, QUEEN as int, pos.pieces[us][QUEEN as int]);
    lemma_king_section_shape(pos);
}

proof fn lemma_step_bit(f: int, r: int, df: int, dr: int, t: int)
    ensures
        is_set(step_bit(f, r, df, dr), t) ==> on_board(f + df, r + dr) && t == (r + dr) * 8 + f + df,
{
    lemma_bit_ops(0, 0);
    if on_board(f + df, r + dr) {
        lemma_bit((r + dr) * 8 + f + df);
    }
}

/// A pawn attacks neither the square in front of it nor the one beyond.
proof fn lemma_pawn_bb_diagonal(c: int, s: int, t: int)
    requires
        0 <= c < 2,
        0 <= s < 64,
        is_set(pawn_bb(c, s), t),
    ensures
        t != s + push_dir(c),
        t != s + 2 * push_dir(c),
{
    let f = s % 8;
    let r = s / 8;
    let dr = if c == WHITE { 1int } else { -1int };
    lemma_bit_ops(0u64, step_bit(f, r, -1, dr));
    lemma_bit_ops(0u64 | step_bit(f, r, -1, dr), step_bit(f, r, 1, dr));
    lemma_step_bit(f, r, -1, dr, t);
    lemma_step_bit(f, r, 1, dr, t);
}

/// A king steps at most one file aside.
proof fn lemma_king_bb_near(s: int, t: int)
    requires
        0 <= s < 64,
        is_set(king_bb(s), t),
    ensures
        t != s + 2,
        t != s - 2,
{
    let f = s % 8;
    let r = s / 8;
    let b1 = 0u64 | step_bit(f, r, -1, -1);
    let b2 = b1 | step_bit(f, r, -1, 0);
    let b3 = b2 | step_bit(f, r, -1, 1);
    let b4 = b3 | step_bit(f, r, 0, -1);
    let b5 = b4 | step_bit(f, r, 0, 1);
    let b6 = b5 | step_bit(f, r, 1, -1);
    let b7 = b6 | step_bit(f, r, 1, 0);
    lemma_bit_ops(0u64, step_bit(f, r, -1, -1));
    lemma_bit_ops(b1, step_bit(f, r, -1, 0));
    lemma_bit_ops(b2, step_bit(f, r, -1, 1));
    lemma_bit_ops(b3, step_bit(f, r, 0, -1));
    lemma_bit_ops(b4, step_bit(f, r, 0, 1));
    lemma_bit_ops(b5, step_bit(f, r, 1, -1));
    lemma_bit_ops(b6, step_bit(f, r, 1, 0));
    lemma_bit_ops(b7, step_bit(f, r, 1, 1));
    lemma_step_bit(f, r, -1, -1, t);
    lemma_step_bit(f, r, -1, 0, t);
    lemma_step_bit(f, r, -1, 1, t);
    lemma_step_bit(f, r, 0, -1, t);
    lemma_step_bit(f, r, 0, 1, t);
    lemma_step_bit(f, r, 1, -1, t);
    lemma_step_bit(f, r, 1, 0, t);
    lemma_step_bit(f, r, 1, 1, t);
}

/// On a consistent board, two pseudo-legal moves with the same origin,
/// destination and promotion are the same move.
#[verifier::rlimit(60)]
proof fn lemma_shape_unique(pos: Position, x: Move, y: Move)
    requires
        gen_ok(pos),
        board_ok(pos),
        move_shape(pos, x),
        move_shape(pos, y),
        x.from == y.from,
        x.to == y.to,
        x.promo == y.promo,
    ensures
        x == y,
{
    let us = pos.side as int;
    let f = x.from as int;
    let t = x.to as int;
    let kb = pos.pieces[us][KING as int];
    lemma_lsb(kb);
    assert(is_set(kb, king_sq(pos, us)));
    let pawns = pos.pieces[us][PAWN as int];
    if x.flag != y.flag {
        if is_set(pawn_bb(us, f), t) {
            lemma_pawn_bb_diagonal(us, f, t);
        }
        if f == king_sq(pos, us) && is_set(king_bb(f), t) {
            lemma_king_bb_near(f, t);
        }
        lemma_bit_ops(pos.occ[0], pos.occ[1]);
        assert(!(is_set(pos.pieces[us][PAWN as int], f) && is_set(pos.pieces[us][KING as int], f)));
        assert(!(is_set(pos.pieces[us][PAWN as int], f) && is_set(pos.pieces[us][KNIGHT as int], f)));
        assert(!(is_set(pos.pieces[us][PAWN as int], f) && is_set(pos.pieces[us][BISHOP as int], f)));
        assert(!(is_set(pos.pieces[us][PAWN as int], f) && is_set(pos.pieces[us][ROOK as int], f)));
        assert(!(is_set(pos.pieces[us][PAWN as int], f) && is_set(pos.pieces[us][QUEEN as int], f)));
        assert(!(is_set(pos.pieces[us][KNIGHT as int], f) && is_set(pos.pieces[us][KING as int], f)));
        assert(!(is_set(pos.pieces[us][BISHOP as int], f) && is_set(pos.pieces[us][KING as int], f)));
        assert(!(is_set(pos.pieces[us][ROOK as int], f) && is_set(pos.pieces[us][KING as int], f)));
        assert(!(is_set(pos.pieces[us][QUEEN as int], f) && is_set(pos.pieces[us][KING as int], f)));
    }
}

/// The UCI text of a legal move reads back as that very move, on a
/// position whose bitboards are consistent and whose en-passant square is
/// empty (with a piece on that square, an en-passant capture and a plain
/// capture can share their text).
pub proof fn lemma_uci_same_move(pos: Position, z: &Zobrist, m: Move)
    requires
        legal_ok(pos, z),
        board_ok(pos),
        legal_moves(pos, z).contains(m),
    ensures
        uci_move_spec(pos, z, encode_utf8(uci_spec(m))) == Some(m),
{
    lemma_uci_roundtrip(pos, z, m);
    let r = uci_move_spec(pos, z, encode_utf8(uci_spec(m)))->0;
    let lm = legal_moves(pos, z);
    let b = encode_utf8(uci_spec(m));
    lemma_find_move_in(lm, square_of_bytes(b[0], b[1])->0, square_of_bytes(b[2], b[3])->0, uci_promo(b), 0);
    lemma_legal_iff(pos, z, m);
    lemma_legal_iff(pos, z, r);
    lemma_pseudo_shape(pos);
    let ps = pseudo_moves(pos);
    let i = choose|i: int| 0 <= i < ps.len() && ps[i] == m;
    let j = choose|j: int| 0 <= j < ps.len() && ps[j] == r;
    assert(move_shape(pos, ps[i]));
    assert(move_shape(pos, ps[j]));
    lemma_shape_unique(pos, m, r);
}

proof fn lemma_find_move_in(ms: Seq<Move>, from: u8, to: u8, promo: u8, i: int)
    ensures
        find_move(ms, from, to, promo, i) matches Some(r) ==> ms.contains(r),
    decreases ms.len() - i,
{
    if 0 <= i < ms.len() {
        assert(ms.contains(ms[i]));
        lemma_find_move_in(ms, from, to, promo, i + 1);
    }
}

/// After a promotion, the destination square holds a piece of the side that
/// moved, of the type the promotion code names: code 1 a knight, 2 a
/// bishop, 3 a rook, 4 a queen (piece type indices 1 to 4).
pub proof fn lemma_promotion_piece(pos: Position, m: Move, z: &Zobrist)
    requires
        pos.side < 2,
        m.to < 64,
        1 <= m.promo <= 4,
        m.flag != FLAG_CASTLE_K,
        m.flag != FLAG_CASTLE_Q,
    ensures
        is_set(make_move_spec(pos, m, z).pieces[pos.side as int][m.promo as int], m.to as int),
        m.promo == 1 ==> is_set(make_move_spec(pos, m, z).pieces[pos.side as int][KNIGHT as int], m.to as int),
        m.promo == 2 ==> is_set(make_move_spec(pos, m, z).pieces[pos.side as int][BISHOP as int], m.to as int),
        m.promo == 3 ==> is_set(make_move_spec(pos, m, z).pieces[pos.side as int][ROOK as int], m.to as int),
        m.promo == 4 ==> is_set(make_move_spec(pos, m, z).pieces[pos.side as int][QUEEN as int], m.to as int),
{
    let p = m.promo as int;
    let b0 = pos.pieces[pos.side as int][p];
    let b1 = if p == crate::movegen::moved_type(pos, m) as int { b0 & !bit(m.from as int) } else { b0 };
    lemma_bit(m.to as int);
    lemma_bit_ops(b1, bit(m.to as int));
    assert(is_set(after_us(pos, m, p), m.to as int));
    let row = make_move_spec(pos, m, z).pieces[pos.side as int];
    if p == 1 {
        assert(row[1] == after_us(pos, m, 1));
    } else if p == 2 {
        assert(row[2] == after_us(pos, m, 2));
    } else if p == 3 {
        assert(row[3] == after_us(pos, m, 3));
    } else {
        assert(row[4] == after_us(pos, m, 4));
    }
}

/// The UCI text of a move is the names of its origin and destination,
/// followed by the letter of its promotion piece: `n` for code 1, `b` for
/// 2, `r` for 3, `q` for 4, and nothing without a promotion.
pub proof fn lemma_uci_promo_letter(m: Move)
    ensures
        uci_spec(m).subrange(0, 4) == sq_name_spec(m.from as int) + sq_name_spec(m.to as int),
        m.promo == 0 ==> uci_spec(m).len() == 4,
        1 <= m.promo <= 4 ==> uci_spec(m).len() == 5,
        m.promo == 1 ==> uci_spec(m)[4] == 'n',
        m.promo == 2 ==> uci_spec(m)[4] == 'b',
        m.promo == 3 ==> uci_spec(m)[4] == 'r',
        m.promo == 4 ==> uci_spec(m)[4] == 'q',
{
    assert(uci_spec(m).subrange(0, 4) =~= sq_name_spec(m.from as int) + sq_name_spec(m.to as int));
}

proof fn lemma_find_move_keys(ms: Seq<Move>, from: u8, to: u8, promo: u8, i: int)
    ensures
        find_move(ms, from, to, promo, i) matches Some(r) ==> r.from == from && r.to == to && r.promo == promo,
    decreases ms.len() - i,
{
    if 0 <= i < ms.len() {
        lemma_find_move_keys(ms, from, to, promo, i + 1);
    }
}

/// Reading a UCI move text: a fifth byte `n` gives promotion code 1, `b`
/// code 2, `r` code 3, `q` code 4, and a four-byte text no promotion.
pub proof fn lemma_uci_read_promo(pos: Position, z: &Zobrist, bytes: Seq<u8>)
    ensures
        uci_move_spec(pos, z, bytes) matches Some(r) ==> {
            &&& bytes.len() == 4 ==> r.promo == 0
            &&& bytes.len() > 4 && bytes[4] == 110 ==> r.promo == 1
            &&& bytes.len() > 4 && bytes[4] == 98 ==> r.promo == 2
            &&& bytes.len() > 4 && bytes[4] == 114 ==> r.promo == 3
            &&& bytes.len() > 4 && bytes[4] == 113 ==> r.promo == 4
        },
{
    if bytes.len() >= 4 {
        lemma_find_move_keys(
            legal_moves(pos, z),
            square_of_bytes(bytes[0], bytes[1])->0,
            square_of_bytes(bytes[2], bytes[3])->0,
            uci_promo(bytes),
            0,
        );
    }
}

/// Whether square `t` is on the last rank for side `side`: rank 8 for
/// White, rank 1 for Black.
pub open spec fn last_rank(side: int, t: int) -> bool {
    if side == WHITE {
        56 <= t < 64
    } else {
        0 <= t < 8
    }
}

/// Every move of `ms` by a pawn of the side to move (other than an
/// en-passant capture) that lands on the last rank is a promotion, and `ms`
/// holds that move with each of the four promotion pieces.
pub open spec fn promotions_complete(pos: Position, ms: Seq<Move>) -> bool {
    forall|i: int|
        0 <= i < ms.len() && is_set(pos.pieces[pos.side as int][PAWN as int], (#[trigger] ms[i]).from as int)
            && ms[i].flag != FLAG_EP && last_rank(pos.side as int, ms[i].to as int) ==> {
            &&& 1 <= ms[i].promo <= 4
            &&& forall|k: u8| 1 <= k <= 4 ==> ms.contains(#[trigger] mv(ms[i].from as int, ms[i].to as int, k, ms[i].flag))
        }
}

proof fn lemma_last_rank_bits(side: int, t: int)
    requires
        0 <= side < 2,
        0 <= t < 64,
    ensures
        (bit(t) & promo_rank(side) != 0) <==> last_rank(side, t),
{
    let k = t as u64;
    assert((1u64 << k) & 0xFF00000000000000u64 != 0 <==> 56 <= k) by (bit_vector)
        requires
            k < 64,
    ;
    assert((1u64 << k) & 0xFFu64 != 0 <==> k < 8) by (bit_vector)
        requires
            k < 64,
    ;
}

proof fn lemma_contains_in_concat(a: Seq<Move>, b: Seq<Move>, x: Move)
    ensures
        a.contains(x) ==> (a + b).contains(x),
        b.contains(x) ==> (a + b).contains(x),
{
    if a.contains(x) {
        let k = choose|k: int| 0 <= k < a.len() && a[k] == x;
        assert((a + b)[k] == x);
    }
    if b.contains(x) {
        let k = choose|k: int| 0 <= k < b.len() && b[k] == x;
        assert((a + b)[a.len() + k] == x);
    }
}

proof fn lemma_complete_concat(pos: Position, a: Seq<Move>, b: Seq<Move>)
    requires
        promotions_complete(pos, a),
        promotions_complete(pos, b),
    ensures
        promotions_complete(pos, a + b),
{
    let c = a + b;
    assert forall|i: int|
        0 <= i < c.len() && is_set(pos.pieces[pos.side as int][PAWN as int], (#[trigger] c[i]).from as int)
            && c[i].flag != FLAG_EP && last_rank(pos.side as int, c[i].to as int) implies {
            &&& 1 <= c[i].promo <= 4
            &&& forall|k: u8| 1 <= k <= 4 ==> c.contains(#[trigger] mv(c[i].from as int, c[i].to as int, k, c[i].flag))
        } by {
        assert forall|k: u8| 1 <= k <= 4 implies c.contains(#[trigger] mv(c[i].from as int, c[i].to as int, k, c[i].flag)) by {
            if i < a.len() {
                assert(a[i] == c[i]);
                lemma_contains_in_concat(a, b, mv(c[i].from as int, c[i].to as int, k, c[i].flag));
            } else {
                assert(b[i - a.len()] == c[i]);
                lemma_contains_in_concat(a, b, mv(c[i].from as int, c[i].to as int, k, c[i].flag));
            }
        }
        if i < a.len() {
            assert(a[i] == c[i]);
        } else {
            assert(b[i - a.len()] == c[i]);
        }
    }
}

/// A list whose moves all start off the pawns has nothing to complete.
proof fn lemma_complete_no_pawns(pos: Position, ms: Seq<Move>)
    requires
        forall|i: int| 0 <= i < ms.len() ==> !is_set(pos.pieces[pos.side as int][PAWN as int], (#[trigger] ms[i]).from as int),
    ensures
        promotions_complete(pos, ms),
{
}

proof fn lemma_promo_moves_complete(pos: Position, from: int, to: int, flag: u8)
    requires
        0 <= from < 64,
        0 <= to < 64,
    ensures
        promotions_complete(pos, promo_moves(from, to, flag)),
{
    let pm = promo_moves(from, to, flag);
    assert forall|i: int| 0 <= i < 4 implies (#[trigger] pm[i]).from == from && pm[i].to == to && pm[i].flag == flag
        && 1 <= pm[i].promo <= 4 by {
    }
    assert forall|k: u8| 1 <= k <= 4 implies pm.contains(#[trigger] mv(from, to, k, flag)) by {
        if k == 4 {
            assert(pm[0] == mv(from, to, k, flag));
        } else if k == 3 {
            assert(pm[1] == mv(from, to, k, flag));
        } else if k == 2 {
            assert(pm[2] == mv(from, to, k, flag));
        } else {
            assert(pm[3] == mv(from, to, k, flag));
        }
    }
}

proof fn lemma_captures_complete(pos: Position, from: int, tgt: u64)
    requires
        0 <= from < 64,
        pos.side < 2,
    ensures
        promotions_complete(pos, pawn_captures(from, tgt, promo_rank(pos.side as int))),
    decreases tgt,
{
    if tgt != 0 {
        lemma_lsb(tgt);
        let pr = promo_rank(pos.side as int);
        lemma_captures_complete(pos, from, clear_lsb(tgt));
        let to = lsb(tgt);
        lemma_last_rank_bits(pos.side as int, to);
        if bit(to) & pr != 0 {
            lemma_promo_moves_complete(pos, from, to, FLAG_NORMAL);
            lemma_complete_concat(pos, promo_moves(from, to, FLAG_NORMAL), pawn_captures(from, clear_lsb(tgt), pr));
        } else {
            let h = seq![mv(from, to, 0, FLAG_NORMAL)];
            assert(promotions_complete(pos, h));
            lemma_complete_concat(pos, h, pawn_captures(from, clear_lsb(tgt), pr));
        }
    }
}

proof fn lemma_pawn_from_complete(pos: Position, from: int)
    requires
        gen_ok(pos),
        0 <= from < 64,
    ensures
        promotions_complete(pos, pawn_moves_from(pos, from)),
{
    let side = pos.side as int;
    let caps = pawn_bb(side, from) & pos.occ[1 - side];
    lemma_captures_complete(pos, from, caps);
    lemma_start_rank(from as u64);
    let pushes = pawn_pushes(pos, from);
    let capl = pawn_captures(from, caps, promo_rank(side));
    let epl = match pos.ep_square {
        Some(e) => if pawn_bb(side, from) & bit(e as int) != 0 {
            seq![mv(from, e as int, 0, FLAG_EP)]
        } else {
            Seq::empty()
        },
        None => Seq::empty(),
    };
    let one = from + push_dir(side);
    let two = one + push_dir(side);
    if 0 <= one < 64 && pos.all_occ & bit(one) == 0 {
        lemma_last_rank_bits(side, one);
        if bit(one) & promo_rank(side) != 0 {
            lemma_promo_moves_complete(pos, from, one, FLAG_NORMAL);
        } else {
            assert(bit(from) & start_rank(side) != 0 ==> 0 <= two < 64 && !last_rank(side, two));
            assert(promotions_complete(pos, pushes));
        }
    }
    assert(promotions_complete(pos, pushes));
    assert(promotions_complete(pos, epl));
    lemma_complete_concat(pos, pushes, capl);
    lemma_complete_concat(pos, pushes + capl, epl);
    assert(pawn_moves_from(pos, from) =~= pushes + capl + epl);
}

proof fn lemma_pawn_section_complete(pos: Position, bb: u64)
    requires
        gen_ok(pos),
    ensures
        promotions_complete(pos, pawn_section(pos, bb)),
    decreases bb,
{
    if bb != 0 {
        lemma_lsb(bb);
        lemma_pawn_section_complete(pos, clear_lsb(bb));
        lemma_pawn_from_complete(pos, lsb(bb));
        lemma_complete_concat(pos, pawn_moves_from(pos, lsb(bb)), pawn_section(pos, clear_lsb(bb)));
    }
}

proof fn lemma_piece_section_from(pos: Position, piece: int, bb: u64)
    ensures
        forall|i: int| 0 <= i < piece_section(pos, piece, bb).len() ==> is_set(bb, (#[trigger] piece_section(pos, piece, bb)[i]).from as int),
    decreases bb,
{
    if bb != 0 {
        lemma_lsb(bb);
        lemma_piece_section_from(pos, piece, clear_lsb(bb));
        let from = lsb(bb);
        let tgt = piece_attacks(piece, from, pos.all_occ) & !pos.occ[pos.side as int];
        lemma_quiet_shape(from, tgt);
        let q = quiet_moves(from, tgt);
        let r = piece_section(pos, piece, clear_lsb(bb));
        assert forall|i: int| 0 <= i < piece_section(pos, piece, bb).len() implies is_set(bb, (#[trigger] piece_section(pos, piece, bb)[i]).from as int) by {
            if i < q.len() {
                assert(piece_section(pos, piece, bb)[i] == q[i]);
            } else {
                assert(piece_section(pos, piece, bb)[i] == r[i - q.len()]);
            }
        }
    }
}

proof fn lemma_piece_section_complete(pos: Position, piece: int)
    requires
        gen_ok(pos),
        board_ok(pos),
        1 <= piece <= 4,
    ensures
        promotions_complete(pos, piece_section(pos, piece, pos.pieces[pos.side as int][piece])),
{
    let us = pos.side as int;
    lemma_piece_section_from(pos, piece, pos.pieces[us][piece]);
    let ms = piece_section(pos, piece, pos.pieces[us][piece]);
    assert forall|i: int| 0 <= i < ms.len() implies !is_set(pos.pieces[us][PAWN as int], (#[trigger] ms[i]).from as int) by {
        assert(is_set(pos.pieces[us][piece], ms[i].from as int));
        assert(!(is_set(pos.pieces[us][0], ms[i].from as int) && is_set(pos.pieces[us][piece], ms[i].from as int)));
    }
    lemma_complete_no_pawns(pos, ms);
}

proof fn lemma_king_section_complete(pos: Position)
    requires
        gen_ok(pos),
        board_ok(pos),
    ensures
        promotions_complete(pos, king_section(pos)),
{
    let us = pos.side as int;
    let from = king_sq(pos, us);
    lemma_lsb(pos.pieces[us][KING as int]);
    let tgt = king_bb(from) & !pos.occ[us];
    lemma_quiet_shape(from, tgt);
    let q = quiet_moves(from, tgt);
    let c = castle_moves(pos, from);
    let ks = king_section(pos);
    assert(!(is_set(pos.pieces[us][0], from) && is_set(pos.pieces[us][5], from)));
    assert forall|i: int| 0 <= i < ks.len() implies !is_set(pos.pieces[us][PAWN as int], (#[trigger] ks[i]).from as int) by {
        if i < q.len() {
            assert(ks[i] == q[i]);
        } else {
            assert(ks[i] == c[i - q.len()]);
        }
    }
    lemma_complete_no_pawns(pos, ks);
}

/// On a consistent board, every pseudo-legal pawn move that lands on the
/// last rank (rank 8 for White, rank 1 for Black), push or capture, is a
/// promotion, and the move generator gives it with each of the four
/// promotion pieces. (An en-passant capture never lands there in a game.)
pub proof fn lemma_last_rank_promotions(pos: Position)
    requires
        gen_ok(pos),
        board_ok(pos),
    ensures
        promotions_complete(pos, pseudo_moves(pos)),
{
    let us = pos.side as int;
    let a = pawn_section(pos, pos.pieces[us][PAWN as int]);
    let n = piece_section(pos, KNIGHT as int, pos.pieces[us][KNIGHT as int]);
    let b = piece_section(pos, BISHOP as int, pos.pieces[us][BISHOP as int]);
    let r = piece_section(pos, ROOK as int, pos.pieces[us][ROOK as int]);
    let q = piece_section(pos, QUEEN as int, pos.pieces[us][QUEEN as int]);
    let k = king_section(pos);
    lemma_pawn_section_complete(pos, pos.pieces[us][PAWN as int]);
    lemma_piece_section_complete(pos, KNIGHT as int);
    lemma_piece_section_complete(pos, BISHOP as int);
    lemma_piece_section_complete(pos, ROOK as int);
    lemma_piece_section_complete(pos, QUEEN as int);
    lemma_king_section_complete(pos);
    lemma_complete_concat(pos, a, n);
    lemma_complete_concat(pos, a + n, b);
    lemma_complete_concat(pos, a + n + b, r);
    lemma_complete_concat(pos, a + n + b + r, q);
    lemma_complete_concat(pos, a + n + b + r + q, k);
}

} // verus!
