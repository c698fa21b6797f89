//! Move generation: leaper attack tables and magic bitboards for the sliding
//! pieces, whose magic numbers are found at start-up by trial and error with
//! a seeded random generator, then pseudo-legal generation and a legality
//! filter that makes each move and tests whether the mover's king is
//! attacked afterwards.
use vstd::prelude::*;
use rand::rngs::SmallRng;
use rand::{Rng, SeedableRng};
use crate::bits::{
    is_set, bit, lsb, clear_lsb, popcount, pop_lsb, count_ones, lemma_lsb, lemma_bit,
    lemma_bit_ops, lemma_bits_ext, lemma_algebra, lemma_and_bit, lemma_or_zero, subset_of, lemma_next_subset, lemma_subset_facts,
    lemma_shr_bound, lemma_rank_masks_bv,
};
use crate::board::{
    Zobrist, hash_spec, union6, uci_spec, occ_consistent,
    sq, file_of, rank_of, Move, Position, piece_at_spec, WHITE, BLACK, PAWN, KNIGHT, BISHOP, ROOK,
    QUEEN, KING, RANK_1, RANK_2, RANK_7, RANK_8, PROMO_NONE, PROMO_N, PROMO_B, PROMO_R, PROMO_Q,
    FLAG_NORMAL, FLAG_DOUBLE, FLAG_EP, FLAG_CASTLE_K, FLAG_CASTLE_Q, CASTLE_WK, CASTLE_WQ, CASTLE_BK,
    CASTLE_BQ,
};
use vstd::std_specs::bits::{u64_trailing_zeros, axiom_u64_trailing_zeros};
use vstd::utf8::is_char_boundary;
use vstd::string::StringSliceAdditionalSpecFns;
use vstd::utf8::{encode_utf8, is_ascii_chars, is_ascii_chars_encode_utf8};

verus! {

broadcast use lemma_or_zero;

// ---------------------------------------------------------------------------
// Geometry
// ---------------------------------------------------------------------------

pub open spec fn on_board(f: int, r: int) -> bool {
    0 <= f < 8 && 0 <= r < 8
}

/// The bitboard of the square `(f + df, r + dr)` if it is on the board.
pub open spec fn step_bit(f: int, r: int, df: int, dr: int) -> u64 {
    if on_board(f + df, r + dr) {
        bit((r + dr) * 8 + f + df)
    } else {
        0
    }
}

/// Squares a knight on `s` attacks.
pub open spec fn knight_bb(s: int) -> u64 {
    let f = s % 8;
    let r = s / 8;
    (((((((0u64 | step_bit(f, r, 1, 2)) | step_bit(f, r, 2, 1)) | step_bit(f, r, 2, -1))
        | step_bit(f, r, 1, -2)) | step_bit(f, r, -1, -2)) | step_bit(f, r, -2, -1))
        | step_bit(f, r, -2, 1)) | step_bit(f, r, -1, 2)
}

/// Squares a king on `s` attacks.
pub open spec fn king_bb(s: int) -> u64 {
    let f = s % 8;
    let r = s / 8;
    (((((((0u64 | step_bit(f, r, -1, -1)) | step_bit(f, r, -1, 0)) | step_bit(f, r, -1, 1))
        | step_bit(f, r, 0, -1)) | step_bit(f, r, 0, 1)) | step_bit(f, r, 1, -1))
        | step_bit(f, r, 1, 0)) | step_bit(f, r, 1, 1)
}

/// Squares a pawn of `color` on `s` attacks.
pub open spec fn pawn_bb(color: int, s: int) -> u64 {
    let f = s % 8;
    let r = s / 8;
    let dr = if color == WHITE { 1int } else { -1int };
    (0u64 | step_bit(f, r, -1, dr)) | step_bit(f, r, 1, dr)
}

fn step_bit_exec(f: i32, r: i32, df: i32, dr: i32) -> (b: u64)
    requires
        -8 <= f <= 40,
        -8 <= r <= 40,
        -2 <= df <= 2,
        -2 <= dr <= 2,
    ensures
        b == step_bit(f as int, r as int, df as int, dr as int),
{
    let nf = f + df;
    let nr = r + dr;
    if 0 <= nf && nf < 8 && 0 <= nr && nr < 8 {
        1u64 << sq(nf as u8, nr as u8)
    } else {
        0
    }
}

fn knight_attacks_from(s: u8) -> (bb: u64)
    ensures
        bb == knight_bb(s as int),
{
    let f = file_of(s) as i32;
    let r = rank_of(s) as i32;
    let mut bb = 0u64;
    bb |= step_bit_exec(f, r, 1, 2);
    bb |= step_bit_exec(f, r, 2, 1);
    bb |= step_bit_exec(f, r, 2, -1);
    bb |= step_bit_exec(f, r, 1, -2);
    bb |= step_bit_exec(f, r, -1, -2);
    bb |= step_bit_exec(f, r, -2, -1);
    bb |= step_bit_exec(f, r, -2, 1);
    bb |= step_bit_exec(f, r, -1, 2);
    bb
}

fn king_attacks_from(s: u8) -> (bb: u64)
    ensures
        bb == king_bb(s as int),
{
    let f = file_of(s) as i32;
    let r = rank_of(s) as i32;
    let mut bb = 0u64;
    bb |= step_bit_exec(f, r, -1, -1);
    bb |= step_bit_exec(f, r, -1, 0);
    bb |= step_bit_exec(f, r, -1, 1);
    bb |= step_bit_exec(f, r, 0, -1);
    bb |= step_bit_exec(f, r, 0, 1);
    bb |= step_bit_exec(f, r, 1, -1);
    bb |= step_bit_exec(f, r, 1, 0);
    bb |= step_bit_exec(f, r, 1, 1);
    bb
}

fn pawn_attacks_from(s: u8, color: usize) -> (bb: u64)
    ensures
        bb == pawn_bb(color as int, s as int),
{
    let f = file_of(s) as i32;
    let r = rank_of(s) as i32;
    let dr: i32 = if color == WHITE { 1 } else { -1 };
    let mut bb = 0u64;
    bb |= step_bit_exec(f, r, -1, dr);
    bb |= step_bit_exec(f, r, 1, dr);
    bb
}

// ---------------------------------------------------------------------------
// Sliding pieces
// ---------------------------------------------------------------------------

pub open spec fn valid_dir(df: int, dr: int) -> bool {
    -1 <= df <= 1 && -1 <= dr <= 1 && (df != 0 || dr != 0)
}

/// Distance to the board edge along a direction (a termination measure).
pub open spec fn ray_measure(f: int, r: int, df: int, dr: int) -> int {
    (if df == 1 {
        8 - f
    } else if df == -1 {
        f + 1
    } else {
        0
    }) + (if dr == 1 {
        8 - r
    } else if dr == -1 {
        r + 1
    } else {
        0
    })
}

/// Squares reached along direction `(df, dr)` starting at `(f, r)` (the
/// first square past the slider), up to and including the first occupied
/// square.
pub open spec fn ray(f: int, r: int, df: int, dr: int, occ: u64) -> u64
    decreases ray_measure(f, r, df, dr),
{
    if !on_board(f, r) || !valid_dir(df, dr) {
        0
    } else if is_set(occ, r * 8 + f) {
        bit(r * 8 + f)
    } else {
        bit(r * 8 + f) | ray(f + df, r + dr, df, dr, occ)
    }
}

/// Squares along direction `(df, dr)` from `(f, r)` that have a further
/// square beyond them on the board: the only squares whose occupancy can
/// change the ray.
pub open spec fn mask_ray(f: int, r: int, df: int, dr: int) -> u64
    decreases ray_measure(f, r, df, dr),
{
    if !on_board(f, r) || !valid_dir(df, dr) || !on_board(f + df, r + dr) {
        0
    } else {
        bit(r * 8 + f) | mask_ray(f + df, r + dr, df, dr)
    }
}

pub open spec fn dirs_valid(dirs: [(i32, i32); 4]) -> bool {
    forall|i: int| 0 <= i < 4 ==> valid_dir(#[trigger] dirs[i].0 as int, dirs[i].1 as int)
}

/// Union of the rays of the first `i` directions from square `s`.
pub open spec fn slide_upto(s: int, occ: u64, dirs: [(i32, i32); 4], i: int) -> u64
    decreases i,
{
    if i <= 0 {
        0
    } else {
        let d = dirs[i - 1];
        slide_upto(s, occ, dirs, i - 1) | ray(s % 8 + d.0, s / 8 + d.1, d.0 as int, d.1 as int, occ)
    }
}

/// Squares a slider on `s` moving along `dirs` attacks, given occupancy `occ`.
pub open spec fn slide_bb(s: int, occ: u64, dirs: [(i32, i32); 4]) -> u64 {
    slide_upto(s, occ, dirs, 4)
}

/// Union of the relevant-occupancy masks of the first `i` directions.
pub open spec fn mask_upto(s: int, dirs: [(i32, i32); 4], i: int) -> u64
    decreases i,
{
    if i <= 0 {
        0
    } else {
        let d = dirs[i - 1];
        mask_upto(s, dirs, i - 1) | mask_ray(s % 8 + d.0, s / 8 + d.1, d.0 as int, d.1 as int)
    }
}

/// The squares whose occupancy matters to a slider on `s`.
pub open spec fn relevant_bb(s: int, dirs: [(i32, i32); 4]) -> u64 {
    mask_upto(s, dirs, 4)
}

pub open spec fn bishop_dirs() -> [(i32, i32); 4] {
    [(1i32, 1i32), (1i32, -1i32), (-1i32, 1i32), (-1i32, -1i32)]
}

pub open spec fn rook_dirs() -> [(i32, i32); 4] {
    [(1i32, 0i32), (-1i32, 0i32), (0i32, 1i32), (0i32, -1i32)]
}

/// Squares a bishop on `s` attacks.
pub open spec fn bishop_bb(s: int, occ: u64) -> u64 {
    slide_bb(s, occ, bishop_dirs())
}

/// Squares a rook on `s` attacks.
pub open spec fn rook_bb(s: int, occ: u64) -> u64 {
    slide_bb(s, occ, rook_dirs())
}

/// Squares a queen on `s` attacks.
pub open spec fn queen_bb(s: int, occ: u64) -> u64 {
    bishop_bb(s, occ) | rook_bb(s, occ)
}

fn bishop_dir_table() -> (d: [(i32, i32); 4])
    ensures
        d == bishop_dirs(),
{
    [(1, 1), (1, -1), (-1, 1), (-1, -1)]
}

fn rook_dir_table() -> (d: [(i32, i32); 4])
    ensures
        d == rook_dirs(),
{
    [(1, 0), (-1, 0), (0, 1), (0, -1)]
}

/// Occupancy outside the relevant squares of a ray does not change it.
proof fn lemma_ray_relevant(f: int, r: int, df: int, dr: int, occ: u64, occ2: u64)
    requires
        forall|t: int| #[trigger] is_set(mask_ray(f, r, df, dr), t) ==> is_set(occ, t) == is_set(occ2, t),
    ensures
        ray(f, r, df, dr, occ) == ray(f, r, df, dr, occ2),
    decreases ray_measure(f, r, df, dr),
{
    if on_board(f, r) && valid_dir(df, dr) {
        let t = r * 8 + f;
        lemma_bit(t);
        lemma_algebra(bit(t), 0, 0);
        if on_board(f + df, r + dr) {
            lemma_bit_ops(bit(t), mask_ray(f + df, r + dr, df, dr));
            assert(is_set(mask_ray(f, r, df, dr), t));
            assert forall|u: int| #[trigger] is_set(mask_ray(f + df, r + dr, df, dr), u) implies is_set(occ, u)
                == is_set(occ2, u) by {
                assert(is_set(mask_ray(f, r, df, dr), u));
            }
            lemma_ray_relevant(f + df, r + dr, df, dr, occ, occ2);
        } else {
            assert(ray(f + df, r + dr, df, dr, occ) == 0);
            assert(ray(f + df, r + dr, df, dr, occ2) == 0);
        }
    }
}

/// Whether `(f, r)` lies strictly beyond `(f0, r0)` in direction `(df, dr)`.
pub open spec fn beyond(f: int, r: int, f0: int, r0: int, df: int, dr: int) -> bool {
    (df == 1 && f > f0) || (df == -1 && f < f0) || (dr == 1 && r > r0) || (dr == -1 && r < r0)
}

/// A ray never returns to its origin square.
proof fn lemma_ray_misses_origin(f: int, r: int, df: int, dr: int, occ: u64, f0: int, r0: int)
    requires
        on_board(f0, r0),
        beyond(f, r, f0, r0, df, dr),
    ensures
        !is_set(ray(f, r, df, dr, occ), r0 * 8 + f0),
    decreases ray_measure(f, r, df, dr),
{
    lemma_bit_ops(0, 0);
    if on_board(f, r) && valid_dir(df, dr) {
        let t = r * 8 + f;
        lemma_bit(t);
        assert(t != r0 * 8 + f0);
        if !is_set(occ, t) {
            lemma_ray_misses_origin(f + df, r + dr, df, dr, occ, f0, r0);
            lemma_bit_ops(bit(t), ray(f + df, r + dr, df, dr, occ));
        }
    }
}

proof fn lemma_slide_relevant(s: int, occ: u64, dirs: [(i32, i32); 4], i: int)
    requires
        0 <= i <= 4,
    ensures
        slide_upto(s, occ, dirs, i) == slide_upto(s, occ & relevant_bb(s, dirs), dirs, i),
    decreases i,
{
    if i > 0 {
        lemma_slide_relevant(s, occ, dirs, i - 1);
        let d = dirs[i - 1];
        let m = relevant_bb(s, dirs);
        lemma_bit_ops(occ, m);
        lemma_mask_upto_contains(s, dirs, i - 1, 4);
        assert forall|t: int| #[trigger] is_set(mask_ray(s % 8 + d.0, s / 8 + d.1, d.0 as int, d.1 as int), t)
            implies is_set(occ, t) == is_set(occ & m, t) by {
            assert(is_set(m, t));
        }
        lemma_ray_relevant(s % 8 + d.0, s / 8 + d.1, d.0 as int, d.1 as int, occ, occ & m);
    }
}

proof fn lemma_mask_upto_contains(s: int, dirs: [(i32, i32); 4], j: int, i: int)
    requires
        0 <= j < i <= 4,
    ensures
        forall|t: int| #[trigger] is_set(
            mask_ray(s % 8 + dirs[j].0, s / 8 + dirs[j].1, dirs[j].0 as int, dirs[j].1 as int),
            t,
        ) ==> is_set(mask_upto(s, dirs, i), t),
    decreases i,
{
    let d = dirs[i - 1];
    lemma_bit_ops(mask_upto(s, dirs, i - 1), mask_ray(s % 8 + d.0, s / 8 + d.1, d.0 as int, d.1 as int));
    if j < i - 1 {
        lemma_mask_upto_contains(s, dirs, j, i - 1);
    }
}

/// The squares a slider attacks depend only on the relevant squares.
pub proof fn lemma_slide_bb_relevant(s: int, occ: u64, dirs: [(i32, i32); 4])
    ensures
        slide_bb(s, occ, dirs) == slide_bb(s, occ & relevant_bb(s, dirs), dirs),
{
    lemma_slide_relevant(s, occ, dirs, 4);
}

proof fn lemma_slide_misses_origin(s: int, occ: u64, dirs: [(i32, i32); 4], i: int)
    requires
        0 <= s < 64,
        0 <= i <= 4,
        dirs_valid(dirs),
    ensures
        !is_set(slide_upto(s, occ, dirs, i), s),
    decreases i,
{
    lemma_bit_ops(0, 0);
    if i > 0 {
        lemma_slide_misses_origin(s, occ, dirs, i - 1);
        let d = dirs[i - 1];
        assert(valid_dir(d.0 as int, d.1 as int));
        lemma_ray_misses_origin(s % 8 + d.0, s / 8 + d.1, d.0 as int, d.1 as int, occ, s % 8, s / 8);
        lemma_bit_ops(slide_upto(s, occ, dirs, i - 1), ray(s % 8 + d.0, s / 8 + d.1, d.0 as int, d.1 as int, occ));
    }
}

/// A mask ray never returns to its origin square.
proof fn lemma_mask_ray_misses_origin(f: int, r: int, df: int, dr: int, f0: int, r0: int)
    requires
        on_board(f0, r0),
        beyond(f, r, f0, r0, df, dr),
    ensures
        !is_set(mask_ray(f, r, df, dr), r0 * 8 + f0),
    decreases ray_measure(f, r, df, dr),
{
    lemma_bit_ops(0, 0);
    if on_board(f, r) && valid_dir(df, dr) && on_board(f + df, r + dr) {
        let t = r * 8 + f;
        lemma_bit(t);
        assert(t != r0 * 8 + f0);
        lemma_mask_ray_misses_origin(f + df, r + dr, df, dr, f0, r0);
        lemma_bit_ops(bit(t), mask_ray(f + df, r + dr, df, dr));
    }
}

proof fn lemma_mask_misses_origin(s: int, dirs: [(i32, i32); 4], i: int)
    requires
        0 <= s < 64,
        0 <= i <= 4,
        dirs_valid(dirs),
    ensures
        !is_set(mask_upto(s, dirs, i), s),
    decreases i,
{
    lemma_bit_ops(0, 0);
    if i > 0 {
        lemma_mask_misses_origin(s, dirs, i - 1);
        let d = dirs[i - 1];
        assert(valid_dir(d.0 as int, d.1 as int));
        lemma_mask_ray_misses_origin(s % 8 + d.0, s / 8 + d.1, d.0 as int, d.1 as int, s % 8, s / 8);
        lemma_bit_ops(mask_upto(s, dirs, i - 1), mask_ray(s % 8 + d.0, s / 8 + d.1, d.0 as int, d.1 as int));
    }
}

/// The relevant occupancy mask of a slider never holds the slider's own
/// square.
pub proof fn lemma_relevant_excludes_origin(s: int, dirs: [(i32, i32); 4])
    requires
        0 <= s < 64,
        dirs_valid(dirs),
    ensures
        !is_set(relevant_bb(s, dirs), s),
        relevant_bb(s, dirs) & bit(s) == 0,
{
    lemma_mask_misses_origin(s, dirs, 4);
    let m = relevant_bb(s, dirs);
    let k = s as u64;
    assert(m & (1u64 << k) == 0) by (bit_vector)
        requires
            k < 64,
            !((m >> k) & 1u64 == 1u64),
    ;
}

/// A slider never attacks its own square, so its attack set is never full.
pub proof fn lemma_slide_not_full(s: int, occ: u64, dirs: [(i32, i32); 4])
    requires
        0 <= s < 64,
        dirs_valid(dirs),
    ensures
        slide_bb(s, occ, dirs) != 0xffff_ffff_ffff_ffffu64,
{
    lemma_slide_misses_origin(s, occ, dirs, 4);
    lemma_bit_ops(0, 0);
}

fn slide_attacks(s: u8, occ: u64, dirs: &[(i32, i32); 4]) -> (bb: u64)
    requires
        s < 64,
        dirs_valid(*dirs),
    ensures
        bb == slide_bb(s as int, occ, *dirs),
{
    let f0 = file_of(s) as i32;
    let r0 = rank_of(s) as i32;
    let mut bb = 0u64;
    for i in 0..4usize
        invariant
            s < 64,
            f0 == s % 8,
            r0 == s / 8,
            dirs_valid(*dirs),
            bb == slide_upto(s as int, occ, *dirs, i as int),
    {
        let (df, dr) = dirs[i];
        assert(valid_dir(dirs[i as int].0 as int, dirs[i as int].1 as int));
        let mut f = f0 + df;
        let mut r = r0 + dr;
        let ghost bb0 = bb;
        while 0 <= f && f < 8 && 0 <= r && r < 8
            invariant_except_break
                valid_dir(df as int, dr as int),
                -1 <= f <= 8,
                -1 <= r <= 8,
                bb | ray(f as int, r as int, df as int, dr as int, occ) == bb0 | ray(
                    f0 + df,
                    r0 + dr,
                    df as int,
                    dr as int,
                    occ,
                ),
            ensures
                bb == bb0 | ray(f0 + df, r0 + dr, df as int, dr as int, occ),
            decreases ray_measure(f as int, r as int, df as int, dr as int),
        {
            let t = sq(f as u8, r as u8);
            proof {
                lemma_bit(t as int);
                lemma_and_bit(occ, t as int);
                lemma_algebra(bb, bit(t as int), ray(f + df, r + dr, df as int, dr as int, occ));
            }
            bb |= 1u64 << t;
            if occ & (1u64 << t) != 0 {
                break;
            }
            f += df;
            r += dr;
        }
        proof {
            lemma_algebra(bb, 0, 0);
        }
    }
    bb
}

/// The relevant occupancy mask of a slider on `s` (see `relevant_bb`): it
/// never holds `s`, and the slider's attacks depend only on the occupancy
/// of its squares.
fn relevant_mask(s: u8, dirs: &[(i32, i32); 4]) -> (bb: u64)
    requires
        s < 64,
        dirs_valid(*dirs),
    ensures
        bb == relevant_bb(s as int, *dirs),
        bb & bit(s as int) == 0,
        forall|occ: u64| #[trigger] slide_bb(s as int, occ & bb, *dirs) == slide_bb(s as int, occ, *dirs),
{
    proof {
        lemma_relevant_excludes_origin(s as int, *dirs);
        assert forall|occ: u64| #[trigger] slide_bb(s as int, occ & relevant_bb(s as int, *dirs), *dirs) == slide_bb(
            s as int,
            occ,
            *dirs,
        ) by {
            lemma_slide_bb_relevant(s as int, occ, *dirs);
        }
    }
    let f0 = file_of(s) as i32;
    let r0 = rank_of(s) as i32;
    let mut bb = 0u64;
    for i in 0..4usize
        invariant
            s < 64,
            f0 == s % 8,
            r0 == s / 8,
            dirs_valid(*dirs),
            bb == mask_upto(s as int, *dirs, i as int),
    {
        let (df, dr) = dirs[i];
        assert(valid_dir(dirs[i as int].0 as int, dirs[i as int].1 as int));
        let mut f = f0 + df;
        let mut r = r0 + dr;
        let ghost bb0 = bb;
        // Walk the ray, stopping one square short of the board edge in the
        // direction of travel.
        while 0 <= f && f < 8 && 0 <= r && r < 8
            invariant_except_break
                valid_dir(df as int, dr as int),
                -1 <= f <= 8,
                -1 <= r <= 8,
                bb | mask_ray(f as int, r as int, df as int, dr as int) == bb0 | mask_ray(
                    f0 + df,
                    r0 + dr,
                    df as int,
                    dr as int,
                ),
            ensures
                bb == bb0 | mask_ray(f0 + df, r0 + dr, df as int, dr as int),
            decreases ray_measure(f as int, r as int, df as int, dr as int),
        {
            let nf = f + df;
            let nr = r + dr;
            if !(0 <= nf && nf < 8) || !(0 <= nr && nr < 8) {
                proof {
                    lemma_algebra(bb, 0, 0);
                }
                break;
            }
            let t = sq(f as u8, r as u8);
            proof {
                lemma_bit(t as int);
                lemma_algebra(bb, bit(t as int), mask_ray(nf as int, nr as int, df as int, dr as int));
            }
            bb |= 1u64 << t;
            f = nf;
            r = nr;
        }
        proof {
            lemma_algebra(bb, 0, 0);
        }
    }
    bb
}

// ---------------------------------------------------------------------------
// Magic bitboards
// ---------------------------------------------------------------------------

fn subsets(mask: u64) -> (out: Vec<u64>)
    requires
        popcount(mask) <= 16,
    ensures
        forall|i: int| 0 <= i < out.len() ==> subset_of(#[trigger] out@[i], mask),
        forall|t: u64| subset_of(t, mask) ==> #[trigger] out@.contains(t),
        forall|i: int, j: int| 0 <= i < j < out.len() ==> out@[i] < out@[j],
{
    // enumerate every subset of `mask`'s set bits (the carry-rippler trick)
    let bits = count_ones(mask);
    let mut out: Vec<u64> = Vec::with_capacity(1usize << bits);
    let mut subset: u64 = 0;
    proof {
        lemma_subset_facts(0, mask);
    }
    loop
        invariant_except_break
            subset_of(subset, mask),
            forall|i: int| 0 <= i < out.len() ==> subset_of(#[trigger] out@[i], mask) && out@[i] < subset,
            forall|i: int, j: int| 0 <= i < j < out.len() ==> out@[i] < out@[j],
            forall|t: u64| subset_of(t, mask) && t < subset ==> #[trigger] out@.contains(t),
        ensures
            forall|i: int| 0 <= i < out.len() ==> subset_of(#[trigger] out@[i], mask),
            forall|t: u64| subset_of(t, mask) ==> #[trigger] out@.contains(t),
            forall|i: int, j: int| 0 <= i < j < out.len() ==> out@[i] < out@[j],
        decreases mask - subset,
    {
        proof {
            lemma_subset_facts(subset, mask);
        }
        let ghost old_out = out@;
        out.push(subset);
        proof {
            assert forall|t: u64| subset_of(t, mask) && t <= subset implies #[trigger] out@.contains(t) by {
                if t < subset {
                    assert(old_out.contains(t));
                    let k = choose|k: int| 0 <= k < old_out.len() && old_out[k] == t;
                    assert(out@[k] == t);
                } else {
                    assert(out@[old_out.len() as int] == t);
                }
            }
        }
        if subset == mask {
            proof {
                assert forall|t: u64| subset_of(t, mask) implies #[trigger] out@.contains(t) by {
                    lemma_subset_facts(t, mask);
                }
            }
            break;
        }
        let ghost prev = subset;
        subset = subset.wrapping_sub(mask) & mask;
        proof {
            lemma_subset_facts(prev, mask);
            lemma_next_subset(prev, mask, mask);
            assert forall|t: u64| subset_of(t, mask) && t < subset implies #[trigger] out@.contains(t) by {
                if t > prev {
                    lemma_next_subset(prev, mask, t);
                }
            }
        }
    }
    out
}

#[verifier::external_type_specification]
#[verifier::external_body]
pub struct ExSmallRng(SmallRng);

/// `SmallRng::seed_from_u64` of the `rand` crate: a generator seeded
/// deterministically from `seed`. Nothing is claimed of its state.
#[verifier::external_body]
fn seeded_rng(seed: u64) -> SmallRng {
    SmallRng::seed_from_u64(seed)
}

/// `Rng::gen::<u64>` of the `rand` crate: the next pseudo-random `u64` of
/// the generator. Nothing is claimed of the value.
#[verifier::external_body]
fn random_u64(rng: &mut SmallRng) -> u64 {
    rng.gen::<u64>()
}

/// Slot of occupancy `occ` in a magic table: `((occ & mask) * magic) >> shift`
/// in wrapping arithmetic.
pub open spec fn magic_slot(occ: u64, mask: u64, magic: u64, shift: u32) -> int {
    ((occ & mask).wrapping_mul(magic) >> shift) as int
}

/// `table` maps every occupancy, through the magic multiplier, to the
/// attacks of a slider on `s`.
pub open spec fn magic_table_ok(s: int, dirs: [(i32, i32); 4], magic: u64, mask: u64, table: Seq<u64>) -> bool {
    let bits = popcount(mask);
    &&& mask == relevant_bb(s, dirs)
    &&& 1 <= bits <= 16
    &&& table.len() == (1u64 << bits) as int
    &&& forall|occ: u64| #![trigger magic_slot(occ, mask, magic, (64 - bits) as u32)]
        0 <= magic_slot(occ, mask, magic, (64 - bits) as u32) < table.len()
            && table[magic_slot(occ, mask, magic, (64 - bits) as u32)] == slide_bb(s, occ, dirs)
}

/// Whether candidate `magic` passes the sparsity test: at least 6 set bits
/// in the top byte of `mask * magic` (wrapping).
pub open spec fn magic_sparse(mask: u64, magic: u64) -> bool {
    popcount(mask.wrapping_mul(magic) >> 56u64) >= 6
}

/// Whether two occupancies of `subs` with different attacks fall on the
/// same slot of `magic`.
pub open spec fn magic_collides(subs: Seq<u64>, attacks: Seq<u64>, mask: u64, magic: u64, shift: u32) -> bool {
    exists|a: int, b: int|
        #![trigger subs[a], subs[b]]
        0 <= a < subs.len() && 0 <= b < subs.len() && magic_slot(subs[a], mask, magic, shift) == magic_slot(
            subs[b],
            mask,
            magic,
            shift,
        ) && attacks[a] != attacks[b]
}

/// Tries one candidate multiplier for the slider on `s` with relevant mask
/// `mask`, its occupancy subsets `subs` and their attacks `attacks`: the
/// table of `1 << popcount(mask)` slots when the candidate is sparse enough
/// and no two occupancies with different attacks share a slot, else `None`.
fn try_magic(s: u8, dirs: &[(i32, i32); 4], mask: u64, magic: u64, subs: &Vec<u64>, attacks: &Vec<u64>) -> (r: Option<
    Vec<u64>,
>)
    requires
        s < 64,
        dirs_valid(*dirs),
        mask == relevant_bb(s as int, *dirs),
        1 <= popcount(mask) <= 16,
        attacks.len() == subs.len(),
        forall|j: int| 0 <= j < attacks.len() ==> #[trigger] attacks@[j] == slide_bb(s as int, subs@[j], *dirs),
        forall|i: int| 0 <= i < subs.len() ==> subset_of(#[trigger] subs@[i], mask),
        forall|t: u64| subset_of(t, mask) ==> #[trigger] subs@.contains(t),
    ensures
        r is Some <==> magic_sparse(mask, magic) && !magic_collides(
            subs@,
            attacks@,
            mask,
            magic,
            (64 - popcount(mask)) as u32,
        ),
        r matches Some(table) ==> magic_table_ok(s as int, *dirs, magic, mask, table@),
{
    let bits = count_ones(mask);
    let shift: u32 = 64 - bits;
    let size: usize = 1usize << bits;
    proof {
        assert((1u64 << bits) as int == (1usize << bits) as int) by (bit_vector)
            requires
                1 <= bits <= 16;
    }
    if count_ones(mask.wrapping_mul(magic) >> 56) < 6 {
        return None;
    }
    let occ_subsets = subs;
    let mut table: Vec<u64> = vec![u64::MAX; size];
    let mut ok = true;
    let mut i: usize = 0;
    while i < occ_subsets.len()
        invariant_except_break
            ok,
            forall|j: int| 0 <= j < i ==> #[trigger] table@[magic_slot(occ_subsets@[j], mask, magic, shift)]
                == attacks@[j],
            forall|k: int| 0 <= k < table.len() && table@[k] != u64::MAX ==> exists|j: int| 0 <= j < i
                && magic_slot(occ_subsets@[j], mask, magic, shift) == k,
        invariant
            s < 64,
            dirs_valid(*dirs),
            bits == popcount(mask),
            1 <= bits <= 16,
            shift == 64 - bits,
            table.len() == size,
            size == (1u64 << bits) as int,
            attacks.len() == occ_subsets.len(),
            forall|j: int| 0 <= j < attacks.len() ==> #[trigger] attacks@[j] == slide_bb(s as int, occ_subsets@[j], *dirs),
            forall|j: int| 0 <= j < occ_subsets.len() ==> subset_of(#[trigger] occ_subsets@[j], mask),
        ensures
            table.len() == size,
            ok ==> forall|j: int| 0 <= j < occ_subsets.len() ==> #[trigger] table@[magic_slot(occ_subsets@[j], mask, magic, shift)]
                == attacks@[j],
            !ok ==> magic_collides(occ_subsets@, attacks@, mask, magic, shift),
        decreases occ_subsets.len() - i,
    {
        let occ = occ_subsets[i];
        proof {
            lemma_subset_facts(occ, mask);
            lemma_shr_bound(occ.wrapping_mul(magic), shift);
            lemma_slide_not_full(s as int, occ, *dirs);
        }
        let idx = (occ.wrapping_mul(magic) >> shift) as usize;
        assert(idx as int == magic_slot(occ, mask, magic, shift));
        if table[idx] == u64::MAX {
            let ghost old_table = table@;
            table.set(idx, attacks[i]);
            proof {
                assert forall|j: int| 0 <= j < i implies #[trigger] table@[magic_slot(occ_subsets@[j], mask, magic, shift)]
                    == attacks@[j] by {
                    lemma_slide_not_full(s as int, occ_subsets@[j], *dirs);
                    lemma_subset_facts(occ_subsets@[j], mask);
                    lemma_shr_bound(occ_subsets@[j].wrapping_mul(magic), shift);
                    assert(old_table[magic_slot(occ_subsets@[j], mask, magic, shift)] == attacks@[j]);
                    if magic_slot(occ_subsets@[j], mask, magic, shift) == idx {
                        assert(old_table[idx as int] == attacks@[j]);
                    }
                }
                assert forall|k: int| 0 <= k < table.len() && table@[k] != u64::MAX implies exists|j: int| 0 <= j < i + 1
                    && magic_slot(occ_subsets@[j], mask, magic, shift) == k by {
                    if k != idx {
                        assert(old_table[k] != u64::MAX);
                        let j = choose|j: int| 0 <= j < i && magic_slot(occ_subsets@[j], mask, magic, shift) == k;
                        assert(0 <= j < i + 1);
                    } else {
                        assert(magic_slot(occ_subsets@[i as int], mask, magic, shift) == k);
                    }
                }
            }
        } else if table[idx] != attacks[i] {
            proof {
                let j = choose|j: int| 0 <= j < i && magic_slot(occ_subsets@[j], mask, magic, shift) == idx;
                assert(table@[idx as int] == attacks@[j]);
                assert(occ_subsets@[j] == occ_subsets@[j] && occ_subsets@[i as int] == occ_subsets@[i as int]);
                assert(magic_slot(occ_subsets@[j], mask, magic, shift) == magic_slot(
                    occ_subsets@[i as int],
                    mask,
                    magic,
                    shift,
                ) && attacks@[j] != attacks@[i as int]);
            }
            ok = false;
            break;
        } else {
            proof {
                let j = choose|j: int| 0 <= j < i && magic_slot(occ_subsets@[j], mask, magic, shift) == idx;
                assert(table@[idx as int] == attacks@[j]);
            }
        }
        i += 1;
    }
    if !ok {
        return None;
    }
    proof {
        assert forall|a: int, b: int|
            0 <= a < occ_subsets.len() && 0 <= b < occ_subsets.len() && magic_slot(
                occ_subsets@[a],
                mask,
                magic,
                shift,
            ) == magic_slot(occ_subsets@[b], mask, magic, shift) implies attacks@[a] == attacks@[b] by {
            assert(table@[magic_slot(occ_subsets@[a], mask, magic, shift)] == attacks@[a]);
            assert(table@[magic_slot(occ_subsets@[b], mask, magic, shift)] == attacks@[b]);
        }
        assert forall|occ: u64| #![trigger magic_slot(occ, mask, magic, (64 - bits) as u32)]
            0 <= magic_slot(occ, mask, magic, (64 - bits) as u32) < table@.len()
                && table@[magic_slot(occ, mask, magic, (64 - bits) as u32)] == slide_bb(s as int, occ, *dirs) by {
            let o = occ & mask;
            lemma_subset_facts(occ, mask);
            lemma_subset_facts(o, mask);
            assert(subs@.contains(o));
            let j = choose|j: int| 0 <= j < occ_subsets.len() && occ_subsets@[j] == o;
            assert(magic_slot(occ, mask, magic, shift) == magic_slot(o, mask, magic, shift));
            assert(table@[magic_slot(o, mask, magic, shift)] == attacks@[j]);
            lemma_shr_bound(o.wrapping_mul(magic), shift);
            lemma_slide_bb_relevant(s as int, occ, *dirs);
        }
    }
    Some(table)
}

/// Why the magic search for a square failed: its relevant mask has no or
/// more than 16 squares, or every candidate drawn was rejected.
pub enum MagicFailure {
    BadMask,
    GaveUp,
}

/// Searches the magic multiplier for the slider on `s`: draws sparse random
/// candidates (the AND of three draws) from `rng` and keeps the first that
/// `try_magic` accepts, returning it with the relevant mask and its table.
/// Fails with `BadMask`, before any draw, exactly when the relevant mask has
/// no or more than 16 squares, and with `GaveUp` after `u64::MAX` rejected
/// candidates.
fn find_magic(s: u8, dirs: &[(i32, i32); 4], rng: &mut SmallRng) -> (res: Result<(u64, u64, Vec<u64>), MagicFailure>)
    requires
        s < 64,
        dirs_valid(*dirs),
    ensures
        match res {
            Ok((magic, mask, table)) => magic_table_ok(s as int, *dirs, magic, mask, table@),
            Err(MagicFailure::BadMask) => !(1 <= popcount(relevant_bb(s as int, *dirs)) <= 16),
            Err(MagicFailure::GaveUp) => 1 <= popcount(relevant_bb(s as int, *dirs)) <= 16,
        },
        !(1 <= popcount(relevant_bb(s as int, *dirs)) <= 16) ==> res matches Err(MagicFailure::BadMask),
{
    let mask = relevant_mask(s, dirs);
    let bits = count_ones(mask);
    if bits == 0 || bits > 16 {
        return Err(MagicFailure::BadMask);
    }
    let occ_subsets = subsets(mask);
    let mut attacks: Vec<u64> = Vec::new();
    for i in 0..occ_subsets.len()
        invariant
            s < 64,
            dirs_valid(*dirs),
            attacks.len() == i,
            forall|j: int| 0 <= j < i ==> #[trigger] attacks@[j] == slide_bb(s as int, occ_subsets@[j], *dirs),
    {
        let a = slide_attacks(s, occ_subsets[i], dirs);
        attacks.push(a);
    }
    let mut attempts: u64 = 0;
    while attempts < u64::MAX
        invariant
            s < 64,
            dirs_valid(*dirs),
            mask == relevant_bb(s as int, *dirs),
            1 <= popcount(mask) <= 16,
            attacks.len() == occ_subsets.len(),
            forall|j: int| 0 <= j < attacks.len() ==> #[trigger] attacks@[j] == slide_bb(s as int, occ_subsets@[j], *dirs),
            forall|i: int| 0 <= i < occ_subsets.len() ==> subset_of(#[trigger] occ_subsets@[i], mask),
            forall|t: u64| subset_of(t, mask) ==> #[trigger] occ_subsets@.contains(t),
        decreases u64::MAX - attempts,
    {
        attempts += 1;
        let magic = random_u64(rng) & random_u64(rng) & random_u64(rng);
        if let Some(table) = try_magic(s, dirs, mask, magic, &occ_subsets, &attacks) {
            return Ok((magic, mask, table));
        }
    }
    Err(MagicFailure::GaveUp)
}

/// Magic lookup data for one square: relevant-occupancy mask, multiplier,
/// shift and the offset of the square's slice of the shared attack table.
#[derive(Clone, Copy)]
pub struct Magic {
    pub mask: u64,
    pub magic: u64,
    pub shift: u32,
    pub offset: usize,
}

/// Table slot of occupancy `occ` for magic `m`.
pub open spec fn magic_index(m: Magic, occ: u64) -> int {
    m.offset + magic_slot(occ, m.mask, m.magic, m.shift)
}

/// Magic `m` looks up, in `table`, the attacks of a slider on `s` for every
/// occupancy.
pub open spec fn magic_ok(m: Magic, table: Seq<u64>, s: int, dirs: [(i32, i32); 4]) -> bool {
    &&& m.mask == relevant_bb(s, dirs)
    &&& 1 <= popcount(m.mask) <= 16
    &&& m.shift == 64 - popcount(m.mask)
    &&& forall|occ: u64| #![trigger magic_index(m, occ)]
        0 <= magic_index(m, occ) < table.len() && table[magic_index(m, occ)] == slide_bb(s, occ, dirs)
}

proof fn lemma_magic_ok_extend(m: Magic, t1: Seq<u64>, t2: Seq<u64>, s: int, dirs: [(i32, i32); 4])
    requires
        magic_ok(m, t1, s, dirs),
        t1.len() <= t2.len(),
        forall|k: int| 0 <= k < t1.len() ==> t1[k] == t2[k],
    ensures
        magic_ok(m, t2, s, dirs),
{
    assert forall|occ: u64| #![trigger magic_index(m, occ)]
        0 <= magic_index(m, occ) < t2.len() && t2[magic_index(m, occ)] == slide_bb(s, occ, dirs) by {
        assert(0 <= magic_index(m, occ) < t1.len());
    }
}

fn build_magics(dirs: &[(i32, i32); 4], seed: u64) -> (res: Option<([Magic; 64], Vec<u64>)>)
    requires
        dirs_valid(*dirs),
    ensures
        match res {
            Some((magics, flat)) => forall|s: int| 0 <= s < 64 ==> magic_ok(#[trigger] magics[s], flat@, s, *dirs),
            None => true,
        },
{
    let mut rng = seeded_rng(seed);
    let mut flat: Vec<u64> = Vec::new();
    let mut magics = [Magic { mask: 0, magic: 0, shift: 0, offset: 0 }; 64];
    for s in 0..64u8
        invariant
            dirs_valid(*dirs),
            flat.len() <= s * 65536,
            forall|s2: int| 0 <= s2 < s ==> magic_ok(#[trigger] magics[s2], flat@, s2, *dirs),
    {
        match find_magic(s, dirs, &mut rng) {
            Err(_) => {
                return None;
            },
            Ok((magic, mask, table)) => {
                let bits = count_ones(mask);
                let shift = 64 - bits;
                let offset = flat.len();
                let ghost flat0 = flat@;
                proof {
                    assert((1u64 << bits) <= 65536) by (bit_vector)
                        requires
                            bits <= 16;
                }
                for i in 0..table.len()
                    invariant
                        flat.len() == offset + i,
                        offset == flat0.len(),
                        offset <= s * 65536,
                        table.len() <= 65536,
                        forall|k: int| 0 <= k < offset ==> flat@[k] == flat0[k],
                        forall|k: int| 0 <= k < i ==> flat@[offset + k] == #[trigger] table@[k],
                {
                    flat.push(table[i]);
                }
                let m = Magic { mask, magic, shift, offset };
                proof {
                    assert forall|s2: int| 0 <= s2 < s implies magic_ok(#[trigger] magics[s2], flat@, s2, *dirs) by {
                        lemma_magic_ok_extend(magics[s2], flat0, flat@, s2, *dirs);
                    }
                    assert forall|occ: u64| #![trigger magic_index(m, occ)]
                        0 <= magic_index(m, occ) < flat@.len() && flat@[magic_index(m, occ)] == slide_bb(s as int, occ, *dirs) by {
                        let k = magic_slot(occ, mask, magic, (64 - bits) as u32);
                        assert(0 <= k < table@.len());
                        assert(flat@[offset + k] == table@[k]);
                    }
                }
                magics[s as usize] = m;
            },
        }
    }
    Some((magics, flat))
}

/// Precomputed attack data: leaper tables and the magic tables of the
/// sliding pieces.
pub struct Tables {
    pub knight: [u64; 64],
    pub king: [u64; 64],
    pub pawn: [[u64; 64]; 2],
    pub bishop_magics: [Magic; 64],
    pub rook_magics: [Magic; 64],
    pub bishop_table: Vec<u64>,
    pub rook_table: Vec<u64>,
}

impl Tables {
    /// Every table entry holds the attacks it stands for.
    pub open spec fn wf(&self) -> bool {
        &&& forall|s: int| 0 <= s < 64 ==> #[trigger] self.knight[s] == knight_bb(s)
        &&& forall|s: int| 0 <= s < 64 ==> #[trigger] self.king[s] == king_bb(s)
        &&& forall|c: int, s: int| 0 <= c < 2 && 0 <= s < 64 ==> #[trigger] self.pawn[c][s] == pawn_bb(c, s)
        &&& forall|s: int| 0 <= s < 64 ==> magic_ok(#[trigger] self.bishop_magics[s], self.bishop_table@, s, bishop_dirs())
        &&& forall|s: int| 0 <= s < 64 ==> magic_ok(#[trigger] self.rook_magics[s], self.rook_table@, s, rook_dirs())
    }
}

fn init_tables() -> (res: Option<Tables>)
    ensures
        match res {
            Some(t) => t.wf(),
            None => true,
        },
{
    let mut knight = [0u64; 64];
    let mut king = [0u64; 64];
    let mut pawn = [[0u64; 64]; 2];
    for s in 0..64u8
        invariant
            forall|s2: int| 0 <= s2 < s ==> #[trigger] knight[s2] == knight_bb(s2),
            forall|s2: int| 0 <= s2 < s ==> #[trigger] king[s2] == king_bb(s2),
            forall|c: int, s2: int| 0 <= c < 2 && 0 <= s2 < s ==> #[trigger] pawn[c][s2] == pawn_bb(c, s2),
    {
        knight[s as usize] = knight_attacks_from(s);
        king[s as usize] = king_attacks_from(s);
        pawn[WHITE][s as usize] = pawn_attacks_from(s, WHITE);
        pawn[BLACK][s as usize] = pawn_attacks_from(s, BLACK);
    }
    let bdirs = bishop_dir_table();
    let rdirs = rook_dir_table();
    let (bishop_magics, bishop_table) = match build_magics(&bdirs, 0xB157) {
        Some(r) => r,
        None => {
            return None;
        },
    };
    let (rook_magics, rook_table) = match build_magics(&rdirs, 0xB00C_D00D) {
        Some(r) => r,
        None => {
            return None;
        },
    };
    Some(Tables { knight, king, pawn, bishop_magics, rook_magics, bishop_table, rook_table })
}

/// Builds the attack tables. `None` only when the random search for a magic
/// multiplier of some square gives up, after `u64::MAX` rejected candidates
/// (the search is bounded so that it provably ends; with its fixed seeds it
/// finds every multiplier within a few thousand draws).
pub fn tables() -> (res: Option<Tables>)
    ensures
        match res {
            Some(t) => t.wf(),
            None => true,
        },
{
    init_tables()
}

/// Squares a bishop on `s` attacks given occupancy `occ`.
pub fn bishop_attacks(t: &Tables, s: u8, occ: u64) -> (r: u64)
    requires
        t.wf(),
        s < 64,
    ensures
        r == bishop_bb(s as int, occ),
{
    let m = &t.bishop_magics[s as usize];
    proof {
        assert(magic_ok(*m, t.bishop_table@, s as int, bishop_dirs()));
        assert(0 <= magic_index(*m, occ) < t.bishop_table@.len());
    }
    let len = t.bishop_table.len();
    let x = (occ & m.mask).wrapping_mul(m.magic) >> m.shift;
    assert(x as int == magic_slot(occ, m.mask, m.magic, m.shift));
    assert(m.offset + x < len);
    let idx = x as usize;
    t.bishop_table[m.offset + idx]
}

/// Squares a rook on `s` attacks given occupancy `occ`.
pub fn rook_attacks(t: &Tables, s: u8, occ: u64) -> (r: u64)
    requires
        t.wf(),
        s < 64,
    ensures
        r == rook_bb(s as int, occ),
{
    let m = &t.rook_magics[s as usize];
    proof {
        assert(magic_ok(*m, t.rook_table@, s as int, rook_dirs()));
        assert(0 <= magic_index(*m, occ) < t.rook_table@.len());
    }
    let len = t.rook_table.len();
    let x = (occ & m.mask).wrapping_mul(m.magic) >> m.shift;
    assert(x as int == magic_slot(occ, m.mask, m.magic, m.shift));
    assert(m.offset + x < len);
    let idx = x as usize;
    t.rook_table[m.offset + idx]
}

/// Squares a queen on `s` attacks given occupancy `occ`.
pub fn queen_attacks(t: &Tables, s: u8, occ: u64) -> (r: u64)
    requires
        t.wf(),
        s < 64,
    ensures
        r == queen_bb(s as int, occ),
{
    bishop_attacks(t, s, occ) | rook_attacks(t, s, occ)
}

// ---------------------------------------------------------------------------
// Attacks on a position
// ---------------------------------------------------------------------------

/// Whether side `by` attacks square `s` in `pos`.
pub open spec fn attacked(pos: Position, s: int, by: int) -> bool {
    let occ = pos.all_occ;
    ||| pawn_bb(1 - by, s) & pos.pieces[by][PAWN as int] != 0
    ||| knight_bb(s) & pos.pieces[by][KNIGHT as int] != 0
    ||| king_bb(s) & pos.pieces[by][KING as int] != 0
    ||| bishop_bb(s, occ) & (pos.pieces[by][BISHOP as int] | pos.pieces[by][QUEEN as int]) != 0
    ||| rook_bb(s, occ) & (pos.pieces[by][ROOK as int] | pos.pieces[by][QUEEN as int]) != 0
}

/// Whether side `by` attacks square `s`.
pub fn is_square_attacked(t: &Tables, pos: &Position, s: u8, by: usize) -> (r: bool)
    requires
        t.wf(),
        s < 64,
        by < 2,
    ensures
        r == attacked(*pos, s as int, by as int),
{
    if t.pawn[1 - by][s as usize] & pos.pieces[by][PAWN] != 0 {
        return true;
    }
    if t.knight[s as usize] & pos.pieces[by][KNIGHT] != 0 {
        return true;
    }
    if t.king[s as usize] & pos.pieces[by][KING] != 0 {
        return true;
    }
    let occ = pos.all_occ;
    let bq = pos.pieces[by][BISHOP] | pos.pieces[by][QUEEN];
    if bishop_attacks(t, s, occ) & bq != 0 {
        return true;
    }
    let rq = pos.pieces[by][ROOK] | pos.pieces[by][QUEEN];
    if rook_attacks(t, s, occ) & rq != 0 {
        return true;
    }
    false
}

/// Square of the (lowest) king of `color`; 64 when there is none.
pub open spec fn king_sq(pos: Position, color: int) -> int {
    u64_trailing_zeros(pos.pieces[color][KING as int]) as int
}

/// Square of the king of `color` (64 when it has none).
pub fn king_square(pos: &Position, color: usize) -> (r: u8)
    requires
        color < 2,
    ensures
        r == king_sq(*pos, color as int),
        r <= 64,
        pos.pieces[color as int][KING as int] != 0 ==> r < 64,
{
    proof {
        axiom_u64_trailing_zeros(pos.pieces[color as int][KING as int]);
    }
    pos.pieces[color][KING].trailing_zeros() as u8
}

/// Whether the king of `color` is attacked.
pub open spec fn in_check_spec(pos: Position, color: int) -> bool {
    attacked(pos, king_sq(pos, color), 1 - color)
}

/// Whether the king of `color` is attacked.
pub fn in_check(t: &Tables, pos: &Position, color: usize) -> (r: bool)
    requires
        t.wf(),
        color < 2,
        pos.pieces[color as int][KING as int] != 0,
    ensures
        r == in_check_spec(*pos, color as int),
{
    is_square_attacked(t, pos, king_square(pos, color), 1 - color)
}

// ---------------------------------------------------------------------------
// Pseudo-legal move generation
// ---------------------------------------------------------------------------

pub open spec fn mv(from: int, to: int, promo: u8, flag: u8) -> Move {
    Move { from: from as u8, to: to as u8, promo, flag }
}

/// Plain moves from `from` to each square of `tgt`, lowest first.
pub open spec fn quiet_moves(from: int, tgt: u64) -> Seq<Move>
    decreases tgt,
{
    if tgt == 0 {
        Seq::empty()
    } else {
        proof {
            lemma_lsb(tgt);
        }
        seq![mv(from, lsb(tgt), PROMO_NONE, FLAG_NORMAL)] + quiet_moves(from, clear_lsb(tgt))
    }
}

/// The four promotions of a pawn move, queen first.
pub open spec fn promo_moves(from: int, to: int, flag: u8) -> Seq<Move> {
    seq![mv(from, to, PROMO_Q, flag), mv(from, to, PROMO_R, flag), mv(from, to, PROMO_B, flag), mv(from, to, PROMO_N, flag)]
}

/// Pawn captures from `from` to each square of `tgt`, promoting on `promo_rank`.
pub open spec fn pawn_captures(from: int, tgt: u64, promo_rank: u64) -> Seq<Move>
    decreases tgt,
{
    if tgt == 0 {
        Seq::empty()
    } else {
        proof {
            lemma_lsb(tgt);
        }
        let to = lsb(tgt);
        (if bit(to) & promo_rank != 0 {
            promo_moves(from, to, FLAG_NORMAL)
        } else {
            seq![mv(from, to, PROMO_NONE, FLAG_NORMAL)]
        }) + pawn_captures(from, clear_lsb(tgt), promo_rank)
    }
}

pub open spec fn push_dir(side: int) -> int {
    if side == WHITE { 8 } else { -8 }
}

pub open spec fn start_rank(side: int) -> u64 {
    if side == WHITE { RANK_2 } else { RANK_7 }
}

pub open spec fn promo_rank(side: int) -> u64 {
    if side == WHITE { RANK_8 } else { RANK_1 }
}

/// Single and double pushes of the pawn on `from`.
pub open spec fn pawn_pushes(pos: Position, from: int) -> Seq<Move> {
    let side = pos.side as int;
    let occ = pos.all_occ;
    let one = from + push_dir(side);
    let two = one + push_dir(side);
    if 0 <= one < 64 && occ & bit(one) == 0 {
        if bit(one) & promo_rank(side) != 0 {
            promo_moves(from, one, FLAG_NORMAL)
        } else {
            seq![mv(from, one, PROMO_NONE, FLAG_NORMAL)] + (if bit(from) & start_rank(side) != 0 && occ
                & bit(two) == 0 {
                seq![mv(from, two, PROMO_NONE, FLAG_DOUBLE)]
            } else {
                Seq::empty()
            })
        }
    } else {
        Seq::empty()
    }
}

/// All pseudo-legal moves of the pawn on `from`: pushes, captures, en passant.
pub open spec fn pawn_moves_from(pos: Position, from: int) -> Seq<Move> {
    let side = pos.side as int;
    let caps = pawn_bb(side, from) & pos.occ[1 - side];
    pawn_pushes(pos, from) + pawn_captures(from, caps, promo_rank(side)) + match pos.ep_square {
        Some(e) => if pawn_bb(side, from) & bit(e as int) != 0 {
            seq![mv(from, e as int, PROMO_NONE, FLAG_EP)]
        } else {
            Seq::empty()
        },
        None => Seq::empty(),
    }
}

/// Pawn moves from each square of `bb`, lowest first.
pub open spec fn pawn_section(pos: Position, bb: u64) -> Seq<Move>
    decreases bb,
{
    if bb == 0 {
        Seq::empty()
    } else {
        proof {
            lemma_lsb(bb);
        }
        pawn_moves_from(pos, lsb(bb)) + pawn_section(pos, clear_lsb(bb))
    }
}

/// Squares a knight, bishop, rook or queen on `from` attacks.
pub open spec fn piece_attacks(piece: int, from: int, occ: u64) -> u64 {
    if piece == KNIGHT {
        knight_bb(from)
    } else if piece == BISHOP {
        bishop_bb(from, occ)
    } else if piece == ROOK {
        rook_bb(from, occ)
    } else {
        queen_bb(from, occ)
    }
}

/// Moves of the pieces of type `piece` on the squares of `bb`, lowest first.
pub open spec fn piece_section(pos: Position, piece: int, bb: u64) -> Seq<Move>
    decreases bb,
{
    if bb == 0 {
        Seq::empty()
    } else {
        proof {
            lemma_lsb(bb);
        }
        let from = lsb(bb);
        quiet_moves(from, piece_attacks(piece, from, pos.all_occ) & !pos.occ[pos.side as int])
            + piece_section(pos, piece, clear_lsb(bb))
    }
}

/// Castling moves of the king on `from`.
pub open spec fn castle_moves(pos: Position, from: int) -> Seq<Move> {
    let us = pos.side as int;
    let them = 1 - us;
    let occ = pos.all_occ;
    let k_flag = if us == WHITE { CASTLE_WK } else { CASTLE_BK };
    let q_flag = if us == WHITE { CASTLE_WQ } else { CASTLE_BQ };
    let rank = if us == WHITE { 0int } else { 7int };
    if from == rank * 8 + 4 && !attacked(pos, from, them) {
        (if pos.castling & k_flag != 0 && piece_at_spec(pos, rank * 8 + 7) == Some((pos.side, ROOK))
            && occ & bit(rank * 8 + 5) == 0 && occ & bit(rank * 8 + 6) == 0 && !attacked(
            pos,
            rank * 8 + 5,
            them,
        ) && !attacked(pos, rank * 8 + 6, them) {
            seq![mv(from, rank * 8 + 6, PROMO_NONE, FLAG_CASTLE_K)]
        } else {
            Seq::empty()
        }) + (if pos.castling & q_flag != 0 && piece_at_spec(pos, rank * 8) == Some((pos.side, ROOK))
            && occ & bit(rank * 8 + 3) == 0 && occ & bit(rank * 8 + 2) == 0 && occ & bit(rank * 8 + 1)
            == 0 && !attacked(pos, rank * 8 + 3, them) && !attacked(pos, rank * 8 + 2, them) {
            seq![mv(from, rank * 8 + 2, PROMO_NONE, FLAG_CASTLE_Q)]
        } else {
            Seq::empty()
        })
    } else {
        Seq::empty()
    }
}

/// King steps and castling.
pub open spec fn king_section(pos: Position) -> Seq<Move> {
    let from = king_sq(pos, pos.side as int);
    quiet_moves(from, king_bb(from) & !pos.occ[pos.side as int]) + castle_moves(pos, from)
}

/// The pseudo-legal moves of `pos` in generation order: pawns, knights,
/// bishops, rooks, queens, then the king (steps, then castling); within a
/// piece type by origin square, then by destination square.
pub open spec fn pseudo_moves(pos: Position) -> Seq<Move> {
    let us = pos.side as int;
    pawn_section(pos, pos.pieces[us][PAWN as int]) + piece_section(pos, KNIGHT as int, pos.pieces[us][KNIGHT as int])
        + piece_section(pos, BISHOP as int, pos.pieces[us][BISHOP as int]) + piece_section(
        pos,
        ROOK as int,
        pos.pieces[us][ROOK as int],
    ) + piece_section(pos, QUEEN as int, pos.pieces[us][QUEEN as int]) + king_section(pos)
}

/// Positions on which move generation is defined: a side to move, an
/// en-passant target on the board, and a king for the side to move.
pub open spec fn gen_ok(pos: Position) -> bool {
    &&& pos.side < 2
    &&& match pos.ep_square {
        Some(e) => e < 64,
        None => true,
    }
    &&& pos.pieces[pos.side as int][KING as int] != 0
}

fn add_promos(moves: &mut Vec<Move>, from: u8, to: u8, flag: u8)
    ensures
        final(moves)@ == old(moves)@ + promo_moves(from as int, to as int, flag),
{
    moves.push(Move { from, to, promo: PROMO_Q, flag });
    moves.push(Move { from, to, promo: PROMO_R, flag });
    moves.push(Move { from, to, promo: PROMO_B, flag });
    moves.push(Move { from, to, promo: PROMO_N, flag });
    assert(moves@ =~= old(moves)@ + promo_moves(from as int, to as int, flag));
}

fn push_quiet(moves: &mut Vec<Move>, from: u8, tgt: u64)
    ensures
        final(moves)@ == old(moves)@ + quiet_moves(from as int, tgt),
{
    let ghost m0 = moves@;
    let mut atk = tgt;
    while atk != 0
        invariant
            moves@ + quiet_moves(from as int, atk) == m0 + quiet_moves(from as int, tgt),
        decreases atk,
    {
        proof {
            lemma_lsb(atk);
        }
        let ghost a0 = atk;
        let ghost before = moves@;
        let to = pop_lsb(&mut atk);
        moves.push(Move { from, to, promo: PROMO_NONE, flag: FLAG_NORMAL });
        assert(moves@ + quiet_moves(from as int, atk) =~= before + quiet_moves(from as int, a0));
    }
    assert(moves@ =~= moves@ + quiet_moves(from as int, atk));
}

fn push_pawn_captures(moves: &mut Vec<Move>, from: u8, tgt: u64, promo_rank: u64)
    ensures
        final(moves)@ == old(moves)@ + pawn_captures(from as int, tgt, promo_rank),
{
    let ghost m0 = moves@;
    let mut attacks = tgt;
    while attacks != 0
        invariant
            moves@ + pawn_captures(from as int, attacks, promo_rank) == m0 + pawn_captures(from as int, tgt, promo_rank),
        decreases attacks,
    {
        proof {
            lemma_lsb(attacks);
        }
        let ghost a0 = attacks;
        let ghost before = moves@;
        let to = pop_lsb(&mut attacks);
        if (1u64 << to) & promo_rank != 0 {
            add_promos(moves, from, to, FLAG_NORMAL);
        } else {
            moves.push(Move { from, to, promo: PROMO_NONE, flag: FLAG_NORMAL });
        }
        assert(moves@ + pawn_captures(from as int, attacks, promo_rank) =~= before + pawn_captures(from as int, a0, promo_rank));
    }
    assert(moves@ =~= moves@ + pawn_captures(from as int, attacks, promo_rank));
}

fn push_pawn_moves(t: &Tables, pos: &Position, moves: &mut Vec<Move>, from: u8)
    requires
        t.wf(),
        gen_ok(*pos),
        from < 64,
    ensures
        final(moves)@ == old(moves)@ + pawn_moves_from(*pos, from as int),
{
    let ghost m0 = moves@;
    let us = pos.side;
    let them = 1 - us;
    let occ = pos.all_occ;
    let (push_dir, start_rank, promo_rank): (i32, u64, u64) = if us == WHITE {
        (8, RANK_2, RANK_8)
    } else {
        (-8, RANK_7, RANK_1)
    };
    let one_sq = from as i32 + push_dir;
    if 0 <= one_sq && one_sq < 64 {
        let one = one_sq as u8;
        if occ & (1u64 << one) == 0 {
            if (1u64 << one) & promo_rank != 0 {
                add_promos(moves, from, one, FLAG_NORMAL);
            } else {
                moves.push(Move { from, to: one, promo: PROMO_NONE, flag: FLAG_NORMAL });
                if (1u64 << from) & start_rank != 0 {
                    proof {
                        lemma_algebra(bit(from as int), start_rank, 0);
                        lemma_and_bit(start_rank, from as int);
                        lemma_rank_masks_bv(from as u64);
                    }
                    let two = (one as i32 + push_dir) as u8;
                    if occ & (1u64 << two) == 0 {
                        moves.push(Move { from, to: two, promo: PROMO_NONE, flag: FLAG_DOUBLE });
                    }
                }
            }
        }
    }
    assert(moves@ =~= m0 + pawn_pushes(*pos, from as int));
    let ghost m1 = moves@;
    push_pawn_captures(moves, from, t.pawn[us][from as usize] & pos.occ[them], promo_rank);
    let ghost m2 = moves@;
    if let Some(epsq) = pos.ep_square {
        if t.pawn[us][from as usize] & (1u64 << epsq) != 0 {
            moves.push(Move { from, to: epsq, promo: PROMO_NONE, flag: FLAG_EP });
        }
    }
    assert(moves@ =~= m0 + pawn_moves_from(*pos, from as int));
}

fn piece_attacks_exec(t: &Tables, piece: usize, from: u8, occ: u64) -> (r: u64)
    requires
        t.wf(),
        from < 64,
    ensures
        r == piece_attacks(piece as int, from as int, occ),
{
    if piece == KNIGHT {
        t.knight[from as usize]
    } else if piece == BISHOP {
        bishop_attacks(t, from, occ)
    } else if piece == ROOK {
        rook_attacks(t, from, occ)
    } else {
        queen_attacks(t, from, occ)
    }
}

fn push_piece_section(t: &Tables, pos: &Position, moves: &mut Vec<Move>, piece: usize)
    requires
        t.wf(),
        pos.side < 2,
        piece < 6,
    ensures
        final(moves)@ == old(moves)@ + piece_section(*pos, piece as int, pos.pieces[pos.side as int][piece as int]),
{
    let ghost m0 = moves@;
    let own = pos.occ[pos.side];
    let occ = pos.all_occ;
    let mut pieces = pos.pieces[pos.side][piece];
    while pieces != 0
        invariant
            t.wf(),
            pos.side < 2,
            own == pos.occ[pos.side as int],
            occ == pos.all_occ,
            moves@ + piece_section(*pos, piece as int, pieces) == m0 + piece_section(
                *pos,
                piece as int,
                pos.pieces[pos.side as int][piece as int],
            ),
        decreases pieces,
    {
        proof {
            lemma_lsb(pieces);
        }
        let ghost p0 = pieces;
        let ghost before = moves@;
        let from = pop_lsb(&mut pieces);
        let atk = piece_attacks_exec(t, piece, from, occ) & !own;
        push_quiet(moves, from, atk);
        assert(moves@ + piece_section(*pos, piece as int, pieces) =~= before + piece_section(*pos, piece as int, p0));
    }
    assert(moves@ =~= moves@ + piece_section(*pos, piece as int, pieces));
}

fn rook_on(pos: &Position, s: u8, color: usize) -> (r: bool)
    requires
        s < 64,
    ensures
        r == (piece_at_spec(*pos, s as int) == Some((color, ROOK))),
{
    match pos.piece_at(s) {
        Some((c, p)) => c == color && p == ROOK,
        None => false,
    }
}

/// All pseudo-legal moves: moves that follow the piece rules, ignoring
/// whether the mover's king is left attacked.
pub fn gen_pseudo_legal(t: &Tables, pos: &Position) -> (moves: Vec<Move>)
    requires
        t.wf(),
        gen_ok(*pos),
    ensures
        moves@ == pseudo_moves(*pos),
{
    let us = pos.side;
    let them = 1 - us;
    let own = pos.occ[us];
    let occ = pos.all_occ;
    let mut moves: Vec<Move> = Vec::with_capacity(48);

    // Pawns
    let mut pawns = pos.pieces[us][PAWN];
    while pawns != 0
        invariant
            t.wf(),
            gen_ok(*pos),
            us == pos.side,
            moves@ + pawn_section(*pos, pawns) == pawn_section(*pos, pos.pieces[us as int][PAWN as int]),
        decreases pawns,
    {
        proof {
            lemma_lsb(pawns);
        }
        let ghost p0 = pawns;
        let ghost before = moves@;
        let from = pop_lsb(&mut pawns);
        push_pawn_moves(t, pos, &mut moves, from);
        assert(moves@ + pawn_section(*pos, pawns) =~= before + pawn_section(*pos, p0));
    }
    assert(moves@ =~= pawn_section(*pos, pos.pieces[us as int][PAWN as int]));

    // Knights, bishops, rooks, queens
    push_piece_section(t, pos, &mut moves, KNIGHT);
    push_piece_section(t, pos, &mut moves, BISHOP);
    push_piece_section(t, pos, &mut moves, ROOK);
    push_piece_section(t, pos, &mut moves, QUEEN);
    let ghost before_king = moves@;

    // King
    let from = king_square(pos, us);
    push_quiet(&mut moves, from, t.king[from as usize] & !own);
    let ghost after_steps = moves@;
    // Castling
    let (k_flag, q_flag, rank) = if us == WHITE {
        (CASTLE_WK, CASTLE_WQ, 0u8)
    } else {
        (CASTLE_BK, CASTLE_BQ, 7u8)
    };
    let e_sq = sq(4, rank);
    if from == e_sq && !in_check(t, pos, us) {
        if pos.castling & k_flag != 0 {
            let f_sq = sq(5, rank);
            let g_sq = sq(6, rank);
            let h_sq = sq(7, rank);
            if rook_on(pos, h_sq, us) && occ & (1u64 << f_sq) == 0 && occ & (1u64 << g_sq) == 0
                && !is_square_attacked(t, pos, f_sq, them) && !is_square_attacked(t, pos, g_sq, them) {
                moves.push(Move { from, to: g_sq, promo: PROMO_NONE, flag: FLAG_CASTLE_K });
            }
        }
        if pos.castling & q_flag != 0 {
            let d_sq = sq(3, rank);
            let c_sq = sq(2, rank);
            let b_sq = sq(1, rank);
            let a_sq = sq(0, rank);
            if rook_on(pos, a_sq, us) && occ & (1u64 << d_sq) == 0 && occ & (1u64 << c_sq) == 0 && occ & (1u64
                << b_sq) == 0 && !is_square_attacked(t, pos, d_sq, them) && !is_square_attacked(t, pos, c_sq, them) {
                moves.push(Move { from, to: c_sq, promo: PROMO_NONE, flag: FLAG_CASTLE_Q });
            }
        }
    }
    assert(moves@ =~= before_king + king_section(*pos));
    moves
}

// ---------------------------------------------------------------------------
// Making moves
// ---------------------------------------------------------------------------

/// Type of the piece that moves (the first piece found on the origin square).
pub open spec fn moved_type(pos: Position, m: Move) -> usize {
    match piece_at_spec(pos, m.from as int) {
        Some((_, p)) => p,
        None => PAWN,
    }
}

/// The first piece type at or after `p` whose bitboard in `b` holds `s` (6 if none).
pub open spec fn first_hit(b: [u64; 6], s: int, p: int) -> int
    decreases 6 - p,
{
    if p < 0 || p >= 6 {
        6
    } else if is_set(b[p], s) {
        p
    } else {
        first_hit(b, s, p + 1)
    }
}

/// Piece type a promotion code stands for.
pub open spec fn promo_piece(promo: u8) -> usize {
    if promo == PROMO_N {
        KNIGHT
    } else if promo == PROMO_B {
        BISHOP
    } else if promo == PROMO_R {
        ROOK
    } else {
        QUEEN
    }
}

pub open spec fn is_castle(m: Move) -> bool {
    m.flag == FLAG_CASTLE_K || m.flag == FLAG_CASTLE_Q
}

/// Origin and destination of the rook in a castling move.
pub open spec fn castle_rook(m: Move) -> (int, int) {
    let rank = m.from / 8;
    if m.flag == FLAG_CASTLE_K {
        (rank * 8 + 7, rank * 8 + 5)
    } else {
        (rank * 8, rank * 8 + 3)
    }
}

/// Square of the pawn an en-passant capture removes.
pub open spec fn ep_victim(pos: Position, m: Move) -> int {
    if pos.side == WHITE {
        m.to - 8
    } else {
        m.to + 8
    }
}

/// Whether the move captures something (en passant, or a piece of the
/// opponent on the destination square).
pub open spec fn captures(pos: Position, m: Move) -> bool {
    m.flag == FLAG_EP || pos.occ[1 - pos.side as int] & bit(m.to as int) != 0
}

/// Bitboard of the opponent's piece type `p` after the move.
pub open spec fn after_them(pos: Position, m: Move, p: int) -> u64 {
    let them = 1 - pos.side as int;
    let b = pos.pieces[them][p];
    if m.flag == FLAG_EP {
        if p == PAWN {
            b & !bit(ep_victim(pos, m))
        } else {
            b
        }
    } else if pos.occ[them] & bit(m.to as int) != 0 && p == first_hit(pos.pieces[them], m.to as int, 0) {
        b & !bit(m.to as int)
    } else {
        b
    }
}

/// Bitboard of the mover's piece type `p` after the move.
pub open spec fn after_us(pos: Position, m: Move, p: int) -> u64 {
    let moved = moved_type(pos, m) as int;
    let b0 = pos.pieces[pos.side as int][p];
    let b1 = if p == moved { b0 & !bit(m.from as int) } else { b0 };
    let b2 = if m.promo != PROMO_NONE {
        if p == promo_piece(m.promo) { b1 | bit(m.to as int) } else { b1 }
    } else {
        if p == moved { b1 | bit(m.to as int) } else { b1 }
    };
    if is_castle(m) && p == ROOK {
        (b2 & !bit(castle_rook(m).0)) | bit(castle_rook(m).1)
    } else {
        b2
    }
}

pub open spec fn clear_if(c: u8, cond: bool, mask: u8) -> u8 {
    if cond { c & !mask } else { c }
}

/// Castling rights after the move: lost when the king moves, or when a rook
/// moves from or is captured on its home square.
pub open spec fn after_castling(pos: Position, m: Move) -> u8 {
    let c0 = pos.castling;
    let c1 = if moved_type(pos, m) == KING {
        c0 & (if pos.side == WHITE { !(CASTLE_WK | CASTLE_WQ) } else { !(CASTLE_BK | CASTLE_BQ) })
    } else {
        c0
    };
    let c2 = clear_if(c1, m.from == 0 || m.to == 0, CASTLE_WQ);
    let c3 = clear_if(c2, m.from == 7 || m.to == 7, CASTLE_WK);
    let c4 = clear_if(c3, m.from == 56 || m.to == 56, CASTLE_BQ);
    clear_if(c4, m.from == 63 || m.to == 63, CASTLE_BK)
}

/// Half-move clock after the move: reset by pawn moves and captures.
pub open spec fn after_halfmove(pos: Position, m: Move) -> u16 {
    if moved_type(pos, m) == PAWN || captures(pos, m) {
        0
    } else {
        (pos.halfmove + 1) as u16
    }
}

/// The six bitboards of colour `c` after the move.
pub open spec fn after_row(pos: Position, m: Move, c: int) -> [u64; 6] {
    if c == pos.side {
        [after_us(pos, m, 0), after_us(pos, m, 1), after_us(pos, m, 2), after_us(pos, m, 3), after_us(pos, m, 4), after_us(pos, m, 5)]
    } else {
        [after_them(pos, m, 0), after_them(pos, m, 1), after_them(pos, m, 2), after_them(pos, m, 3), after_them(pos, m, 4), after_them(pos, m, 5)]
    }
}

/// The position after `m`, before its hash is filled in.
pub open spec fn make_move_unhashed(pos: Position, m: Move) -> Position {
    let pieces = [after_row(pos, m, 0), after_row(pos, m, 1)];
    let occ = [union6(pieces[0]), union6(pieces[1])];
    Position {
        pieces,
        occ,
        all_occ: occ[0] | occ[1],
        side: (1 - pos.side) as usize,
        castling: after_castling(pos, m),
        ep_square: if m.flag == FLAG_DOUBLE {
            Some((if pos.side == WHITE { m.from + 8 } else { m.from - 8 }) as u8)
        } else {
            None
        },
        halfmove: after_halfmove(pos, m),
        fullmove: if pos.side == BLACK { (pos.fullmove + 1) as u16 } else { pos.fullmove },
        hash: 0,
    }
}

/// The position after `m`, hashed with key set `z`.
pub open spec fn make_move_spec(pos: Position, m: Move, z: &Zobrist) -> Position {
    let np = make_move_unhashed(pos, m);
    Position { hash: hash_spec(np, z), ..np }
}

/// Arguments on which `make_move` is defined: a piece on the origin, squares
/// on the board, counters that do not overflow, and an en-passant victim or
/// double-push target square on the board.
pub open spec fn make_ok(pos: Position, m: Move) -> bool {
    &&& pos.side < 2
    &&& m.from < 64
    &&& m.to < 64
    &&& piece_at_spec(pos, m.from as int) is Some
    &&& pos.halfmove < 65535
    &&& pos.side == BLACK ==> pos.fullmove < 65535
    &&& m.flag == FLAG_EP ==> (if pos.side == WHITE { m.to >= 8 } else { m.to < 56 })
    &&& (m.flag == FLAG_DOUBLE && pos.side == BLACK) ==> m.from >= 8
}

/// Removes the piece a move captures from the opponent's bitboards `row`.
fn remove_captured(pos: &Position, row: &mut [u64; 6], mv: &Move)
    requires
        make_ok(*pos, *mv),
        *old(row) == pos.pieces[1 - pos.side as int],
    ensures
        forall|q: int| 0 <= q < 6 ==> #[trigger] final(row)[q] == after_them(*pos, *mv, q),
{
    let us = pos.side;
    let them = 1 - us;
    let to_bit = 1u64 << mv.to;
    let ghost row0 = *row;
    if mv.flag == FLAG_EP {
        let cap_sq = if us == WHITE { mv.to - 8 } else { mv.to + 8 };
        row[PAWN] &= !(1u64 << cap_sq);
    } else if pos.occ[them] & to_bit != 0 {
        let mut p: usize = 0;
        while p < 6
            invariant_except_break
                mv.to < 64,
                to_bit == bit(mv.to as int),
                *row == row0,
                first_hit(row0, mv.to as int, 0) == first_hit(row0, mv.to as int, p as int),
            ensures
                forall|q: int| 0 <= q < 6 ==> #[trigger] row[q] == (if q == first_hit(row0, mv.to as int, 0) {
                    row0[q] & !bit(mv.to as int)
                } else {
                    row0[q]
                }),
            decreases 6 - p,
        {
            proof {
                lemma_and_bit(row[p as int], mv.to as int);
            }
            if row[p] & to_bit != 0 {
                row[p] &= !to_bit;
                break;
            }
            p += 1;
        }
    }
}

/// Moves the mover's piece (promoting it if asked) and, when castling, the rook.
fn move_own_pieces(pos: &Position, row: &mut [u64; 6], mv: &Move, moved_piece: usize)
    requires
        make_ok(*pos, *mv),
        *old(row) == pos.pieces[pos.side as int],
        moved_piece == moved_type(*pos, *mv),
        moved_piece < 6,
    ensures
        forall|q: int| 0 <= q < 6 ==> #[trigger] final(row)[q] == after_us(*pos, *mv, q),
{
    let from_bit = 1u64 << mv.from;
    let to_bit = 1u64 << mv.to;
    row[moved_piece] &= !from_bit;
    if mv.promo != PROMO_NONE {
        let promo_piece = if mv.promo == PROMO_N {
            KNIGHT
        } else if mv.promo == PROMO_B {
            BISHOP
        } else if mv.promo == PROMO_R {
            ROOK
        } else {
            QUEEN
        };
        row[promo_piece] |= to_bit;
    } else {
        row[moved_piece] |= to_bit;
    }
    if mv.flag == FLAG_CASTLE_K || mv.flag == FLAG_CASTLE_Q {
        let rank = rank_of(mv.from);
        let (rook_from, rook_to) = if mv.flag == FLAG_CASTLE_K {
            (sq(7, rank), sq(5, rank))
        } else {
            (sq(0, rank), sq(3, rank))
        };
        row[ROOK] &= !(1u64 << rook_from);
        row[ROOK] |= 1u64 << rook_to;
    }
}

/// Castling rights after the move.
fn castling_after(pos: &Position, mv: &Move, moved_piece: usize) -> (c: u8)
    requires
        pos.side < 2,
        moved_piece == moved_type(*pos, *mv),
    ensures
        c == after_castling(*pos, *mv),
{
    let us = pos.side;
    let mut castling = pos.castling;
    if moved_piece == KING {
        castling &= if us == WHITE { !(CASTLE_WK | CASTLE_WQ) } else { !(CASTLE_BK | CASTLE_BQ) };
    }
    if mv.from == 0 || mv.to == 0 {
        castling &= !CASTLE_WQ;
    }
    if mv.from == 7 || mv.to == 7 {
        castling &= !CASTLE_WK;
    }
    if mv.from == 56 || mv.to == 56 {
        castling &= !CASTLE_BQ;
    }
    if mv.from == 63 || mv.to == 63 {
        castling &= !CASTLE_BK;
    }
    castling
}

/// The position after playing `mv` (which must have a piece on its origin).
pub fn make_move(z: &Zobrist, pos: &Position, mv: &Move) -> (np: Position)
    requires
        make_ok(*pos, *mv),
    ensures
        np == make_move_spec(*pos, *mv, z),
{
    let us = pos.side;
    let them = 1 - us;
    let moved_piece = match pos.piece_at(mv.from) {
        Some((_, p)) => p,
        None => PAWN,
    };
    let to_bit = 1u64 << mv.to;

    let mut halfmove = pos.halfmove + 1;
    if moved_piece == PAWN {
        halfmove = 0;
    }
    // Remove any captured piece (en passant captures on a different square
    // than `to`)
    let mut them_row = pos.pieces[them];
    remove_captured(pos, &mut them_row, mv);
    if mv.flag == FLAG_EP || pos.occ[them] & to_bit != 0 {
        halfmove = 0;
    }
    let mut us_row = pos.pieces[us];
    move_own_pieces(pos, &mut us_row, mv, moved_piece);

    let ep_square = if mv.flag == FLAG_DOUBLE {
        Some(if us == WHITE { mv.from + 8 } else { mv.from - 8 })
    } else {
        None
    };
    // Castling rights: lost when the king moves, or when a rook moves from or
    // is captured on its home square.
    let castling = castling_after(pos, mv, moved_piece);
    let fullmove = if us == BLACK { pos.fullmove + 1 } else { pos.fullmove };
    let pieces = if us == WHITE { [us_row, them_row] } else { [them_row, us_row] };
    let mut np = Position {
        pieces,
        occ: [0u64; 2],
        all_occ: 0,
        side: them,
        castling,
        ep_square,
        halfmove,
        fullmove,
        hash: 0,
    };
    np.recompute_occ();
    let ghost target = make_move_unhashed(*pos, *mv);
    proof {
        assert(np.pieces[0] =~= target.pieces[0]);
        assert(np.pieces[1] =~= target.pieces[1]);
        assert(np.pieces =~= target.pieces);
        assert(np.occ =~= target.occ);
        assert(np == target);
    }
    np.hash = np.compute_hash(z);
    np
}

// ---------------------------------------------------------------------------
// Legal moves
// ---------------------------------------------------------------------------

/// The mover's king is not attacked after `m`.
pub open spec fn leaves_king_safe(pos: Position, m: Move, z: &Zobrist) -> bool {
    !in_check_spec(make_move_spec(pos, m, z), pos.side as int)
}

/// The moves of `ms` that do not leave the mover's king attacked, in order.
pub open spec fn legal_filter(pos: Position, z: &Zobrist, ms: Seq<Move>) -> Seq<Move>
    decreases ms.len(),
{
    if ms.len() == 0 {
        ms
    } else {
        let rest = legal_filter(pos, z, ms.drop_last());
        if leaves_king_safe(pos, ms.last(), z) {
            rest.push(ms.last())
        } else {
            rest
        }
    }
}

/// The legal moves of `pos`, in generation order.
pub open spec fn legal_moves(pos: Position, z: &Zobrist) -> Seq<Move> {
    legal_filter(pos, z, pseudo_moves(pos))
}

/// Positions on which legal move generation is defined: every pseudo-legal
/// move can be made and leaves the mover a king to test for check.
pub open spec fn legal_ok(pos: Position, z: &Zobrist) -> bool {
    &&& gen_ok(pos)
    &&& forall|i: int| 0 <= i < pseudo_moves(pos).len() ==> {
        &&& make_ok(pos, #[trigger] pseudo_moves(pos)[i])
        &&& make_move_spec(pos, pseudo_moves(pos)[i], z).pieces[pos.side as int][KING as int] != 0
    }
}

/// The legal moves: pseudo-legal moves that do not leave the mover's king
/// attacked.
pub fn gen_legal(t: &Tables, z: &Zobrist, pos: &Position) -> (moves: Vec<Move>)
    requires
        t.wf(),
        legal_ok(*pos, z),
    ensures
        moves@ == legal_moves(*pos, z),
{
    let us = pos.side;
    let pseudo = gen_pseudo_legal(t, pos);
    let mut moves: Vec<Move> = Vec::new();
    for i in 0..pseudo.len()
        invariant
            t.wf(),
            legal_ok(*pos, z),
            us == pos.side,
            pseudo@ == pseudo_moves(*pos),
            moves@ == legal_filter(*pos, z, pseudo@.take(i as int)),
    {
        let mv = pseudo[i];
        assert(make_ok(*pos, pseudo@[i as int]));
        let np = make_move(z, pos, &mv);
        assert(pseudo@.take(i + 1).drop_last() =~= pseudo@.take(i as int));
        if !in_check(t, &np, us) {
            moves.push(mv);
        }
    }
    assert(pseudo@.take(pseudo@.len() as int) =~= pseudo@);
    moves
}

/// Square named by a file byte and a rank byte (`b"e4"`), if on the board.
pub open spec fn square_of_bytes(b0: u8, b1: u8) -> Option<u8> {
    let file = b0.wrapping_sub(97);
    let rank = b1.wrapping_sub(49);
    if file > 7 || rank > 7 {
        None
    } else {
        Some((rank * 8 + file) as u8)
    }
}

pub fn parse_sq_bytes(b0: u8, b1: u8) -> (r: Option<u8>)
    ensures
        r == square_of_bytes(b0, b1),
        r matches Some(s) ==> s < 64,
{
    let file = b0.wrapping_sub(97u8);
    let rank = b1.wrapping_sub(49u8);
    if file > 7 || rank > 7 {
        return None;
    }
    Some(sq(file, rank))
}

/// Promotion requested by the fifth byte of a UCI move.
pub open spec fn uci_promo(bytes: Seq<u8>) -> u8 {
    if bytes.len() > 4 {
        if bytes[4] == 113 {
            PROMO_Q
        } else if bytes[4] == 114 {
            PROMO_R
        } else if bytes[4] == 98 {
            PROMO_B
        } else if bytes[4] == 110 {
            PROMO_N
        } else {
            PROMO_NONE
        }
    } else {
        PROMO_NONE
    }
}

/// The first move of `ms`, from index `i` on, with the given origin,
/// destination and promotion.
pub open spec fn find_move(ms: Seq<Move>, from: u8, to: u8, promo: u8, i: int) -> Option<Move>
    decreases ms.len() - i,
{
    if i < 0 || i >= ms.len() {
        None
    } else if ms[i].from == from && ms[i].to == to && ms[i].promo == promo {
        Some(ms[i])
    } else {
        find_move(ms, from, to, promo, i + 1)
    }
}

/// Whether the first four bytes of `bytes` name two squares.
pub open spec fn uci_squares_ok(bytes: Seq<u8>) -> bool {
    &&& bytes.len() >= 4
    &&& square_of_bytes(bytes[0], bytes[1]) is Some
    &&& square_of_bytes(bytes[2], bytes[3]) is Some
}

/// The legal move a UCI string (`"e2e4"`, `"e7e8q"`) names, if any.
pub open spec fn uci_move_spec(pos: Position, z: &Zobrist, bytes: Seq<u8>) -> Option<Move> {
    if !uci_squares_ok(bytes) {
        None
    } else {
        find_move(
            legal_moves(pos, z),
            square_of_bytes(bytes[0], bytes[1])->0,
            square_of_bytes(bytes[2], bytes[3])->0,
            uci_promo(bytes),
            0,
        )
    }
}

/// Parses a UCI move string (`"e2e4"`, `"e7e8q"`) against the legal moves
/// of `pos`, matching origin, destination and promotion (castling is given
/// as the king's own move).
pub fn parse_uci_move(t: &Tables, z: &Zobrist, pos: &Position, s: &str) -> (r: Option<Move>)
    requires
        t.wf(),
        s.spec_bytes().len() >= 4 ==> is_char_boundary(s.spec_bytes(), 2) && is_char_boundary(s.spec_bytes(), 4),
        uci_squares_ok(s.spec_bytes()) ==> legal_ok(*pos, z),
    ensures
        r == uci_move_spec(*pos, z, s.spec_bytes()),
        r matches Some(m) ==> legal_moves(*pos, z).contains(m),
{
    uci_move_of(t, z, pos, s.as_bytes())
}

/// The legal move the UCI text `b` names in `pos` (see `uci_move_spec`),
/// `None` also where legal moves cannot be generated for `pos`.
pub fn uci_move_of(t: &Tables, z: &Zobrist, pos: &Position, b: &[u8]) -> (r: Option<Move>)
    requires
        t.wf(),
    ensures
        r == (if legal_ok(*pos, z) {
            uci_move_spec(*pos, z, b@)
        } else {
            None
        }),
        r matches Some(m) ==> legal_ok(*pos, z) && legal_moves(*pos, z).contains(m),
{
    if b.len() < 4 {
        return None;
    }
    let from = match parse_sq_bytes(b[0], b[1]) {
        Some(x) => x,
        None => {
            return None;
        },
    };
    let to = match parse_sq_bytes(b[2], b[3]) {
        Some(x) => x,
        None => {
            return None;
        },
    };
    let promo = if b.len() > 4 {
        if b[4] == 113u8 {
            PROMO_Q
        } else if b[4] == 114u8 {
            PROMO_R
        } else if b[4] == 98u8 {
            PROMO_B
        } else if b[4] == 110u8 {
            PROMO_N
        } else {
            PROMO_NONE
        }
    } else {
        PROMO_NONE
    };
    let moves = match try_gen_legal(t, z, pos) {
        Some(ms) => ms,
        None => {
            return None;
        },
    };
    assert(uci_move_spec(*pos, z, b@) == find_move(moves@, from, to, promo, 0));
    let mut i: usize = 0;
    while i < moves.len()
        invariant
            legal_ok(*pos, z),
            uci_move_spec(*pos, z, b@) == find_move(moves@, from, to, promo, 0),
            moves@ == legal_moves(*pos, z),
            find_move(moves@, from, to, promo, 0) == find_move(moves@, from, to, promo, i as int),
        decreases moves.len() - i,
    {
        let m = moves[i];
        if m.from == from && m.to == to && m.promo == promo {
            assert(find_move(moves@, from, to, promo, i as int) == Some(moves@[i as int]));
            assert(moves@[i as int] == m);
            return Some(m);
        }
        i += 1;
    }
    None
}

fn make_ok_check(pos: &Position, m: &Move) -> (r: bool)
    requires
        pos.side < 2,
    ensures
        r == make_ok(*pos, *m),
{
    if m.from >= 64 || m.to >= 64 {
        return false;
    }
    if pos.piece_at(m.from).is_none() {
        return false;
    }
    if pos.halfmove >= 65535 {
        return false;
    }
    if pos.side == BLACK && pos.fullmove >= 65535 {
        return false;
    }
    if m.flag == FLAG_EP {
        if pos.side == WHITE && m.to < 8 {
            return false;
        }
        if pos.side != WHITE && m.to >= 56 {
            return false;
        }
    }
    if m.flag == FLAG_DOUBLE && pos.side == BLACK && m.from < 8 {
        return false;
    }
    true
}

/// Whether legal move generation is defined on `pos` (see `legal_ok`): a
/// check callers can make before generating moves.
pub fn can_generate_legal(t: &Tables, z: &Zobrist, pos: &Position) -> (r: bool)
    requires
        t.wf(),
    ensures
        r == legal_ok(*pos, z),
{
    if pos.side >= 2 {
        return false;
    }
    if let Some(e) = pos.ep_square {
        if e >= 64 {
            return false;
        }
    }
    if pos.pieces[pos.side][KING] == 0 {
        return false;
    }
    let pseudo = gen_pseudo_legal(t, pos);
    let mut i: usize = 0;
    while i < pseudo.len()
        invariant
            gen_ok(*pos),
            pseudo@ == pseudo_moves(*pos),
            forall|k: int| 0 <= k < i ==> {
                &&& make_ok(*pos, #[trigger] pseudo_moves(*pos)[k])
                &&& make_move_spec(*pos, pseudo_moves(*pos)[k], z).pieces[pos.side as int][KING as int] != 0
            },
        decreases pseudo.len() - i,
    {
        let m = pseudo[i];
        if !make_ok_check(pos, &m) {
            return false;
        }
        let np = make_move(z, pos, &m);
        if np.pieces[pos.side][KING] == 0 {
            return false;
        }
        i += 1;
    }
    true
}

/// The legal moves of `pos` when legal move generation is defined there
/// (`legal_ok`), else `None`: `gen_legal` for callers that cannot show
/// `legal_ok` beforehand.
pub fn try_gen_legal(t: &Tables, z: &Zobrist, pos: &Position) -> (r: Option<Vec<Move>>)
    requires
        t.wf(),
    ensures
        match r {
            Some(moves) => legal_ok(*pos, z) && moves@ == legal_moves(*pos, z),
            None => !legal_ok(*pos, z),
        },
{
    if pos.side >= 2 {
        return None;
    }
    if let Some(e) = pos.ep_square {
        if e >= 64 {
            return None;
        }
    }
    let us = pos.side;
    if pos.pieces[us][KING] == 0 {
        return None;
    }
    let pseudo = gen_pseudo_legal(t, pos);
    let mut moves: Vec<Move> = Vec::new();
    let mut i: usize = 0;
    while i < pseudo.len()
        invariant
            t.wf(),
            gen_ok(*pos),
            us == pos.side,
            i <= pseudo.len(),
            pseudo@ == pseudo_moves(*pos),
            forall|k: int| 0 <= k < i ==> {
                &&& make_ok(*pos, #[trigger] pseudo_moves(*pos)[k])
                &&& make_move_spec(*pos, pseudo_moves(*pos)[k], z).pieces[pos.side as int][KING as int] != 0
            },
            moves@ == legal_filter(*pos, z, pseudo@.take(i as int)),
        decreases pseudo.len() - i,
    {
        let mv = pseudo[i];
        if !make_ok_check(pos, &mv) {
            return None;
        }
        let np = make_move(z, pos, &mv);
        if np.pieces[us][KING] == 0 {
            return None;
        }
        assert(pseudo@.take(i + 1).drop_last() =~= pseudo@.take(i as int));
        if !in_check(t, &np, us) {
            moves.push(mv);
        }
        i += 1;
    }
    assert(pseudo@.take(pseudo@.len() as int) =~= pseudo@);
    Some(moves)
}

// ---------------------------------------------------------------------------
// Properties of the generated moves
// ---------------------------------------------------------------------------

proof fn lemma_filter_contains(pos: Position, z: &Zobrist, ms: Seq<Move>, m: Move)
    ensures
        legal_filter(pos, z, ms).contains(m) <==> (ms.contains(m) && leaves_king_safe(pos, m, z)),
    decreases ms.len(),
{
    if ms.len() > 0 {
        let init = ms.drop_last();
        lemma_filter_contains(pos, z, init, m);
        let rest = legal_filter(pos, z, init);
        assert(ms =~= init.push(ms.last()));
        if ms.contains(m) && m != ms.last() {
            let k = choose|k: int| 0 <= k < ms.len() && ms[k] == m;
            assert(init[k] == m);
        }
        if init.contains(m) {
            let k = choose|k: int| 0 <= k < init.len() && init[k] == m;
            assert(ms[k] == m);
        }
        if leaves_king_safe(pos, ms.last(), z) {
            assert(rest.push(ms.last())[rest.len() as int] == ms.last());
            if rest.contains(m) {
                let k = choose|k: int| 0 <= k < rest.len() && rest[k] == m;
                assert(rest.push(ms.last())[k] == m);
            }
            if rest.push(ms.last()).contains(m) && m != ms.last() {
                let k = choose|k: int| 0 <= k < rest.len() + 1 && rest.push(ms.last())[k] == m;
                assert(rest[k] == m);
            }
        }
        assert(ms[ms.len() - 1] == ms.last());
    }
}

/// A move is legal exactly when it is pseudo-legal and does not leave the
/// mover's king attacked.
pub proof fn lemma_legal_iff(pos: Position, z: &Zobrist, m: Move)
    ensures
        legal_moves(pos, z).contains(m) <==> (pseudo_moves(pos).contains(m) && leaves_king_safe(pos, m, z)),
{
    lemma_filter_contains(pos, z, pseudo_moves(pos), m);
}

/// Every move of `ms` promotes to nothing or to a knight, bishop, rook or
/// queen.
pub open spec fn promos_ok(ms: Seq<Move>) -> bool {
    forall|i: int| 0 <= i < ms.len() ==> (#[trigger] ms[i]).promo <= PROMO_Q
}

proof fn lemma_quiet_promos(from: int, tgt: u64)
    ensures
        promos_ok(quiet_moves(from, tgt)),
    decreases tgt,
{
    if tgt != 0 {
        lemma_lsb(tgt);
        lemma_quiet_promos(from, clear_lsb(tgt));
    }
}

proof fn lemma_capture_promos(from: int, tgt: u64, promo_rank: u64)
    ensures
        promos_ok(pawn_captures(from, tgt, promo_rank)),
    decreases tgt,
{
    if tgt != 0 {
        lemma_lsb(tgt);
        lemma_capture_promos(from, clear_lsb(tgt), promo_rank);
    }
}

proof fn lemma_pawn_section_promos(pos: Position, bb: u64)
    ensures
        promos_ok(pawn_section(pos, bb)),
    decreases bb,
{
    if bb != 0 {
        lemma_lsb(bb);
        lemma_pawn_section_promos(pos, clear_lsb(bb));
        let from = lsb(bb);
        let side = pos.side as int;
        lemma_capture_promos(from, pawn_bb(side, from) & pos.occ[1 - side], promo_rank(side));
    }
}

proof fn lemma_piece_section_promos(pos: Position, piece: int, bb: u64)
    ensures
        promos_ok(piece_section(pos, piece, bb)),
    decreases bb,
{
    if bb != 0 {
        lemma_lsb(bb);
        lemma_piece_section_promos(pos, piece, clear_lsb(bb));
        let from = lsb(bb);
        lemma_quiet_promos(from, piece_attacks(piece, from, pos.all_occ) & !pos.occ[pos.side as int]);
    }
}

/// Pseudo-legal moves promote to nothing or to a knight, bishop, rook or
/// queen.
pub proof fn lemma_pseudo_promos(pos: Position)
    ensures
        promos_ok(pseudo_moves(pos)),
{
    let us = pos.side as int;
    lemma_pawn_section_promos(pos, pos.pieces[us][PAWN as int]);
    lemma_piece_section_promos(pos, KNIGHT as int, pos.pieces[us][KNIGHT as int]);
    lemma_piece_section_promos(pos, BISHOP as int, pos.pieces[us][BISHOP as int]);
    lemma_piece_section_promos(pos, ROOK as int, pos.pieces[us][ROOK as int]);
    lemma_piece_section_promos(pos, QUEEN as int, pos.pieces[us][QUEEN as int]);
    let from = king_sq(pos, us);
    lemma_quiet_promos(from, king_bb(from) & !pos.occ[us]);
}

/// Every double pawn push of `ms` lands two ranks ahead of its origin, in
/// the direction side `side` pushes.
pub open spec fn doubles_ok(side: int, ms: Seq<Move>) -> bool {
    forall|i: int|
        0 <= i < ms.len() && (#[trigger] ms[i]).flag == FLAG_DOUBLE ==> ms[i].to == ms[i].from + 2 * push_dir(side)
}

proof fn lemma_quiet_doubles(side: int, from: int, tgt: u64)
    ensures
        doubles_ok(side, quiet_moves(from, tgt)),
    decreases tgt,
{
    if tgt != 0 {
        lemma_lsb(tgt);
        lemma_quiet_doubles(side, from, clear_lsb(tgt));
    }
}

proof fn lemma_capture_doubles(side: int, from: int, tgt: u64, promo_rank: u64)
    ensures
        doubles_ok(side, pawn_captures(from, tgt, promo_rank)),
    decreases tgt,
{
    if tgt != 0 {
        lemma_lsb(tgt);
        lemma_capture_doubles(side, from, clear_lsb(tgt), promo_rank);
    }
}

pub proof fn lemma_start_rank(k: u64)
    by (bit_vector)
    requires
        k < 64,
    ensures
        (1u64 << k) & 0x000000000000FF00u64 != 0 ==> 8 <= k < 16,
        (1u64 << k) & 0x00FF000000000000u64 != 0 ==> 48 <= k < 56,
{
}

proof fn lemma_pawn_pushes_doubles(pos: Position, from: int)
    requires
        pos.side < 2,
        0 <= from < 64,
    ensures
        doubles_ok(pos.side as int, pawn_pushes(pos, from)),
{
    let side = pos.side as int;
    lemma_start_rank(from as u64);
    let ms = pawn_pushes(pos, from);
    assert forall|i: int| 0 <= i < ms.len() && (#[trigger] ms[i]).flag == FLAG_DOUBLE implies ms[i].to == ms[i].from
        + 2 * push_dir(side) by {
        assert(bit(from) & start_rank(side) != 0);
    }
}

proof fn lemma_pawn_section_doubles(pos: Position, bb: u64)
    requires
        pos.side < 2,
    ensures
        doubles_ok(pos.side as int, pawn_section(pos, bb)),
    decreases bb,
{
    if bb != 0 {
        lemma_lsb(bb);
        lemma_pawn_section_doubles(pos, clear_lsb(bb));
        let from = lsb(bb);
        let side = pos.side as int;
        lemma_capture_doubles(side, from, pawn_bb(side, from) & pos.occ[1 - side], promo_rank(side));
        lemma_pawn_pushes_doubles(pos, from);
        let ms = pawn_section(pos, bb);
        let pm = pawn_moves_from(pos, from);
        assert(doubles_ok(side, pm));
    }
}

proof fn lemma_piece_section_doubles(pos: Position, piece: int, bb: u64)
    ensures
        doubles_ok(pos.side as int, piece_section(pos, piece, bb)),
    decreases bb,
{
    if bb != 0 {
        lemma_lsb(bb);
        lemma_piece_section_doubles(pos, piece, clear_lsb(bb));
        let from = lsb(bb);
        lemma_quiet_doubles(pos.side as int, from, piece_attacks(piece, from, pos.all_occ) & !pos.occ[pos.side as int]);
    }
}

/// Making a pseudo-legal move keeps the move counters and rights right:
/// castling rights never grow, the en-passant square is the square a double
/// push passed over (the midpoint of its origin and destination) and is
/// cleared by any other move, the side to move changes, and the full-move
/// number grows after Black's move.
pub proof fn lemma_make_move_rights(pos: Position, m: Move, z: &Zobrist)
    requires
        gen_ok(pos),
        pseudo_moves(pos).contains(m),
    ensures
        make_move_spec(pos, m, z).castling & !pos.castling == 0,
        make_move_spec(pos, m, z).ep_square == (if m.flag == FLAG_DOUBLE {
            Some(((m.from + m.to) / 2) as u8)
        } else {
            None::<u8>
        }),
        make_move_spec(pos, m, z).side == 1 - pos.side,
        pos.side == BLACK && pos.fullmove < 65535 ==> make_move_spec(pos, m, z).fullmove == pos.fullmove + 1,
        pos.side == WHITE ==> make_move_spec(pos, m, z).fullmove == pos.fullmove,
        make_move_spec(pos, m, z).halfmove == after_halfmove(pos, m),
{
    let us = pos.side as int;
    lemma_pawn_section_doubles(pos, pos.pieces[us][PAWN as int]);
    lemma_piece_section_doubles(pos, KNIGHT as int, pos.pieces[us][KNIGHT as int]);
    lemma_piece_section_doubles(pos, BISHOP as int, pos.pieces[us][BISHOP as int]);
    lemma_piece_section_doubles(pos, ROOK as int, pos.pieces[us][ROOK as int]);
    lemma_piece_section_doubles(pos, QUEEN as int, pos.pieces[us][QUEEN as int]);
    let from = king_sq(pos, us);
    lemma_quiet_doubles(us, from, king_bb(from) & !pos.occ[us]);
    assert(doubles_ok(us, pseudo_moves(pos)));
    let k = choose|k: int| 0 <= k < pseudo_moves(pos).len() && pseudo_moves(pos)[k] == m;
    assert(m.flag == FLAG_DOUBLE ==> m.to == m.from + 2 * push_dir(us));
    let c0 = pos.castling;
    let c1 = if moved_type(pos, m) == KING {
        c0 & (if pos.side == WHITE { !(CASTLE_WK | CASTLE_WQ) } else { !(CASTLE_BK | CASTLE_BQ) })
    } else {
        c0
    };
    lemma_rights_within(c0, c0, 0xffu8);
    lemma_rights_within(c0, c0, (if pos.side == WHITE { !(CASTLE_WK | CASTLE_WQ) } else { !(CASTLE_BK | CASTLE_BQ) }));
    let c2 = clear_if(c1, m.from == 0 || m.to == 0, CASTLE_WQ);
    lemma_rights_within(c1, c0, !CASTLE_WQ);
    let c3 = clear_if(c2, m.from == 7 || m.to == 7, CASTLE_WK);
    lemma_rights_within(c2, c0, !CASTLE_WK);
    let c4 = clear_if(c3, m.from == 56 || m.to == 56, CASTLE_BQ);
    lemma_rights_within(c3, c0, !CASTLE_BQ);
    lemma_rights_within(c4, c0, !CASTLE_BK);
}

proof fn lemma_rights_within(c: u8, c0: u8, y: u8)
    by (bit_vector)
    ensures
        c == c0 ==> c & !c0 == 0,
        c & !c0 == 0 ==> (c & y) & !c0 == 0,
{
}

proof fn lemma_find_move_matches(ms: Seq<Move>, from: u8, to: u8, promo: u8, i: int, j: int)
    requires
        0 <= i <= j < ms.len(),
        ms[j].from == from && ms[j].to == to && ms[j].promo == promo,
    ensures
        find_move(ms, from, to, promo, i) matches Some(r) && r.from == from && r.to == to && r.promo == promo,
    decreases j - i,
{
    if i < j && !(ms[i].from == from && ms[i].to == to && ms[i].promo == promo) {
        lemma_find_move_matches(ms, from, to, promo, i + 1, j);
    }
}

/// The UCI text of a legal move reads back as a legal move with the same
/// origin, destination and promotion.
#[verifier::rlimit(40)]
pub proof fn lemma_uci_roundtrip(pos: Position, z: &Zobrist, m: Move)
    requires
        legal_ok(pos, z),
        legal_moves(pos, z).contains(m),
    ensures
        uci_move_spec(pos, z, encode_utf8(uci_spec(m))) matches Some(r) && r.from == m.from && r.to == m.to
            && r.promo == m.promo,
{
    lemma_legal_iff(pos, z, m);
    lemma_pseudo_promos(pos);
    let ps = pseudo_moves(pos);
    let k = choose|k: int| 0 <= k < ps.len() && ps[k] == m;
    assert(m.promo <= PROMO_Q);
    assert(make_ok(pos, ps[k]));
    let c = uci_spec(m);
    assert(is_ascii_chars(c));
    is_ascii_chars_encode_utf8(c);
    let b = encode_utf8(c);
    assert(b[0].wrapping_sub(97) == m.from % 8);
    assert(b[1].wrapping_sub(49) == m.from / 8);
    assert(b[2].wrapping_sub(97) == m.to % 8);
    assert(b[3].wrapping_sub(49) == m.to / 8);
    assert(square_of_bytes(b[0], b[1]) == Some(m.from));
    assert(square_of_bytes(b[2], b[3]) == Some(m.to));
    assert(uci_promo(b) == m.promo);
    let lm = legal_moves(pos, z);
    let j = choose|j: int| 0 <= j < lm.len() && lm[j] == m;
    lemma_find_move_matches(lm, m.from, m.to, m.promo, 0, j);
}

/// Making a move keeps a position's summaries right: the occupancy fields
/// agree with the piece bitboards, the hash is the Zobrist hash of the new
/// position, and the other side is to move.
pub proof fn lemma_make_move_consistent(pos: Position, m: Move, z: &Zobrist)
    requires
        pos.side < 2,
    ensures
        occ_consistent(make_move_spec(pos, m, z)),
        make_move_spec(pos, m, z).hash == hash_spec(make_move_spec(pos, m, z), z),
        make_move_spec(pos, m, z).side == 1 - pos.side,
{
    let np = make_move_unhashed(pos, m);
    crate::board::lemma_hash_fields(np, make_move_spec(pos, m, z), z);
}

} // verus!
