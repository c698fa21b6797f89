//! FEN parsing and printing.
//!
//! A FEN is read as UTF-8 bytes. Fields are separated by runs of Unicode
//! white space; the board field holds eight ranks separated by `/`, from the
//! eighth rank down, with digits for runs of empty squares.
use vstd::prelude::*;
use vstd::string::StringSliceAdditionalSpecFns;
use crate::bits::{bit, lemma_u8_low_nibble};
use crate::board::{
    Position, Zobrist, hash_spec, union6, WHITE, BLACK, PAWN, KNIGHT, BISHOP, ROOK, QUEEN, KING,
    CASTLE_WK, CASTLE_WQ, CASTLE_BK, CASTLE_BQ, sq, piece_at_spec, sq_name_spec, push_sq_name, occ_consistent,
    lemma_hash_fields,
};
use crate::text::{decimal, push_char, push_decimal};
use crate::movegen::{square_of_bytes, parse_sq_bytes};

verus! {

// ---------------------------------------------------------------------------
// Tokens
// ---------------------------------------------------------------------------

/// Byte length of the white-space character starting at byte `i` of the
/// UTF-8 text `b`, or 0 when none starts there. White space is Unicode's
/// White_Space property: U+0009..U+000D, U+0020, U+0085, U+00A0, U+1680,
/// U+2000..U+200A, U+2028, U+2029, U+202F, U+205F and U+3000.
pub open spec fn ws_len(b: Seq<u8>, i: int) -> int {
    let n = b.len();
    let c0 = b[i];
    if (9 <= c0 <= 13) || c0 == 32 {
        1
    } else if c0 == 0xC2 && i + 1 < n && (b[i + 1] == 0x85 || b[i + 1] == 0xA0) {
        2
    } else if c0 == 0xE1 && i + 2 < n && b[i + 1] == 0x9A && b[i + 2] == 0x80 {
        3
    } else if c0 == 0xE2 && i + 2 < n && b[i + 1] == 0x80 && ((0x80 <= b[i + 2] <= 0x8A) || b[i + 2]
        == 0xA8 || b[i + 2] == 0xA9 || b[i + 2] == 0xAF) {
        3
    } else if c0 == 0xE2 && i + 2 < n && b[i + 1] == 0x81 && b[i + 2] == 0x9F {
        3
    } else if c0 == 0xE3 && i + 2 < n && b[i + 1] == 0x80 && b[i + 2] == 0x80 {
        3
    } else {
        0
    }
}

fn ws_len_exec(b: &[u8], i: usize) -> (r: usize)
    requires
        i < b@.len(),
    ensures
        r == ws_len(b@, i as int),
{
    let n = b.len();
    let c0 = b[i];
    if (9 <= c0 && c0 <= 13) || c0 == 32 {
        1
    } else if c0 == 0xC2 && n - i > 1 && (b[i + 1] == 0x85 || b[i + 1] == 0xA0) {
        2
    } else if c0 == 0xE1 && n - i > 2 && b[i + 1] == 0x9A && b[i + 2] == 0x80 {
        3
    } else if c0 == 0xE2 && n - i > 2 && b[i + 1] == 0x80 && ((0x80 <= b[i + 2] && b[i + 2] <= 0x8A)
        || b[i + 2] == 0xA8 || b[i + 2] == 0xA9 || b[i + 2] == 0xAF) {
        3
    } else if c0 == 0xE2 && n - i > 2 && b[i + 1] == 0x81 && b[i + 2] == 0x9F {
        3
    } else if c0 == 0xE3 && n - i > 2 && b[i + 1] == 0x80 && b[i + 2] == 0x80 {
        3
    } else {
        0
    }
}

/// Byte ranges of the white-space separated tokens of `b` from byte `i` on;
/// `st` is the start of the token being read, or -1.
pub open spec fn tok_scan(b: Seq<u8>, i: int, st: int) -> Seq<(usize, usize)>
    decreases b.len() - i,
{
    if i >= b.len() || i < 0 {
        if st >= 0 {
            seq![(st as usize, b.len() as usize)]
        } else {
            Seq::empty()
        }
    } else if ws_len(b, i) > 0 {
        (if st >= 0 {
            seq![(st as usize, i as usize)]
        } else {
            Seq::empty()
        }) + tok_scan(b, i + ws_len(b, i), -1)
    } else {
        tok_scan(b, i + 1, if st >= 0 { st } else { i })
    }
}

/// Byte ranges of the white-space separated tokens of `b`.
pub open spec fn ws_tokens(b: Seq<u8>) -> Seq<(usize, usize)> {
    tok_scan(b, 0, -1)
}

pub(crate) fn split_ws(b: &[u8]) -> (out: Vec<(usize, usize)>)
    ensures
        out@ == ws_tokens(b@),
        forall|k: int| 0 <= k < out@.len() ==> {
            let t = #[trigger] out@[k];
            t.0 < t.1 <= b@.len()
        },
{
    let n = b.len();
    proof {
        lemma_tok_scan_bounds(b@, 0, -1);
    }
    let mut out: Vec<(usize, usize)> = Vec::new();
    let mut i: usize = 0;
    let mut st: usize = 0;
    let mut in_tok = false;
    while i < n
        invariant
            n == b@.len(),
            i <= n,
            in_tok ==> st < i,
            out@ + tok_scan(b@, i as int, if in_tok { st as int } else { -1 }) == ws_tokens(b@),
        decreases n - i,
    {
        let ghost (pi, pin, pst, pout) = (i, in_tok, st, out@);
        let w = ws_len_exec(b, i);
        if w > 0 {
            if in_tok {
                out.push((st, i));
            }
            in_tok = false;
            i = i + w;
        } else {
            if !in_tok {
                st = i;
                in_tok = true;
            }
            i = i + 1;
        }
        assert(out@ + tok_scan(b@, i as int, if in_tok { st as int } else { -1 }) =~= pout + tok_scan(
            b@,
            pi as int,
            if pin { pst as int } else { -1 },
        ));
    }
    let ghost pout = out@;
    if in_tok {
        out.push((st, n));
    }
    assert(out@ =~= pout + tok_scan(b@, i as int, if in_tok { st as int } else { -1 }));
    out
}

/// Byte ranges of the `/`-separated pieces of `b[i..end]` (empty pieces
/// included); `st` is the start of the current piece.
pub open spec fn slash_scan(b: Seq<u8>, i: int, end: int, st: int) -> Seq<(usize, usize)>
    decreases end - i,
{
    if i >= end {
        seq![(st as usize, end as usize)]
    } else if b[i] == 47 {
        seq![(st as usize, i as usize)] + slash_scan(b, i + 1, end, i + 1)
    } else {
        slash_scan(b, i + 1, end, st)
    }
}

fn split_slash(b: &[u8], start: usize, end: usize) -> (out: Vec<(usize, usize)>)
    requires
        start <= end <= b@.len(),
    ensures
        out@ == slash_scan(b@, start as int, end as int, start as int),
{
    let mut out: Vec<(usize, usize)> = Vec::new();
    let mut i = start;
    let mut st = start;
    while i < end
        invariant
            start <= i <= end <= b@.len(),
            st <= i,
            out@ + slash_scan(b@, i as int, end as int, st as int) == slash_scan(b@, start as int, end as int, start as int),
        decreases end - i,
    {
        let ghost (pi, pst, pout) = (i, st, out@);
        if b[i] == 47 {
            out.push((st, i));
            st = i + 1;
        }
        i = i + 1;
        assert(out@ + slash_scan(b@, i as int, end as int, st as int) =~= pout + slash_scan(
            b@,
            pi as int,
            end as int,
            pst as int,
        ));
    }
    let ghost pout = out@;
    out.push((st, end));
    assert(out@ =~= pout + slash_scan(b@, i as int, end as int, st as int));
    out
}

// ---------------------------------------------------------------------------
// Board field
// ---------------------------------------------------------------------------

/// Colour and type a FEN piece letter stands for.
pub open spec fn piece_of_byte(c: u8) -> Option<(usize, usize)> {
    if c == 80 {
        Some((WHITE, PAWN))
    } else if c == 78 {
        Some((WHITE, KNIGHT))
    } else if c == 66 {
        Some((WHITE, BISHOP))
    } else if c == 82 {
        Some((WHITE, ROOK))
    } else if c == 81 {
        Some((WHITE, QUEEN))
    } else if c == 75 {
        Some((WHITE, KING))
    } else if c == 112 {
        Some((BLACK, PAWN))
    } else if c == 110 {
        Some((BLACK, KNIGHT))
    } else if c == 98 {
        Some((BLACK, BISHOP))
    } else if c == 114 {
        Some((BLACK, ROOK))
    } else if c == 113 {
        Some((BLACK, QUEEN))
    } else if c == 107 {
        Some((BLACK, KING))
    } else {
        None
    }
}

fn piece_of_byte_exec(c: u8) -> (r: Option<(usize, usize)>)
    ensures
        r == piece_of_byte(c),
{
    if c == 80 {
        Some((WHITE, PAWN))
    } else if c == 78 {
        Some((WHITE, KNIGHT))
    } else if c == 66 {
        Some((WHITE, BISHOP))
    } else if c == 82 {
        Some((WHITE, ROOK))
    } else if c == 81 {
        Some((WHITE, QUEEN))
    } else if c == 75 {
        Some((WHITE, KING))
    } else if c == 112 {
        Some((BLACK, PAWN))
    } else if c == 110 {
        Some((BLACK, KNIGHT))
    } else if c == 98 {
        Some((BLACK, BISHOP))
    } else if c == 114 {
        Some((BLACK, ROOK))
    } else if c == 113 {
        Some((BLACK, QUEEN))
    } else if c == 107 {
        Some((BLACK, KING))
    } else {
        None
    }
}

/// `row` with square `s` added to the bitboard of piece type `p`.
pub open spec fn row_with(row: [u64; 6], p: int, s: int) -> [u64; 6] {
    [
        if p == 0 { row[0] | bit(s) } else { row[0] },
        if p == 1 { row[1] | bit(s) } else { row[1] },
        if p == 2 { row[2] | bit(s) } else { row[2] },
        if p == 3 { row[3] | bit(s) } else { row[3] },
        if p == 4 { row[4] | bit(s) } else { row[4] },
        if p == 5 { row[5] | bit(s) } else { row[5] },
    ]
}

/// `pieces` with a piece of colour `c` and type `p` added on `s`.
pub open spec fn pieces_with(pieces: [[u64; 6]; 2], c: int, p: int, s: int) -> [[u64; 6]; 2] {
    if c == 0 {
        [row_with(pieces[0], p, s), pieces[1]]
    } else {
        [pieces[0], row_with(pieces[1], p, s)]
    }
}

/// The empty board.
pub open spec fn no_pieces() -> [[u64; 6]; 2] {
    [[0u64, 0u64, 0u64, 0u64, 0u64, 0u64], [0u64, 0u64, 0u64, 0u64, 0u64, 0u64]]
}

/// Outcome of reading the board field: the piece bitboards, an invalid
/// character, or a square index or file count outside what the reader's
/// 8-bit arithmetic and 64-bit shifts allow.
pub enum BoardScan {
    Done([[u64; 6]; 2]),
    Invalid,
    Overflow,
}

/// Reads the rank text `b[j..end]` for rank `rank`, with `file` squares of
/// the rank already read.
pub open spec fn rank_scan(b: Seq<u8>, j: int, end: int, rank: int, file: int, pieces: [[u64; 6]; 2]) -> BoardScan
    decreases end - j,
{
    if j >= end {
        BoardScan::Done(pieces)
    } else if 48 <= b[j] <= 57 {
        if file + (b[j] - 48) > 255 {
            BoardScan::Overflow
        } else {
            rank_scan(b, j + 1, end, rank, file + (b[j] - 48), pieces)
        }
    } else {
        match piece_of_byte(b[j]) {
            None => BoardScan::Invalid,
            Some((c, p)) => if rank * 8 + file >= 64 {
                BoardScan::Overflow
            } else {
                rank_scan(b, j + 1, end, rank, file + 1, pieces_with(pieces, c as int, p as int, rank * 8 + file))
            },
        }
    }
}

/// Reads the ranks `i..8` of the board field (rank text `i` is rank `7 - i`).
pub open spec fn board_scan(b: Seq<u8>, ranks: Seq<(usize, usize)>, i: int, pieces: [[u64; 6]; 2]) -> BoardScan
    decreases 8 - i,
{
    if i >= 8 || i < 0 {
        BoardScan::Done(pieces)
    } else {
        match rank_scan(b, ranks[i].0 as int, ranks[i].1 as int, 7 - i, 0, pieces) {
            BoardScan::Done(p2) => board_scan(b, ranks, i + 1, p2),
            other => other,
        }
    }
}

// ---------------------------------------------------------------------------
// Other fields
// ---------------------------------------------------------------------------

/// Whether token `t` of `b` is the single byte `c`.
pub open spec fn token_is(b: Seq<u8>, t: (usize, usize), c: u8) -> bool {
    t.1 == t.0 + 1 && b[t.0 as int] == c
}

/// Castling rights named by the bytes `b[j..end]` (`K`, `Q`, `k`, `q`;
/// other bytes are ignored), added to `acc`.
pub open spec fn castle_scan(b: Seq<u8>, j: int, end: int, acc: u8) -> u8
    decreases end - j,
{
    if j >= end {
        acc
    } else {
        let c = b[j];
        let acc2 = if c == 75 {
            acc | CASTLE_WK
        } else if c == 81 {
            acc | CASTLE_WQ
        } else if c == 107 {
            acc | CASTLE_BK
        } else if c == 113 {
            acc | CASTLE_BQ
        } else {
            acc
        };
        castle_scan(b, j + 1, end, acc2)
    }
}

/// Value of a string of ASCII decimal digits.
pub open spec fn digits_value(d: Seq<u8>) -> int
    decreases d.len(),
{
    if d.len() == 0 {
        0
    } else {
        digits_value(d.drop_last()) * 10 + (d.last() - 48)
    }
}

pub open spec fn all_digits(d: Seq<u8>) -> bool {
    forall|i: int| 0 <= i < d.len() ==> 48 <= #[trigger] d[i] <= 57
}

/// `u16` parsing as `str::parse` does it: an optional `+`, then at least one
/// ASCII digit, with a value that fits.
pub open spec fn parse_u16_spec(t: Seq<u8>) -> Option<u16> {
    let d = if t.len() >= 1 && t[0] == 43 { t.subrange(1, t.len() as int) } else { t };
    if d.len() >= 1 && all_digits(d) && digits_value(d) <= 65535 {
        Some(digits_value(d) as u16)
    } else {
        None
    }
}

pub(crate) proof fn lemma_digits_value_grows(d: Seq<u8>, k: int)
    requires
        0 <= k <= d.len(),
        all_digits(d),
    ensures
        0 <= digits_value(d.subrange(0, k)) <= digits_value(d),
    decreases d.len() - k,
{
    if k < d.len() {
        lemma_digits_value_grows(d, k + 1);
        assert(d.subrange(0, k + 1).drop_last() =~= d.subrange(0, k));
        assert(48 <= d[k] <= 57);
    } else {
        assert(d.subrange(0, k) =~= d);
    }
    lemma_digits_value_nonneg(d.subrange(0, k));
}

proof fn lemma_digits_value_nonneg(d: Seq<u8>)
    requires
        all_digits(d),
    ensures
        digits_value(d) >= 0,
    decreases d.len(),
{
    if d.len() > 0 {
        assert(all_digits(d.drop_last()));
        lemma_digits_value_nonneg(d.drop_last());
        assert(48 <= d[d.len() - 1] <= 57);
    }
}

fn parse_u16(b: &[u8], start: usize, end: usize) -> (r: Option<u16>)
    requires
        start <= end <= b@.len(),
    ensures
        r == parse_u16_spec(b@.subrange(start as int, end as int)),
{
    let ghost t = b@.subrange(start as int, end as int);
    let mut i = start;
    if i < end && b[i] == 43 {
        i = i + 1;
    }
    let ghost d = if t.len() >= 1 && t[0] == 43 { t.subrange(1, t.len() as int) } else { t };
    assert(d =~= b@.subrange(i as int, end as int));
    if i >= end {
        return None;
    }
    let first = i;
    let mut v: u32 = 0;
    while i < end
        invariant
            first <= i <= end <= b@.len(),
            d =~= b@.subrange(first as int, end as int),
            parse_u16_spec(b@.subrange(start as int, end as int)) == (if d.len() >= 1 && all_digits(d)
                && digits_value(d) <= 65535 {
                Some(digits_value(d) as u16)
            } else {
                None
            }),
            v <= 65535,
            all_digits(b@.subrange(first as int, i as int)),
            v == digits_value(b@.subrange(first as int, i as int)),
        decreases end - i,
    {
        let c = b[i];
        if c < 48 || c > 57 {
            assert(d[i - first] == c);
            return None;
        }
        assert(b@.subrange(first as int, i + 1).drop_last() =~= b@.subrange(first as int, i as int));
        assert(all_digits(b@.subrange(first as int, i + 1)));
        let nv = v * 10 + (c - 48) as u32;
        if nv > 65535 {
            proof {
                if all_digits(d) {
                    lemma_digits_value_grows(d, i + 1 - first);
                    assert(d.subrange(0, i + 1 - first) =~= b@.subrange(first as int, i + 1));
                }
            }
            return None;
        }
        v = nv;
        i = i + 1;
    }
    assert(b@.subrange(first as int, i as int) =~= d);
    Some(v as u16)
}

/// Reads the board field, the side, castling, en-passant, half-move and
/// full-move fields. `None` when there are fewer than four fields, the
/// board does not have eight ranks, or it holds a character that is neither
/// a digit nor a piece letter. The side is white exactly when the second
/// field is `w`; missing or unreadable counters default to 0 and 1.
pub open spec fn fen_fields(b: Seq<u8>) -> Option<Position> {
    let parts = ws_tokens(b);
    if parts.len() < 4 {
        None
    } else {
        let ranks = slash_scan(b, parts[0].0 as int, parts[0].1 as int, parts[0].0 as int);
        if ranks.len() != 8 {
            None
        } else {
            match board_scan(b, ranks, 0, no_pieces()) {
                BoardScan::Done(pieces) => {
                    let side = if token_is(b, parts[1], 119) { WHITE } else { BLACK };
                    let castling = if token_is(b, parts[2], 45) {
                        0u8
                    } else {
                        castle_scan(b, parts[2].0 as int, parts[2].1 as int, 0)
                    };
                    let ep_square = if token_is(b, parts[3], 45) {
                        None
                    } else if parts[3].1 - parts[3].0 < 2 {
                        None
                    } else {
                        square_of_bytes(b[parts[3].0 as int], b[parts[3].0 + 1])
                    };
                    let halfmove = if parts.len() > 4 {
                        match parse_u16_spec(b.subrange(parts[4].0 as int, parts[4].1 as int)) {
                            Some(v) => v,
                            None => 0,
                        }
                    } else {
                        0
                    };
                    let fullmove = if parts.len() > 5 {
                        match parse_u16_spec(b.subrange(parts[5].0 as int, parts[5].1 as int)) {
                            Some(v) => v,
                            None => 1,
                        }
                    } else {
                        1
                    };
                    let occ = [union6(pieces[0]), union6(pieces[1])];
                    Some(
                        Position {
                            pieces,
                            occ,
                            all_occ: occ[0] | occ[1],
                            side,
                            castling,
                            ep_square,
                            halfmove,
                            fullmove,
                            hash: 0,
                        },
                    )
                },
                _ => None,
            }
        }
    }
}

/// The position a FEN describes, hashed with key set `z`.
pub open spec fn fen_spec(b: Seq<u8>, z: &Zobrist) -> Option<Position> {
    match fen_fields(b) {
        Some(p) => Some(Position { hash: hash_spec(p, z), ..p }),
        None => None,
    }
}

/// The FEN reader's arithmetic stays in range: no piece is placed past
/// square 63 and no run of empty squares pushes the file count past 255.
pub open spec fn fen_in_range(b: Seq<u8>) -> bool {
    let parts = ws_tokens(b);
    parts.len() >= 4 ==> {
        let ranks = slash_scan(b, parts[0].0 as int, parts[0].1 as int, parts[0].0 as int);
        ranks.len() == 8 ==> !(board_scan(b, ranks, 0, no_pieces()) is Overflow)
    }
}

proof fn lemma_tok_scan_bounds(b: Seq<u8>, i: int, st: int)
    requires
        0 <= i <= b.len() <= usize::MAX,
        st >= 0 ==> st < i,
    ensures
        forall|k: int| 0 <= k < tok_scan(b, i, st).len() ==> {
            let t = #[trigger] tok_scan(b, i, st)[k];
            t.0 < t.1 <= b.len()
        },
    decreases b.len() - i,
{
    if i < b.len() {
        if ws_len(b, i) > 0 {
            lemma_tok_scan_bounds(b, i + ws_len(b, i), -1);
            let head = if st >= 0 { seq![(st as usize, i as usize)] } else { Seq::<(usize, usize)>::empty() };
            assert forall|k: int| 0 <= k < tok_scan(b, i, st).len() implies {
                let t = #[trigger] tok_scan(b, i, st)[k];
                t.0 < t.1 <= b.len()
            } by {
                assert(tok_scan(b, i, st) == head + tok_scan(b, i + ws_len(b, i), -1));
                if k >= head.len() {
                    assert(tok_scan(b, i, st)[k] == tok_scan(b, i + ws_len(b, i), -1)[k - head.len()]);
                } else {
                    assert(tok_scan(b, i, st)[k] == head[k]);
                }
            }
        } else {
            lemma_tok_scan_bounds(b, i + 1, if st >= 0 { st } else { i });
            assert(tok_scan(b, i, st) == tok_scan(b, i + 1, if st >= 0 { st } else { i }));
        }
    }
}

proof fn lemma_slash_scan_bounds(b: Seq<u8>, i: int, end: int, st: int, lo: int)
    requires
        0 <= lo <= st <= i <= end <= b.len() <= usize::MAX,
    ensures
        forall|k: int| 0 <= k < slash_scan(b, i, end, st).len() ==> {
            let t = #[trigger] slash_scan(b, i, end, st)[k];
            lo <= t.0 <= t.1 <= end
        },
    decreases end - i,
{
    if i < end {
        if b[i] == 47 {
            lemma_slash_scan_bounds(b, i + 1, end, i + 1, lo);
            assert forall|k: int| 0 <= k < slash_scan(b, i, end, st).len() implies {
                let t = #[trigger] slash_scan(b, i, end, st)[k];
                lo <= t.0 <= t.1 <= end
            } by {
                assert(slash_scan(b, i, end, st) == seq![(st as usize, i as usize)] + slash_scan(b, i + 1, end, i + 1));
                if k >= 1 {
                    assert(slash_scan(b, i, end, st)[k] == slash_scan(b, i + 1, end, i + 1)[k - 1]);
                }
            }
        } else {
            lemma_slash_scan_bounds(b, i + 1, end, st, lo);
            assert(slash_scan(b, i, end, st) == slash_scan(b, i + 1, end, st));
        }
    }
}

/// Reads the eight rank texts `ranks` of the board field of `b` (see
/// `board_scan`).
fn scan_board(b: &[u8], ranks: &Vec<(usize, usize)>) -> (r: BoardScan)
    requires
        ranks.len() == 8,
        forall|k: int| 0 <= k < ranks@.len() ==> {
            let t = #[trigger] ranks@[k];
            t.0 <= t.1 <= b@.len()
        },
    ensures
        r == board_scan(b@, ranks@, 0, no_pieces()),
{
    let n = b.len();
    let mut pieces = [[0u64; 6]; 2];
    assert(pieces[0] =~= no_pieces()[0]);
    assert(pieces[1] =~= no_pieces()[1]);
    assert(pieces =~= no_pieces());
    let mut i: usize = 0;
    while i < 8
        invariant
            n == b@.len(),
            ranks.len() == 8,
            forall|k: int| 0 <= k < ranks@.len() ==> {
                let t = #[trigger] ranks@[k];
                t.0 <= t.1 <= n
            },
            i <= 8,
            board_scan(b@, ranks@, 0, no_pieces()) == board_scan(b@, ranks@, i as int, pieces),
        decreases 8 - i,
    {
        let rank = (7 - i) as u8;
        let (rs, re) = ranks[i];
        let ghost pieces_i = pieces;
        let mut file: u8 = 0;
        let mut j = rs;
        assert(ranks@[i as int] == (rs, re));
        while j < re
            invariant
                n == b@.len(),
                rs <= j <= re <= n,
                i < 8,
                rank == 7 - i,
                ranks@[i as int] == (rs, re),
                ranks.len() == 8,
                board_scan(b@, ranks@, 0, no_pieces()) == board_scan(b@, ranks@, i as int, pieces_i),
                rank_scan(b@, rs as int, re as int, rank as int, 0, pieces_i) == rank_scan(
                    b@,
                    j as int,
                    re as int,
                    rank as int,
                    file as int,
                    pieces,
                ),
            decreases re - j,
        {
            let ch = b[j];
            if 48 <= ch && ch <= 57 {
                let d = ch - 48;
                if file as u32 + d as u32 > 255 {
                    assert(board_scan(b@, ranks@, i as int, pieces_i) is Overflow);
                    return BoardScan::Overflow;
                }
                file += d;
            } else {
                let (color, ptype) = match piece_of_byte_exec(ch) {
                    Some(cp) => cp,
                    None => {
                        assert(board_scan(b@, ranks@, i as int, pieces_i) is Invalid);
                        return BoardScan::Invalid;
                    },
                };
                if rank as u32 * 8 + file as u32 >= 64 {
                    assert(board_scan(b@, ranks@, i as int, pieces_i) is Overflow);
                    return BoardScan::Overflow;
                }
                let s = sq(file, rank);
                let ghost before = pieces;
                pieces[color][ptype] |= 1u64 << s;
                proof {
                    assert(pieces[0] =~= pieces_with(before, color as int, ptype as int, s as int)[0]);
                    assert(pieces[1] =~= pieces_with(before, color as int, ptype as int, s as int)[1]);
                    assert(pieces =~= pieces_with(before, color as int, ptype as int, s as int));
                }
                file += 1;
            }
            j += 1;
        }
        i += 1;
    }
    BoardScan::Done(pieces)
}

/// Whether `Position::from_fen` accepts `fen` as input (`fen_in_range`): a
/// check callers can make before reading a FEN.
pub fn fen_readable(fen: &str) -> (r: bool)
    ensures
        r == fen_in_range(fen.spec_bytes()),
{
    fen_bytes_readable(fen.as_bytes())
}

/// `fen_readable` on the bytes of a FEN.
pub fn fen_bytes_readable(b: &[u8]) -> (r: bool)
    ensures
        r == fen_in_range(b@),
{
    let n = b.len();
    let parts = split_ws(b);
    proof {
        lemma_tok_scan_bounds(b@, 0, -1);
    }
    if parts.len() < 4 {
        return true;
    }
    let (s0, e0) = parts[0];
    let ranks = split_slash(b, s0, e0);
    proof {
        lemma_slash_scan_bounds(b@, s0 as int, e0 as int, s0 as int, s0 as int);
    }
    if ranks.len() != 8 {
        return true;
    }
    match scan_board(b, &ranks) {
        BoardScan::Overflow => false,
        _ => true,
    }
}

impl Position {
    /// Parses a FEN. `None` when there are fewer than four fields, the board
    /// does not have eight ranks, or it holds a character that is neither a
    /// digit nor a piece letter.
    pub fn from_fen(fen: &str, z: &Zobrist) -> (r: Option<Self>)
        requires
            fen_in_range(fen.spec_bytes()),
        ensures
            r == fen_spec(fen.spec_bytes(), z),
    {
        Self::from_fen_bytes(fen.as_bytes(), z)
    }

    /// `from_fen` on the bytes of a FEN.
    pub fn from_fen_bytes(b: &[u8], z: &Zobrist) -> (r: Option<Self>)
        requires
            fen_in_range(b@),
        ensures
            r == fen_spec(b@, z),
    {
        let n = b.len();
        let parts = split_ws(b);
        proof {
            lemma_tok_scan_bounds(b@, 0, -1);
        }
        if parts.len() < 4 {
            return None;
        }
        let (s0, e0) = parts[0];
        let ranks = split_slash(b, s0, e0);
        proof {
            lemma_slash_scan_bounds(b@, s0 as int, e0 as int, s0 as int, s0 as int);
        }
        if ranks.len() != 8 {
            return None;
        }
        let pieces = match scan_board(b, &ranks) {
            BoardScan::Done(p) => p,
            BoardScan::Invalid => {
                return None;
            },
            BoardScan::Overflow => {
                assert(false);
                return None;
            },
        };
        let (s1, e1) = parts[1];
        let side = if e1 == s1 + 1 && b[s1] == 119 { WHITE } else { BLACK };
        let (s2, e2) = parts[2];
        let mut castling = 0u8;
        if !(e2 == s2 + 1 && b[s2] == 45) {
            let mut j = s2;
            while j < e2
                invariant
                    s2 <= j <= e2 <= n,
                    n == b@.len(),
                    castle_scan(b@, s2 as int, e2 as int, 0) == castle_scan(b@, j as int, e2 as int, castling),
                decreases e2 - j,
            {
                let ch = b[j];
                if ch == 75 {
                    castling |= CASTLE_WK;
                } else if ch == 81 {
                    castling |= CASTLE_WQ;
                } else if ch == 107 {
                    castling |= CASTLE_BK;
                } else if ch == 113 {
                    castling |= CASTLE_BQ;
                }
                j += 1;
            }
        }
        let (s3, e3) = parts[3];
        let ep_square = if e3 == s3 + 1 && b[s3] == 45 {
            None
        } else if e3 - s3 < 2 {
            None
        } else {
            parse_sq_bytes(b[s3], b[s3 + 1])
        };
        let halfmove = if parts.len() > 4 {
            let (s4, e4) = parts[4];
            match parse_u16(b, s4, e4) {
                Some(v) => v,
                None => 0,
            }
        } else {
            0
        };
        let fullmove = if parts.len() > 5 {
            let (s5, e5) = parts[5];
            match parse_u16(b, s5, e5) {
                Some(v) => v,
                None => 1,
            }
        } else {
            1
        };
        let mut pos = Position {
            pieces,
            occ: [0u64; 2],
            all_occ: 0,
            side,
            castling,
            ep_square,
            halfmove,
            fullmove,
            hash: 0,
        };
        pos.recompute_occ();
        proof {
            let target = fen_fields(b@)->0;
            assert(pos.occ =~= target.occ);
            assert(pos == target);
        }
        pos.hash = pos.compute_hash(z);
        Some(pos)
    }
}

// ---------------------------------------------------------------------------
// Printing
// ---------------------------------------------------------------------------

/// FEN letter of a piece: upper case for white, `?` for an unknown type.
pub open spec fn piece_letter(color: int, ptype: int) -> char {
    if color == WHITE {
        if ptype == PAWN { 'P' } else if ptype == KNIGHT { 'N' } else if ptype == BISHOP { 'B' } else if ptype
            == ROOK { 'R' } else if ptype == QUEEN { 'Q' } else if ptype == KING { 'K' } else { '?' }
    } else {
        if ptype == PAWN { 'p' } else if ptype == KNIGHT { 'n' } else if ptype == BISHOP { 'b' } else if ptype
            == ROOK { 'r' } else if ptype == QUEEN { 'q' } else if ptype == KING { 'k' } else { '?' }
    }
}

fn piece_char(color: usize, ptype: usize) -> (c: char)
    ensures
        c == piece_letter(color as int, ptype as int),
{
    let c = match ptype {
        PAWN => 'p',
        KNIGHT => 'n',
        BISHOP => 'b',
        ROOK => 'r',
        QUEEN => 'q',
        KING => 'k',
        _ => '?',
    };
    if color == WHITE {
        match c {
            'p' => 'P',
            'n' => 'N',
            'b' => 'B',
            'r' => 'R',
            'q' => 'Q',
            'k' => 'K',
            other => other,
        }
    } else {
        c
    }
}

/// The empty-square count `empty` as text, if any.
pub open spec fn empties(empty: nat) -> Seq<char> {
    if empty > 0 { decimal(empty) } else { Seq::empty() }
}

/// FEN text of files `file..8` of `rank`, after `empty` empty squares.
pub open spec fn rank_chars(pos: Position, rank: int, file: int, empty: nat) -> Seq<char>
    decreases 8 - file,
{
    if file >= 8 {
        empties(empty)
    } else {
        match piece_at_spec(pos, rank * 8 + file) {
            None => rank_chars(pos, rank, file + 1, empty + 1),
            Some((c, p)) => empties(empty) + seq![piece_letter(c as int, p as int)] + rank_chars(pos, rank, file + 1, 0),
        }
    }
}

/// FEN board text of ranks `rank` down to the first.
pub open spec fn board_chars(pos: Position, rank: int) -> Seq<char>
    decreases rank,
{
    if rank <= 0 {
        rank_chars(pos, 0, 0, 0)
    } else {
        rank_chars(pos, rank, 0, 0) + seq!['/'] + board_chars(pos, rank - 1)
    }
}

/// Castling field: `-`, or the letters of the rights held.
pub open spec fn castling_chars(c: u8) -> Seq<char> {
    if c == 0 {
        seq!['-']
    } else {
        (if c & CASTLE_WK != 0 { seq!['K'] } else { Seq::empty() }) + (if c & CASTLE_WQ != 0 {
            seq!['Q']
        } else {
            Seq::empty()
        }) + (if c & CASTLE_BK != 0 { seq!['k'] } else { Seq::empty() }) + (if c & CASTLE_BQ != 0 {
            seq!['q']
        } else {
            Seq::empty()
        })
    }
}

/// The FEN text of a position.
pub open spec fn to_fen_spec(pos: Position) -> Seq<char> {
    board_chars(pos, 7) + seq![' ', if pos.side == WHITE { 'w' } else { 'b' }, ' '] + castling_chars(pos.castling)
        + seq![' '] + match pos.ep_square {
        Some(s) => sq_name_spec(s as int),
        None => seq!['-'],
    } + seq![' '] + decimal(pos.halfmove as nat) + seq![' '] + decimal(pos.fullmove as nat)
}

fn push_rank(pos: &Position, out: &mut String, rank: u8)
    requires
        rank < 8,
    ensures
        final(out)@ == old(out)@ + rank_chars(*pos, rank as int, 0, 0),
{
    let ghost start = out@;
    let mut empty: u64 = 0;
    let mut file: u8 = 0;
    while file < 8
        invariant
            rank < 8,
            file <= 8,
            empty <= file,
            out@ + rank_chars(*pos, rank as int, file as int, empty as nat) == start + rank_chars(
                *pos,
                rank as int,
                0,
                0,
            ),
        decreases 8 - file,
    {
        let ghost before = out@;
        let ghost e0 = empty;
        let s = sq(file, rank);
        match pos.piece_at(s) {
            None => {
                empty += 1;
            },
            Some((c, p)) => {
                if empty > 0 {
                    push_decimal(out, empty);
                    empty = 0;
                }
                let ch = piece_char(c, p);
                push_char(out, ch);
                assert(out@ + rank_chars(*pos, rank as int, file + 1, 0) =~= before + rank_chars(
                    *pos,
                    rank as int,
                    file as int,
                    e0 as nat,
                ));
            },
        }
        file += 1;
    }
    let ghost before = out@;
    if empty > 0 {
        push_decimal(out, empty);
    }
    assert(out@ =~= before + rank_chars(*pos, rank as int, 8, empty as nat));
}

fn push_board(pos: &Position, out: &mut String)
    ensures
        final(out)@ == old(out)@ + board_chars(*pos, 7),
{
    let ghost start = out@;
    let mut rank: u8 = 8;
    while rank > 0
        invariant
            rank <= 8,
            out@ + (if rank == 0 { Seq::empty() } else { board_chars(*pos, rank - 1) }) == start
                + board_chars(*pos, 7),
        decreases rank,
    {
        let ghost before = out@;
        rank = rank - 1;
        push_rank(pos, out, rank);
        if rank != 0 {
            push_char(out, '/');
        }
        assert(out@ + (if rank == 0 { Seq::empty() } else { board_chars(*pos, rank - 1) }) =~= before
            + board_chars(*pos, rank as int));
    }
    assert(out@ =~= start + board_chars(*pos, 7));
}

fn push_castling(out: &mut String, c: u8)
    ensures
        final(out)@ == old(out)@ + castling_chars(c),
{
    if c == 0 {
        push_char(out, '-');
    } else {
        if c & CASTLE_WK != 0 {
            push_char(out, 'K');
        }
        if c & CASTLE_WQ != 0 {
            push_char(out, 'Q');
        }
        if c & CASTLE_BK != 0 {
            push_char(out, 'k');
        }
        if c & CASTLE_BQ != 0 {
            push_char(out, 'q');
        }
    }
    assert(out@ =~= old(out)@ + castling_chars(c));
}

impl Position {
    /// The FEN text of this position.
    pub fn to_fen(&self) -> (out: String)
        ensures
            out@ == to_fen_spec(*self),
    {
        let mut out = String::new();
        push_board(self, &mut out);
        let ghost b = out@;
        push_char(&mut out, ' ');
        push_char(&mut out, if self.side == WHITE { 'w' } else { 'b' });
        push_char(&mut out, ' ');
        push_castling(&mut out, self.castling);
        let ghost c = out@;
        push_char(&mut out, ' ');
        match self.ep_square {
            Some(s) => push_sq_name(&mut out, s),
            None => push_char(&mut out, '-'),
        }
        push_char(&mut out, ' ');
        let ghost e = out@;
        push_decimal(&mut out, self.halfmove as u64);
        push_char(&mut out, ' ');
        push_decimal(&mut out, self.fullmove as u64);
        assert(out@ =~= to_fen_spec(*self));
        out
    }
}

/// Piece bitboards of the initial position.
pub open spec fn start_pieces() -> [[u64; 6]; 2] {
    [
        [0xFF00u64, 0x42u64, 0x24u64, 0x81u64, 0x08u64, 0x10u64],
        [
            0x00FF000000000000u64,
            0x4200000000000000u64,
            0x2400000000000000u64,
            0x8100000000000000u64,
            0x0800000000000000u64,
            0x1000000000000000u64,
        ],
    ]
}

/// The initial position, hashed with key set `z`.
pub open spec fn startpos_spec(z: &Zobrist) -> Position {
    let pieces = start_pieces();
    let occ = [union6(pieces[0]), union6(pieces[1])];
    let p = Position {
        pieces,
        occ,
        all_occ: occ[0] | occ[1],
        side: WHITE,
        castling: CASTLE_WK | CASTLE_WQ | CASTLE_BK | CASTLE_BQ,
        ep_square: None,
        halfmove: 0,
        fullmove: 1,
        hash: 0,
    };
    Position { hash: hash_spec(p, z), ..p }
}

impl Position {
    /// The initial position
    /// (`rnbqkbnr/pppppppp/8/8/8/8/PPPPPPPP/RNBQKBNR w KQkq - 0 1`).
    pub fn startpos(z: &Zobrist) -> (p: Position)
        ensures
            p == startpos_spec(z),
    {
        let mut pos = Position {
            pieces: [
                [0xFF00u64, 0x42u64, 0x24u64, 0x81u64, 0x08u64, 0x10u64],
                [
                    0x00FF000000000000u64,
                    0x4200000000000000u64,
                    0x2400000000000000u64,
                    0x8100000000000000u64,
                    0x0800000000000000u64,
                    0x1000000000000000u64,
                ],
            ],
            occ: [0u64; 2],
            all_occ: 0,
            side: WHITE,
            castling: CASTLE_WK | CASTLE_WQ | CASTLE_BK | CASTLE_BQ,
            ep_square: None,
            halfmove: 0,
            fullmove: 1,
            hash: 0,
        };
        pos.recompute_occ();
        assert(pos.pieces[0] =~= start_pieces()[0]);
        assert(pos.pieces[1] =~= start_pieces()[1]);
        assert(pos.pieces =~= start_pieces());
        assert(pos.occ =~= startpos_spec(z).occ);
        pos.hash = pos.compute_hash(z);
        pos
    }
}

} // verus!
