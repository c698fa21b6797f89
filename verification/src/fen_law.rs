//! The FEN text of a position reads back as the same position.
use vstd::prelude::*;
use crate::bits::{is_set, bit, lemma_bit, lemma_bit_ops, lemma_bits_ext};
use crate::board::{Position, Zobrist, piece_at_spec, piece_at_from, hash_spec, occ_consistent, union6, lemma_hash_fields, WHITE};
use crate::fen::{
    no_pieces, BoardScan, rank_scan, rank_chars, board_chars, board_scan, slash_scan, empties, piece_letter,
    piece_of_byte, pieces_with, row_with, tok_scan, ws_len, digits_value, all_digits, parse_u16_spec,
    castle_scan, castling_chars, to_fen_spec, fen_spec, fen_fields, fen_in_range, ws_tokens, token_is,
};
use vstd::utf8::{encode_utf8, is_ascii_chars, is_ascii_chars_encode_utf8};
use crate::board::{sq_name_spec, CASTLE_WK, CASTLE_WQ, CASTLE_BK, CASTLE_BQ};
use crate::movegen::square_of_bytes;
use crate::text::{decimal, digit_char};

verus! {

/// The bytes of `b` from offset `o` on are the (ASCII) characters `t`.
pub open spec fn bytes_at(b: Seq<u8>, o: int, t: Seq<char>) -> bool {
    &&& 0 <= o
    &&& o + t.len() <= b.len()
    &&& forall|k: int| 0 <= k < t.len() ==> b[o + k] == #[trigger] t[k] as u8
}

proof fn lemma_bytes_at_split(b: Seq<u8>, o: int, x: Seq<char>, y: Seq<char>)
    requires
        bytes_at(b, o, x + y),
    ensures
        bytes_at(b, o, x),
        bytes_at(b, o + x.len(), y),
{
    assert forall|k: int| 0 <= k < x.len() implies b[o + k] == #[trigger] x[k] as u8 by {
        assert((x + y)[k] == x[k]);
    }
    assert forall|k: int| 0 <= k < y.len() implies b[o + x.len() + k] == #[trigger] y[k] as u8 by {
        assert((x + y)[x.len() + k] == y[k]);
    }
}

/// The piece found on a square has a colour and a type in range.
proof fn lemma_piece_at_from_range(pos: Position, s: int, i: int)
    ensures
        piece_at_from(pos, s, i) matches Some((c, p)) ==> c < 2 && p < 6,
    decreases 12 - i,
{
    if 0 <= i < 12 && !is_set(pos.pieces[i / 6][i % 6], s) {
        lemma_piece_at_from_range(pos, s, i + 1);
    }
}

/// The pieces of rank `r` on files `f..8` of `pos` added to `pieces`.
pub open spec fn add_rank(pos: Position, r: int, f: int, pieces: [[u64; 6]; 2]) -> [[u64; 6]; 2]
    decreases 8 - f,
{
    if f >= 8 {
        pieces
    } else {
        match piece_at_spec(pos, r * 8 + f) {
            None => add_rank(pos, r, f + 1, pieces),
            Some((c, p)) => add_rank(pos, r, f + 1, pieces_with(pieces, c as int, p as int, r * 8 + f)),
        }
    }
}

proof fn lemma_small_decimal(e: nat)
    requires
        1 <= e <= 9,
    ensures
        decimal(e) == seq![digit_char(e as int)],
{
}

/// Reading the FEN text of files `f..8` of rank `r`, written after `e`
/// pending empty squares, from file `f - e` adds the pieces of those files.
proof fn lemma_rank_scan(
    pos: Position,
    b: Seq<u8>,
    j: int,
    end: int,
    r: int,
    f: int,
    e: nat,
    pieces: [[u64; 6]; 2],
)
    requires
        0 <= r < 8,
        0 <= f <= 8,
        e <= f,
        bytes_at(b, j, rank_chars(pos, r, f, e)),
        end == j + rank_chars(pos, r, f, e).len(),
    ensures
        rank_scan(b, j, end, r, f - e, pieces) == BoardScan::Done(add_rank(pos, r, f, pieces)),
    decreases 8 - f,
{
    let t = rank_chars(pos, r, f, e);
    if f >= 8 {
        if e > 0 {
            lemma_small_decimal(e);
            assert(t[0] == digit_char(e as int));
            assert(b[j] == (48 + e) as u8);
            assert(rank_scan(b, j + 1, end, r, 8, pieces) == BoardScan::Done(pieces));
        }
    } else {
        lemma_piece_at_from_range(pos, r * 8 + f, 0);
        match piece_at_spec(pos, r * 8 + f) {
            None => {
                lemma_rank_scan(pos, b, j, end, r, f + 1, e + 1, pieces);
            },
            Some((c, p)) => {
                let pc = seq![piece_letter(c as int, p as int)];
                let rest = rank_chars(pos, r, f + 1, 0);
                assert(t == empties(e) + pc + rest);
                lemma_bytes_at_split(b, j, empties(e) + pc, rest);
                lemma_bytes_at_split(b, j, empties(e), pc);
                let k0 = empties(e).len() as int;
                let pw = pieces_with(pieces, c as int, p as int, r * 8 + f);
                lemma_rank_scan(pos, b, j + k0 + 1, end, r, f + 1, 0, pw);
                assert(pc[0] == piece_letter(c as int, p as int));
                assert(b[j + k0 + 0] == pc[0] as u8);
                assert(b[j + k0] == piece_letter(c as int, p as int) as u8);
                assert(piece_of_byte(b[j + k0]) == Some((c, p)));
                if e > 0 {
                    lemma_small_decimal(e);
                    assert(empties(e)[0] == digit_char(e as int));
                    assert(b[j + 0] == empties(e)[0] as u8);
                    assert(b[j] == (48 + e) as u8);
                    assert(rank_scan(b, j + 1, end, r, f, pieces) == rank_scan(b, j + 2, end, r, f + 1, pw));
                } else {
                    assert(k0 == 0);
                }
            },
        }
    }
}

/// A character of a FEN field: printable ASCII other than the space.
pub open spec fn word_char(ch: char) -> bool {
    '!' <= ch <= '~'
}

/// The characters of the text of files `f..8` of a rank are printable and
/// none is a `/`.
proof fn lemma_rank_chars_class(pos: Position, r: int, f: int, e: nat)
    requires
        e <= f <= 8,
    ensures
        forall|k: int| 0 <= k < rank_chars(pos, r, f, e).len() ==> word_char(#[trigger] rank_chars(pos, r, f, e)[k])
            && rank_chars(pos, r, f, e)[k] != '/',
        rank_chars(pos, r, f, e).len() >= 1 || (f == 8 && e == 0),
    decreases 8 - f,
{
    let t = rank_chars(pos, r, f, e);
    if f >= 8 {
        if e > 0 {
            lemma_small_decimal(e);
        }
    } else {
        lemma_piece_at_from_range(pos, r * 8 + f, 0);
        match piece_at_spec(pos, r * 8 + f) {
            None => {
                lemma_rank_chars_class(pos, r, f + 1, e + 1);
            },
            Some((c, p)) => {
                lemma_rank_chars_class(pos, r, f + 1, 0);
                if e > 0 {
                    lemma_small_decimal(e);
                }
                let rest = rank_chars(pos, r, f + 1, 0);
                let head = empties(e) + seq![piece_letter(c as int, p as int)];
                assert(t == head + rest);
                assert forall|k: int| 0 <= k < t.len() implies word_char(#[trigger] t[k]) && t[k] != '/' by {
                    if k < head.len() {
                        assert(t[k] == head[k]);
                    } else {
                        assert(t[k] == rest[k - head.len()]);
                    }
                }
            },
        }
    }
}

/// `slash_scan` passes over bytes that are not `/`.
proof fn lemma_slash_skip(b: Seq<u8>, k: int, e: int, end: int, st: int)
    requires
        k <= e <= end,
        forall|m: int| k <= m < e ==> b[m] != 47,
    ensures
        slash_scan(b, k, end, st) == slash_scan(b, e, end, st),
    decreases e - k,
{
    if k < e {
        lemma_slash_skip(b, k + 1, e, end, st);
    }
}

/// The `/`-separated pieces of the board text of ranks `r` down to the
/// first are the texts of those ranks.
proof fn lemma_board_slashes(pos: Position, b: Seq<u8>, o: int, end: int, r: int)
    requires
        0 <= r < 8,
        bytes_at(b, o, board_chars(pos, r)),
        end == o + board_chars(pos, r).len(),
        end <= usize::MAX,
    ensures
        slash_scan(b, o, end, o).len() == r + 1,
        forall|k: int| 0 <= k <= r ==> {
            let t = #[trigger] slash_scan(b, o, end, o)[k];
            &&& t.0 as int + rank_chars(pos, r - k, 0, 0).len() == t.1 as int
            &&& t.1 <= end
            &&& bytes_at(b, t.0 as int, rank_chars(pos, r - k, 0, 0))
        },
    decreases r,
{
    let rc = rank_chars(pos, r, 0, 0);
    lemma_rank_chars_class(pos, r, 0, 0);
    if r == 0 {
        assert forall|m: int| o <= m < end implies b[m] != 47 by {
            assert(b[o + (m - o)] == rc[m - o] as u8);
        }
        lemma_slash_skip(b, o, end, end, o);
    } else {
        let rest = board_chars(pos, r - 1);
        assert(board_chars(pos, r) == rc + seq!['/'] + rest);
        lemma_bytes_at_split(b, o, rc + seq!['/'], rest);
        lemma_bytes_at_split(b, o, rc, seq!['/']);
        let e = o + rc.len();
        assert forall|m: int| o <= m < e implies b[m] != 47 by {
            assert(b[o + (m - o)] == rc[m - o] as u8);
        }
        lemma_slash_skip(b, o, e, end, o);
        assert(seq!['/'][0] == '/');
        assert(b[e + 0] == seq!['/'][0] as u8);
        assert(b[e] == 47);
        lemma_board_slashes(pos, b, e + 1, end, r - 1);
        let tail = slash_scan(b, e + 1, end, e + 1);
        assert(slash_scan(b, o, end, o) == seq![(o as usize, e as usize)] + tail);
        assert forall|k: int| 0 <= k <= r implies {
            let t = #[trigger] slash_scan(b, o, end, o)[k];
            &&& t.0 as int + rank_chars(pos, r - k, 0, 0).len() == t.1 as int
            &&& t.1 <= end
            &&& bytes_at(b, t.0 as int, rank_chars(pos, r - k, 0, 0))
        } by {
            if k > 0 {
                assert(slash_scan(b, o, end, o)[k] == tail[k - 1]);
                assert(r - 1 - (k - 1) == r - k);
            }
        }
    }
}

/// The pieces of ranks `r` down to the first added to `pieces`.
pub open spec fn add_board(pos: Position, r: int, pieces: [[u64; 6]; 2]) -> [[u64; 6]; 2]
    decreases r + 1,
{
    if r < 0 {
        pieces
    } else {
        add_board(pos, r - 1, add_rank(pos, r, 0, pieces))
    }
}

/// Reading the rank texts `i..8` of a board adds the pieces of ranks
/// `7 - i` down to the first.
proof fn lemma_board_scan(pos: Position, b: Seq<u8>, ranks: Seq<(usize, usize)>, i: int, pieces: [[u64; 6]; 2])
    requires
        0 <= i <= 8,
        ranks.len() == 8,
        forall|k: int| 0 <= k < 8 ==> {
            let t = #[trigger] ranks[k];
            &&& t.0 as int + rank_chars(pos, 7 - k, 0, 0).len() == t.1 as int
            &&& bytes_at(b, t.0 as int, rank_chars(pos, 7 - k, 0, 0))
        },
    ensures
        board_scan(b, ranks, i, pieces) == BoardScan::Done(add_board(pos, 7 - i, pieces)),
    decreases 8 - i,
{
    if i < 8 {
        let t = ranks[i];
        lemma_rank_scan(pos, b, t.0 as int, t.1 as int, 7 - i, 0, 0, pieces);
        lemma_board_scan(pos, b, ranks, i + 1, add_rank(pos, 7 - i, 0, pieces));
    }
}

/// No square holds two pieces.
pub open spec fn pieces_disjoint(pos: Position) -> bool {
    forall|c1: int, p1: int, c2: int, p2: int, s: int|
        0 <= c1 < 2 && 0 <= p1 < 6 && 0 <= c2 < 2 && 0 <= p2 < 6 && (c1 != c2 || p1 != p2) && #[trigger] is_set(
            pos.pieces[c1][p1],
            s,
        ) ==> !#[trigger] is_set(pos.pieces[c2][p2], s)
}

proof fn lemma_pieces_with(pieces: [[u64; 6]; 2], c1: int, p1: int, sq: int, c: int, p: int, s: int)
    requires
        0 <= c1 < 2,
        0 <= p1 < 6,
        0 <= sq < 64,
        0 <= c < 2,
        0 <= p < 6,
    ensures
        is_set(pieces_with(pieces, c1, p1, sq)[c][p], s) <==> (is_set(pieces[c][p], s) || (c == c1 && p == p1
            && s == sq)),
{
    lemma_bit(sq);
    lemma_bit_ops(pieces[c][p], bit(sq));
}

proof fn lemma_add_rank_bits(pos: Position, r: int, f: int, pieces: [[u64; 6]; 2], c: int, p: int, s: int)
    requires
        0 <= r < 8,
        0 <= f <= 8,
        0 <= c < 2,
        0 <= p < 6,
    ensures
        is_set(add_rank(pos, r, f, pieces)[c][p], s) <==> (is_set(pieces[c][p], s) || (r * 8 + f <= s < r * 8
            + 8 && piece_at_spec(pos, s) == Some((c as usize, p as usize)))),
    decreases 8 - f,
{
    if f < 8 {
        lemma_piece_at_from_range(pos, r * 8 + f, 0);
        match piece_at_spec(pos, r * 8 + f) {
            None => {
                lemma_add_rank_bits(pos, r, f + 1, pieces, c, p, s);
            },
            Some((c1, p1)) => {
                let pw = pieces_with(pieces, c1 as int, p1 as int, r * 8 + f);
                lemma_add_rank_bits(pos, r, f + 1, pw, c, p, s);
                lemma_pieces_with(pieces, c1 as int, p1 as int, r * 8 + f, c, p, s);
            },
        }
    }
}

proof fn lemma_add_board_bits(pos: Position, r: int, pieces: [[u64; 6]; 2], c: int, p: int, s: int)
    requires
        -1 <= r < 8,
        0 <= c < 2,
        0 <= p < 6,
    ensures
        is_set(add_board(pos, r, pieces)[c][p], s) <==> (is_set(pieces[c][p], s) || (0 <= s < r * 8 + 8
            && piece_at_spec(pos, s) == Some((c as usize, p as usize)))),
    decreases r + 1,
{
    if r >= 0 {
        let next = add_rank(pos, r, 0, pieces);
        lemma_add_board_bits(pos, r - 1, next, c, p, s);
        lemma_add_rank_bits(pos, r, 0, pieces, c, p, s);
    }
}

proof fn lemma_piece_at_from_disjoint(pos: Position, s: int, i: int, c: int, p: int)
    requires
        pieces_disjoint(pos),
        0 <= i <= 12,
        0 <= c < 2,
        0 <= p < 6,
    ensures
        piece_at_from(pos, s, i) == Some((c as usize, p as usize)) <==> (6 * c + p >= i && is_set(
            pos.pieces[c][p],
            s,
        )),
    decreases 12 - i,
{
    if i < 12 {
        lemma_piece_at_from_disjoint(pos, s, i + 1, c, p);
        let c1 = i / 6;
        let p1 = i % 6;
        if is_set(pos.pieces[c1][p1], s) && (c1 != c || p1 != p) && is_set(pos.pieces[c][p], s) {
            assert(!is_set(pos.pieces[c][p], s));
        }
    }
}

/// On a board without overlapping pieces, re-reading every square's piece
/// rebuilds the bitboards.
proof fn lemma_add_board_rebuilds(pos: Position)
    requires
        pieces_disjoint(pos),
    ensures
        add_board(pos, 7, no_pieces()) == pos.pieces,
{
    let res = add_board(pos, 7, no_pieces());
    lemma_bit_ops(0, 0);
    assert forall|c: int, p: int| 0 <= c < 2 && 0 <= p < 6 implies res[c][p] == pos.pieces[c][p] by {
        assert forall|s: int| 0 <= s < 64 implies #[trigger] is_set(res[c][p], s) == is_set(pos.pieces[c][p], s) by {
            lemma_add_board_bits(pos, 7, no_pieces(), c, p, s);
            lemma_piece_at_from_disjoint(pos, s, 0, c, p);
            assert(no_pieces()[c][p] == 0u64);
        }
        lemma_bits_ext(res[c][p], pos.pieces[c][p]);
    }
    assert(res[0] =~= pos.pieces[0]);
    assert(res[1] =~= pos.pieces[1]);
    assert(res =~= pos.pieces);
}

/// Fields joined by single spaces.
pub open spec fn join_words(ws: Seq<Seq<char>>) -> Seq<char>
    decreases ws.len(),
{
    if ws.len() == 0 {
        Seq::empty()
    } else if ws.len() == 1 {
        ws[0]
    } else {
        ws[0] + seq![' '] + join_words(ws.drop_first())
    }
}

/// `tok_scan` passes over the bytes of a field.
proof fn lemma_tok_skip(b: Seq<u8>, k: int, e: int, st: int)
    requires
        0 <= st < k <= e <= b.len(),
        forall|m: int| k <= m < e ==> 33 <= #[trigger] b[m] <= 126,
    ensures
        tok_scan(b, k, st) == tok_scan(b, e, st),
    decreases e - k,
{
    if k < e {
        assert(33 <= b[k] <= 126);
        assert(ws_len(b, k) == 0);
        lemma_tok_skip(b, k + 1, e, st);
    }
}

/// The tokens of a text of non-empty fields of printable characters joined
/// by single spaces, from offset `o` to the end of `b`, are those fields.
proof fn lemma_join_tokens(b: Seq<u8>, o: int, ws: Seq<Seq<char>>)
    requires
        ws.len() >= 1,
        forall|k: int| 0 <= k < ws.len() ==> (#[trigger] ws[k]).len() >= 1,
        forall|k: int, m: int| 0 <= k < ws.len() && 0 <= m < ws[k].len() ==> word_char(#[trigger] ws[k][m]),
        bytes_at(b, o, join_words(ws)),
        o + join_words(ws).len() == b.len(),
        b.len() <= usize::MAX,
    ensures
        tok_scan(b, o, -1).len() == ws.len(),
        forall|k: int| 0 <= k < ws.len() ==> {
            let t = #[trigger] tok_scan(b, o, -1)[k];
            &&& t.0 as int + ws[k].len() == t.1 as int
            &&& bytes_at(b, t.0 as int, ws[k])
        },
    decreases ws.len(),
{
    let w = ws[0];
    let e = o + w.len();
    if ws.len() == 1 {
        assert(join_words(ws) == w);
    } else {
        assert(join_words(ws) == w + seq![' '] + join_words(ws.drop_first()));
        lemma_bytes_at_split(b, o, w + seq![' '], join_words(ws.drop_first()));
        lemma_bytes_at_split(b, o, w, seq![' ']);
    }
    assert forall|m: int| o + 1 <= m < e implies 33 <= #[trigger] b[m] <= 126 by {
        assert(b[o + (m - o)] == w[m - o] as u8);
        assert(word_char(ws[0][m - o]));
    }
    assert(b[o + 0] == w[0] as u8);
    assert(word_char(ws[0][0]));
    assert(ws_len(b, o) == 0);
    if ws.len() == 1 {
        lemma_tok_skip(b, o + 1, e, o);
        assert(tok_scan(b, o, -1) == tok_scan(b, o + 1, o));
    } else {
        lemma_tok_skip(b, o + 1, e, o);
        assert(seq![' '][0] == ' ');
        assert(b[e + 0] == seq![' '][0] as u8);
        assert(ws_len(b, e) == 1);
        let rest = ws.drop_first();
        assert forall|k: int| 0 <= k < rest.len() implies (#[trigger] rest[k]).len() >= 1 by {
            assert(rest[k] == ws[k + 1]);
        }
        assert forall|k: int, m: int| 0 <= k < rest.len() && 0 <= m < rest[k].len() implies word_char(
            #[trigger] rest[k][m],
        ) by {
            assert(rest[k] == ws[k + 1]);
        }
        lemma_join_tokens(b, e + 1, rest);
        let tail = tok_scan(b, e + 1, -1);
        assert(tok_scan(b, o, -1) == seq![(o as usize, e as usize)] + tail);
        assert forall|k: int| 0 <= k < ws.len() implies {
            let t = #[trigger] tok_scan(b, o, -1)[k];
            &&& t.0 as int + ws[k].len() == t.1 as int
            &&& bytes_at(b, t.0 as int, ws[k])
        } by {
            if k > 0 {
                assert(tok_scan(b, o, -1)[k] == tail[k - 1]);
                assert(rest[k - 1] == ws[k]);
            }
        }
    }
}

/// The bytes of a decimal number's text are ASCII digits worth the number.
proof fn lemma_decimal_bytes(n: nat, d: Seq<u8>)
    requires
        d.len() == decimal(n).len(),
        forall|k: int| 0 <= k < d.len() ==> d[k] == #[trigger] decimal(n)[k] as u8,
    ensures
        d.len() >= 1,
        all_digits(d),
        digits_value(d) == n,
        forall|k: int| 0 <= k < decimal(n).len() ==> '0' <= #[trigger] decimal(n)[k] <= '9',
    decreases n,
{
    if n < 10 {
        assert(decimal(n)[0] == digit_char(n as int));
        assert(d[0] == decimal(n)[0] as u8);
        assert(d[0] == (48 + n) as u8);
        assert(d.drop_last() =~= Seq::<u8>::empty());
        assert(d.last() == d[0]);
        assert(digits_value(d) == digits_value(d.drop_last()) * 10 + (d.last() - 48));
    } else {
        let hi = decimal(n / 10);
        assert(decimal(n) == hi + seq![digit_char((n % 10) as int)]);
        let d0 = d.drop_last();
        assert forall|k: int| 0 <= k < d0.len() implies d0[k] == #[trigger] hi[k] as u8 by {
            assert(decimal(n)[k] == hi[k]);
            assert(d[k] == decimal(n)[k] as u8);
        }
        lemma_decimal_bytes(n / 10, d0);
        assert(decimal(n)[hi.len() as int] == digit_char((n % 10) as int));
        assert(d[d.len() - 1] == decimal(n)[hi.len() as int] as u8);
        assert(d.last() == (48 + n % 10) as u8);
        assert(digits_value(d) == digits_value(d0) * 10 + (d.last() - 48));
        assert(n == (n / 10) * 10 + n % 10);
        assert forall|k: int| 0 <= k < decimal(n).len() implies '0' <= #[trigger] decimal(n)[k] <= '9' by {
            if k < hi.len() {
                assert(decimal(n)[k] == hi[k]);
            }
        }
        assert forall|k: int| 0 <= k < d.len() implies 48 <= #[trigger] d[k] <= 57 by {
            if k < d0.len() {
                assert(d0[k] == d[k]);
            }
        }
    }
}

/// A `u16`'s decimal text reads back as the number.
proof fn lemma_parse_decimal(b: Seq<u8>, o: int, n: u16)
    requires
        bytes_at(b, o, decimal(n as nat)),
    ensures
        parse_u16_spec(b.subrange(o, o + decimal(n as nat).len())) == Some(n),
        forall|k: int| 0 <= k < decimal(n as nat).len() ==> word_char(#[trigger] decimal(n as nat)[k]),
{
    let t = decimal(n as nat);
    let d = b.subrange(o, o + t.len());
    assert forall|k: int| 0 <= k < d.len() implies d[k] == #[trigger] t[k] as u8 by {
        assert(b[o + k] == t[k] as u8);
    }
    lemma_decimal_bytes(n as nat, d);
    assert(d[0] != 43);
}

proof fn lemma_castle_scan_split(b: Seq<u8>, j: int, m: int, end: int, acc: u8)
    requires
        j <= m <= end,
    ensures
        castle_scan(b, j, end, acc) == castle_scan(b, m, end, castle_scan(b, j, m, acc)),
    decreases m - j,
{
    if j < m {
        let c = b[j];
        let acc2 = if c == 75 {
            acc | CASTLE_WK
        } else if c == 81 {
            acc | CASTLE_WQ
        } else if c == 107 {
            acc | CASTLE_BK
        } else if c == 113 {
            acc | CASTLE_BQ
        } else {
            acc
        };
        lemma_castle_scan_split(b, j + 1, m, end, acc2);
    }
}

proof fn lemma_castle_bits(c: u8)
    by (bit_vector)
    requires
        c < 16,
    ensures
        ((((0u8 | (if c & 1u8 != 0 { 1u8 } else { 0u8 })) | (if c & 2u8 != 0 { 2u8 } else { 0u8 })) | (if c & 4u8
            != 0 { 4u8 } else { 0u8 })) | (if c & 8u8 != 0 { 8u8 } else { 0u8 })) == c,
        c != 0 ==> (c & 1u8 != 0 || c & 2u8 != 0 || c & 4u8 != 0 || c & 8u8 != 0),
        c | 0u8 == c,
{
}

/// One optional castling letter: `ch` when the right `flag` is held.
pub open spec fn castle_letter(c: u8, flag: u8, ch: char) -> Seq<char> {
    if c & flag != 0 {
        seq![ch]
    } else {
        Seq::empty()
    }
}

proof fn lemma_castle_letter_scan(b: Seq<u8>, j: int, c: u8, flag: u8, ch: char, acc: u8)
    requires
        bytes_at(b, j, castle_letter(c, flag, ch)),
        (ch == 'K' && flag == CASTLE_WK) || (ch == 'Q' && flag == CASTLE_WQ) || (ch == 'k' && flag == CASTLE_BK)
            || (ch == 'q' && flag == CASTLE_BQ),
    ensures
        castle_scan(b, j, j + castle_letter(c, flag, ch).len(), acc) == acc | (if c & flag != 0 {
            flag
        } else {
            0u8
        }),
{
    if c & flag != 0 {
        assert(castle_letter(c, flag, ch)[0] == ch);
        assert(b[j + 0] == ch as u8);
        assert(castle_scan(b, j + 1, j + 1, acc | flag) == acc | flag);
    } else {
        assert(acc | 0u8 == acc) by (bit_vector);
    }
}

/// The castling field reads back as the rights it was written from.
proof fn lemma_castling_roundtrip(b: Seq<u8>, o: int, c: u8)
    requires
        c < 16,
        c != 0,
        bytes_at(b, o, castling_chars(c)),
    ensures
        castle_scan(b, o, o + castling_chars(c).len(), 0) == c,
        castling_chars(c).len() >= 1,
        forall|k: int| 0 <= k < castling_chars(c).len() ==> word_char(#[trigger] castling_chars(c)[k]),
{
    let l1 = castle_letter(c, CASTLE_WK, 'K');
    let l2 = castle_letter(c, CASTLE_WQ, 'Q');
    let l3 = castle_letter(c, CASTLE_BK, 'k');
    let l4 = castle_letter(c, CASTLE_BQ, 'q');
    let t = castling_chars(c);
    assert(t == l1 + l2 + l3 + l4);
    lemma_bytes_at_split(b, o, l1 + l2 + l3, l4);
    lemma_bytes_at_split(b, o, l1 + l2, l3);
    lemma_bytes_at_split(b, o, l1, l2);
    let m1 = o + l1.len();
    let m2 = m1 + l2.len();
    let m3 = m2 + l3.len();
    let m4 = m3 + l4.len();
    lemma_castle_scan_split(b, o, m3, m4, 0);
    lemma_castle_scan_split(b, o, m2, m3, 0);
    lemma_castle_scan_split(b, o, m1, m2, 0);
    lemma_castle_letter_scan(b, o, c, CASTLE_WK, 'K', 0);
    let a1 = castle_scan(b, o, m1, 0);
    lemma_castle_letter_scan(b, m1, c, CASTLE_WQ, 'Q', a1);
    let a2 = castle_scan(b, m1, m2, a1);
    lemma_castle_letter_scan(b, m2, c, CASTLE_BK, 'k', a2);
    let a3 = castle_scan(b, m2, m3, a2);
    lemma_castle_letter_scan(b, m3, c, CASTLE_BQ, 'q', a3);
    lemma_castle_bits(c);
    assert forall|k: int| 0 <= k < t.len() implies word_char(#[trigger] t[k]) by {
        if k < l1.len() {
            assert(t[k] == l1[k]);
        } else if k < l1.len() + l2.len() {
            assert(t[k] == l2[k - l1.len()]);
        } else if k < l1.len() + l2.len() + l3.len() {
            assert(t[k] == l3[k - l1.len() - l2.len()]);
        } else {
            assert(t[k] == l4[k - l1.len() - l2.len() - l3.len()]);
        }
    }
}

/// A square's name reads back as the square.
proof fn lemma_sq_name_bytes(b: Seq<u8>, o: int, s: u8)
    requires
        s < 64,
        bytes_at(b, o, sq_name_spec(s as int)),
    ensures
        square_of_bytes(b[o], b[o + 1]) == Some(s),
        forall|k: int| 0 <= k < 2 ==> word_char(#[trigger] sq_name_spec(s as int)[k]),
        sq_name_spec(s as int).len() == 2,
{
    let t = sq_name_spec(s as int);
    assert(b[o + 0] == t[0] as u8);
    assert(b[o + 1] == t[1] as u8);
    assert(b[o].wrapping_sub(97) == s % 8);
    assert(b[o + 1].wrapping_sub(49) == s / 8);
}

proof fn lemma_rank_chars_len(pos: Position, r: int, f: int, e: nat)
    requires
        e <= f <= 8,
    ensures
        rank_chars(pos, r, f, e).len() <= 8 - f + (if e > 0 { 1int } else { 0int }),
    decreases 8 - f,
{
    if f >= 8 {
        if e > 0 {
            lemma_small_decimal(e);
        }
    } else {
        match piece_at_spec(pos, r * 8 + f) {
            None => {
                lemma_rank_chars_len(pos, r, f + 1, e + 1);
            },
            Some((c, p)) => {
                lemma_rank_chars_len(pos, r, f + 1, 0);
                if e > 0 {
                    lemma_small_decimal(e);
                }
            },
        }
    }
}

/// The board text of ranks `r` down to the first: printable, not empty,
/// and short.
proof fn lemma_board_chars_class(pos: Position, r: int)
    requires
        0 <= r < 8,
    ensures
        forall|k: int| 0 <= k < board_chars(pos, r).len() ==> word_char(#[trigger] board_chars(pos, r)[k]),
        1 <= board_chars(pos, r).len() <= 10 * (r + 1),
    decreases r,
{
    lemma_rank_chars_class(pos, r, 0, 0);
    lemma_rank_chars_len(pos, r, 0, 0);
    let rc = rank_chars(pos, r, 0, 0);
    if r > 0 {
        lemma_board_chars_class(pos, r - 1);
        let rest = board_chars(pos, r - 1);
        let t = board_chars(pos, r);
        assert(t == rc + seq!['/'] + rest);
        assert forall|k: int| 0 <= k < t.len() implies word_char(#[trigger] t[k]) by {
            if k < rc.len() {
                assert(t[k] == rc[k]);
            } else if k == rc.len() {
                assert(t[k] == '/');
            } else {
                assert(t[k] == rest[k - rc.len() - 1]);
            }
        }
    }
}

proof fn lemma_decimal_chars(n: nat)
    ensures
        forall|k: int| 0 <= k < decimal(n).len() ==> word_char(#[trigger] decimal(n)[k]),
        1 <= decimal(n).len(),
        n < 10 ==> decimal(n).len() <= 1,
        n < 100 ==> decimal(n).len() <= 2,
        n < 1000 ==> decimal(n).len() <= 3,
        n < 10000 ==> decimal(n).len() <= 4,
        n < 100000 ==> decimal(n).len() <= 5,
    decreases n,
{
    if n >= 10 {
        lemma_decimal_chars(n / 10);
        let hi = decimal(n / 10);
        assert(decimal(n) == hi + seq![digit_char((n % 10) as int)]);
        assert forall|k: int| 0 <= k < decimal(n).len() implies word_char(#[trigger] decimal(n)[k]) by {
            if k < hi.len() {
                assert(decimal(n)[k] == hi[k]);
            }
        }
    } else {
        assert(decimal(n)[0] == digit_char(n as int));
    }
}

proof fn lemma_castling_chars_class(c: u8)
    requires
        c < 16,
    ensures
        forall|k: int| 0 <= k < castling_chars(c).len() ==> word_char(#[trigger] castling_chars(c)[k]),
        1 <= castling_chars(c).len() <= 4,
        c != 0 ==> castling_chars(c)[0] != '-',
{
    if c != 0 {
        let l1 = castle_letter(c, CASTLE_WK, 'K');
        let l2 = castle_letter(c, CASTLE_WQ, 'Q');
        let l3 = castle_letter(c, CASTLE_BK, 'k');
        let l4 = castle_letter(c, CASTLE_BQ, 'q');
        let t = castling_chars(c);
        assert(t == l1 + l2 + l3 + l4);
        lemma_castle_bits(c);
        assert forall|k: int| 0 <= k < t.len() implies word_char(#[trigger] t[k]) by {
            if k < l1.len() {
                assert(t[k] == l1[k]);
            } else if k < l1.len() + l2.len() {
                assert(t[k] == l2[k - l1.len()]);
            } else if k < l1.len() + l2.len() + l3.len() {
                assert(t[k] == l3[k - l1.len() - l2.len()]);
            } else {
                assert(t[k] == l4[k - l1.len() - l2.len() - l3.len()]);
            }
        }
        if l1.len() > 0 {
            assert(t[0] == l1[0]);
        } else if l2.len() > 0 {
            assert(t[0] == l2[0]);
        } else if l3.len() > 0 {
            assert(t[0] == l3[0]);
        } else {
            assert(t[0] == l4[0]);
        }
    }
}

proof fn lemma_join_ascii(ws: Seq<Seq<char>>)
    requires
        forall|k: int, m: int| 0 <= k < ws.len() && 0 <= m < ws[k].len() ==> word_char(#[trigger] ws[k][m]),
    ensures
        is_ascii_chars(join_words(ws)),
    decreases ws.len(),
{
    if ws.len() > 1 {
        let rest = ws.drop_first();
        assert forall|k: int, m: int| 0 <= k < rest.len() && 0 <= m < rest[k].len() implies word_char(
            #[trigger] rest[k][m],
        ) by {
            assert(rest[k] == ws[k + 1]);
        }
        lemma_join_ascii(rest);
        let t = join_words(ws);
        let w = ws[0];
        let jr = join_words(rest);
        assert(t == w + seq![' '] + jr);
        assert forall|i: int| 0 <= i < t.len() implies '\0' <= #[trigger] t[i] <= '\u{7f}' by {
            if i < w.len() {
                assert(t[i] == ws[0][i]);
                assert(word_char(ws[0][i]));
            } else if i == w.len() {
            } else {
                assert(t[i] == jr[i - w.len() - 1]);
            }
        }
    } else if ws.len() == 1 {
        assert forall|i: int| 0 <= i < ws[0].len() implies '\0' <= #[trigger] ws[0][i] <= '\u{7f}' by {
            assert(word_char(ws[0][i]));
        }
    }
}

proof fn lemma_join_len(ws: Seq<Seq<char>>, bound: int)
    requires
        forall|k: int| 0 <= k < ws.len() ==> (#[trigger] ws[k]).len() <= bound,
    ensures
        join_words(ws).len() <= ws.len() * (bound + 1),
    decreases ws.len(),
{
    if ws.len() > 1 {
        let rest = ws.drop_first();
        assert forall|k: int| 0 <= k < rest.len() implies (#[trigger] rest[k]).len() <= bound by {
            assert(rest[k] == ws[k + 1]);
        }
        lemma_join_len(rest, bound);
        assert(join_words(ws).len() == ws[0].len() + 1 + join_words(rest).len());
        assert(ws.len() * (bound + 1) == (bound + 1) + rest.len() * (bound + 1)) by (nonlinear_arith)
            requires
                rest.len() == ws.len() - 1,
        ;
    }
}

/// Positions that their FEN text describes exactly: occupancy consistent
/// with the pieces, no square holding two pieces, a side to move, no
/// castling rights beyond the four, an en-passant target on the board, and
/// the Zobrist hash of their fields.
pub open spec fn fen_exact(pos: Position, z: &Zobrist) -> bool {
    &&& occ_consistent(pos)
    &&& pieces_disjoint(pos)
    &&& pos.side < 2
    &&& pos.castling < 16
    &&& (pos.ep_square matches Some(s) ==> s < 64)
    &&& pos.hash == hash_spec(pos, z)
}

/// The six fields of a position's FEN text.
pub open spec fn fen_words(pos: Position) -> Seq<Seq<char>> {
    seq![
        board_chars(pos, 7),
        seq![if pos.side == WHITE { 'w' } else { 'b' }],
        castling_chars(pos.castling),
        match pos.ep_square {
            Some(s) => sq_name_spec(s as int),
            None => seq!['-'],
        },
        decimal(pos.halfmove as nat),
        decimal(pos.fullmove as nat),
    ]
}

/// The tokens of the FEN text of a position are its six fields.
proof fn lemma_fen_tokens(pos: Position)
    requires
        pos.castling < 16,
        pos.ep_square matches Some(s) ==> s < 64,
    ensures
        is_ascii_chars(to_fen_spec(pos)),
        ws_tokens(encode_utf8(to_fen_spec(pos))).len() == 6,
        forall|k: int| 0 <= k < 6 ==> {
            let t = #[trigger] ws_tokens(encode_utf8(to_fen_spec(pos)))[k];
            &&& t.0 as int + fen_words(pos)[k].len() == t.1 as int
            &&& bytes_at(encode_utf8(to_fen_spec(pos)), t.0 as int, fen_words(pos)[k])
        },
{
    let ws = fen_words(pos);
    let t = to_fen_spec(pos);
    reveal_with_fuel(join_words, 7);
    assert(t =~= join_words(ws));
    lemma_board_chars_class(pos, 7);
    lemma_castling_chars_class(pos.castling);
    lemma_decimal_chars(pos.halfmove as nat);
    lemma_decimal_chars(pos.fullmove as nat);
    if let Some(s) = pos.ep_square {
        assert(sq_name_spec(s as int).len() == 2);
        assert(word_char(sq_name_spec(s as int)[0]));
        assert(word_char(sq_name_spec(s as int)[1]));
    }
    assert forall|k: int| 0 <= k < ws.len() implies 1 <= (#[trigger] ws[k]).len() <= 80 by {}
    assert forall|k: int, m: int| 0 <= k < ws.len() && 0 <= m < ws[k].len() implies word_char(#[trigger] ws[k][m]) by {
        if k == 3 {
            if let Some(s) = pos.ep_square {
                assert(m == 0 || m == 1);
            }
        }
    }
    lemma_join_ascii(ws);
    lemma_join_len(ws, 80);
    is_ascii_chars_encode_utf8(t);
    let b = encode_utf8(t);
    assert(bytes_at(b, 0, join_words(ws)));
    lemma_join_tokens(b, 0, ws);
}

/// The position read from the fields of a position's FEN text, before
/// hashing, agrees with the position field by field.
proof fn lemma_fen_fields(pos: Position)
    requires
        occ_consistent(pos),
        pieces_disjoint(pos),
        pos.side < 2,
        pos.castling < 16,
        pos.ep_square matches Some(s) ==> s < 64,
    ensures
        fen_in_range(encode_utf8(to_fen_spec(pos))),
        fen_fields(encode_utf8(to_fen_spec(pos))) matches Some(fp) && fp.pieces == pos.pieces && fp.occ == pos.occ
            && fp.all_occ == pos.all_occ && fp.side == pos.side && fp.castling == pos.castling && fp.ep_square
            == pos.ep_square && fp.halfmove == pos.halfmove && fp.fullmove == pos.fullmove,
{
    lemma_fen_tokens(pos);
    let ws = fen_words(pos);
    let b = encode_utf8(to_fen_spec(pos));
    let parts = ws_tokens(b);
    assert(parts[0].0 as int + ws[0].len() == parts[0].1 as int);
    assert(bytes_at(b, parts[0].0 as int, ws[0]));
    // board
    let p0 = parts[0];
    lemma_board_slashes(pos, b, p0.0 as int, p0.1 as int, 7);
    let ranks = slash_scan(b, p0.0 as int, p0.1 as int, p0.0 as int);
    lemma_board_scan(pos, b, ranks, 0, no_pieces());
    lemma_add_board_rebuilds(pos);
    // side
    let p1 = parts[1];
    assert(bytes_at(b, p1.0 as int, ws[1]));
    assert(b[p1.0 as int + 0] == ws[1][0] as u8);
    // castling
    let p2 = parts[2];
    assert(bytes_at(b, p2.0 as int, ws[2]));
    lemma_castling_chars_class(pos.castling);
    assert(b[p2.0 as int + 0] == ws[2][0] as u8);
    if pos.castling != 0 {
        lemma_castling_roundtrip(b, p2.0 as int, pos.castling);
    }
    // en passant
    let p3 = parts[3];
    assert(bytes_at(b, p3.0 as int, ws[3]));
    match pos.ep_square {
        Some(s) => {
            lemma_sq_name_bytes(b, p3.0 as int, s);
        },
        None => {
            assert(b[p3.0 as int + 0] == ws[3][0] as u8);
        },
    }
    // counters
    assert(bytes_at(b, parts[4].0 as int, ws[4]));
    assert(bytes_at(b, parts[5].0 as int, ws[5]));
    lemma_parse_decimal(b, parts[4].0 as int, pos.halfmove);
    lemma_parse_decimal(b, parts[5].0 as int, pos.fullmove);
    let fp = fen_fields(b)->0;
    assert(fp.occ =~= pos.occ);
}

/// Reading back the FEN text of a position gives the position: for every
/// position that its FEN describes exactly (`fen_exact`), `from_fen`
/// accepts the text `to_fen` returns and gives back the same position.
pub proof fn lemma_fen_roundtrip(pos: Position, z: &Zobrist)
    requires
        fen_exact(pos, z),
    ensures
        fen_in_range(encode_utf8(to_fen_spec(pos))),
        fen_spec(encode_utf8(to_fen_spec(pos)), z) == Some(pos),
{
    lemma_fen_fields(pos);
    let fp = fen_fields(encode_utf8(to_fen_spec(pos)))->0;
    lemma_hash_fields(fp, pos, z);
}

} // verus!
