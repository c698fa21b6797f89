//! Bitboard position representation and Zobrist hashing.
//!
//! Square index: 0 = a1, 7 = h1, 8 = a2, ... 63 = h8 (little-endian rank-file).
//! Positions are small `Copy` values: making a move builds a new position
//! rather than mutating and undoing.
use vstd::prelude::*;
use crate::text::push_char;
use crate::movegen::{square_of_bytes, parse_sq_bytes};
use vstd::string::StringSliceAdditionalSpecFns;
use vstd::utf8::{encode_utf8, is_ascii_chars, is_ascii_chars_encode_utf8};
use crate::bits::{is_set, lsb, clear_lsb, lemma_lsb, pop_lsb, lemma_algebra, lemma_and_bit, lemma_u8_low_nibble};

verus! {

pub const WHITE: usize = 0;
pub const BLACK: usize = 1;

pub const PAWN: usize = 0;
pub const KNIGHT: usize = 1;
pub const BISHOP: usize = 2;
pub const ROOK: usize = 3;
pub const QUEEN: usize = 4;
pub const KING: usize = 5;

pub const CASTLE_WK: u8 = 1;
pub const CASTLE_WQ: u8 = 2;
pub const CASTLE_BK: u8 = 4;
pub const CASTLE_BQ: u8 = 8;

pub const FILE_A: u64 = 0x0101010101010101;
pub const FILE_H: u64 = 0x8080808080808080;
pub const RANK_1: u64 = 0x00000000000000FF;
pub const RANK_2: u64 = 0x000000000000FF00;
pub const RANK_4: u64 = 0x00000000FF000000;
pub const RANK_5: u64 = 0x000000FF00000000;
pub const RANK_7: u64 = 0x00FF000000000000;
pub const RANK_8: u64 = 0xFF00000000000000;

pub const PROMO_NONE: u8 = 0;
pub const PROMO_N: u8 = 1;
pub const PROMO_B: u8 = 2;
pub const PROMO_R: u8 = 3;
pub const PROMO_Q: u8 = 4;

pub const FLAG_NORMAL: u8 = 0;
pub const FLAG_DOUBLE: u8 = 1;
pub const FLAG_EP: u8 = 2;
pub const FLAG_CASTLE_K: u8 = 3;
pub const FLAG_CASTLE_Q: u8 = 4;

/// Square index of a file and rank.
pub fn sq(file: u8, rank: u8) -> (r: u8)
    requires
        rank * 8 + file <= 255,
    ensures
        r == rank * 8 + file,
{
    rank * 8 + file
}

/// File (0 = a .. 7 = h) of a square.
pub fn file_of(s: u8) -> (r: u8)
    ensures
        r == s % 8,
{
    s % 8
}

/// Rank (0 = first rank) of a square.
pub fn rank_of(s: u8) -> (r: u8)
    ensures
        r == s / 8,
{
    s / 8
}

/// A move: origin, destination, promotion piece (0 none, 1 N, 2 B, 3 R, 4 Q)
/// and kind (0 normal, 1 double pawn push, 2 en passant capture,
/// 3 king-side castle, 4 queen-side castle).
#[derive(Clone, Copy, PartialEq, Eq, Debug, Structural)]
pub struct Move {
    pub from: u8,
    pub to: u8,
    pub promo: u8,
    pub flag: u8,
}

/// A chess position: one bitboard per colour and piece type, occupancy
/// summaries, side to move, castling rights, en-passant target, move
/// counters and Zobrist hash.
#[derive(Clone, Copy)]
pub struct Position {
    pub pieces: [[u64; 6]; 2],
    pub occ: [u64; 2],
    pub all_occ: u64,
    pub side: usize,
    pub castling: u8,
    pub ep_square: Option<u8>,
    pub halfmove: u16,
    pub fullmove: u16,
    pub hash: u64,
}

/// Union of the six piece bitboards of one colour.
pub open spec fn union6(a: [u64; 6]) -> u64 {
    (((((0u64 | a[0]) | a[1]) | a[2]) | a[3]) | a[4]) | a[5]
}

/// The occupancy fields agree with the piece bitboards.
pub open spec fn occ_consistent(pos: Position) -> bool {
    &&& pos.occ[0] == union6(pos.pieces[0])
    &&& pos.occ[1] == union6(pos.pieces[1])
    &&& pos.all_occ == pos.occ[0] | pos.occ[1]
}

/// The first colour and piece type, in the order (white pawn, white knight,
/// ..., black king), whose bitboard holds square `s`, starting at index `i`.
pub open spec fn piece_at_from(pos: Position, s: int, i: int) -> Option<(usize, usize)>
    decreases 12 - i,
{
    if i < 0 || i >= 12 {
        None
    } else if is_set(pos.pieces[i / 6][i % 6], s) {
        Some(((i / 6) as usize, (i % 6) as usize))
    } else {
        piece_at_from(pos, s, i + 1)
    }
}

/// Colour and type of the piece on `s`, if any.
pub open spec fn piece_at_spec(pos: Position, s: int) -> Option<(usize, usize)> {
    piece_at_from(pos, s, 0)
}

/// One step of the xorshift64 generator used for the Zobrist keys.
pub open spec fn xorshift_step(x: u64) -> u64 {
    let x1 = x ^ (x << 13u64);
    let x2 = x1 ^ (x1 >> 7u64);
    x2 ^ (x2 << 17u64)
}

/// Seed of the Zobrist key generator.
pub const ZOBRIST_SEED: u64 = 0x9E3779B97F4A7C15;

/// State of the Zobrist key generator after `n` steps.
pub open spec fn xorshift_nth(n: nat) -> u64
    decreases n,
{
    if n == 0 {
        ZOBRIST_SEED
    } else {
        xorshift_step(xorshift_nth((n - 1) as nat))
    }
}

fn xorshift64(state: &mut u64) -> (r: u64)
    ensures
        r == xorshift_step(*old(state)),
        *final(state) == r,
{
    let mut x = *state;
    x ^= x << 13;
    x ^= x >> 7;
    x ^= x << 17;
    *state = x;
    x
}

/// Zobrist hash keys: one per (colour, piece, square), one for the side to
/// move, one per castling-rights value and one per en-passant file.
pub struct Zobrist {
    pub piece_sq: [[[u64; 64]; 6]; 2],
    pub side: u64,
    pub castling: [u64; 16],
    pub ep_file: [u64; 8],
}

impl Zobrist {
    /// The keys are successive outputs of the xorshift64 generator started
    /// at `ZOBRIST_SEED`: first the piece-square keys (colour, then piece,
    /// then square), then the side key, the castling keys and the
    /// en-passant keys.
    pub open spec fn is_standard(&self) -> bool {
        &&& forall|c: int, p: int, s: int|
            0 <= c < 2 && 0 <= p < 6 && 0 <= s < 64 ==> #[trigger] self.piece_sq[c][p][s]
                == xorshift_nth((1 + 384 * c + 64 * p + s) as nat)
        &&& self.side == xorshift_nth(769)
        &&& forall|i: int| 0 <= i < 16 ==> #[trigger] self.castling[i] == xorshift_nth((770 + i) as nat)
        &&& forall|i: int| 0 <= i < 8 ==> #[trigger] self.ep_file[i] == xorshift_nth((786 + i) as nat)
    }

    /// Generates the standard key set.
    pub fn new() -> (z: Self)
        ensures
            z.is_standard(),
    {
        let mut state: u64 = ZOBRIST_SEED;
        let mut piece_sq = [[[0u64; 64]; 6]; 2];
        let ghost mut n: nat = 0;
        for c in 0..2usize
            invariant
                n == 384 * c,
                state == xorshift_nth(n),
                forall|c2: int, p: int, s: int|
                    0 <= c2 < c && 0 <= p < 6 && 0 <= s < 64 ==> #[trigger] piece_sq[c2][p][s]
                        == xorshift_nth((1 + 384 * c2 + 64 * p + s) as nat),
        {
            for p in 0..6usize
                invariant
                    c < 2,
                    n == 384 * c + 64 * p,
                    state == xorshift_nth(n),
                    forall|c2: int, p2: int, s: int|
                        0 <= c2 < c && 0 <= p2 < 6 && 0 <= s < 64 ==> #[trigger] piece_sq[c2][p2][s]
                            == xorshift_nth((1 + 384 * c2 + 64 * p2 + s) as nat),
                    forall|p2: int, s: int|
                        0 <= p2 < p && 0 <= s < 64 ==> #[trigger] piece_sq[c as int][p2][s]
                            == xorshift_nth((1 + 384 * c + 64 * p2 + s) as nat),
            {
                for s in 0..64usize
                    invariant
                        c < 2,
                        p < 6,
                        n == 384 * c + 64 * p + s,
                        state == xorshift_nth(n),
                        forall|c2: int, p2: int, s2: int|
                            0 <= c2 < c && 0 <= p2 < 6 && 0 <= s2 < 64 ==> #[trigger] piece_sq[c2][p2][s2]
                                == xorshift_nth((1 + 384 * c2 + 64 * p2 + s2) as nat),
                        forall|p2: int, s2: int|
                            0 <= p2 < p && 0 <= s2 < 64 ==> #[trigger] piece_sq[c as int][p2][s2]
                                == xorshift_nth((1 + 384 * c + 64 * p2 + s2) as nat),
                        forall|s2: int|
                            0 <= s2 < s ==> #[trigger] piece_sq[c as int][p as int][s2]
                                == xorshift_nth((1 + 384 * c + 64 * p + s2) as nat),
                {
                    let k = xorshift64(&mut state);
                    piece_sq[c][p][s] = k;
                    proof {
                        n = n + 1;
                    }
                }
            }
        }
        let side = xorshift64(&mut state);
        proof {
            n = n + 1;
        }
        let mut castling = [0u64; 16];
        for i in 0..16usize
            invariant
                n == 769 + i,
                state == xorshift_nth(n),
                forall|j: int| 0 <= j < i ==> #[trigger] castling[j] == xorshift_nth((770 + j) as nat),
        {
            castling[i] = xorshift64(&mut state);
            proof {
                n = n + 1;
            }
        }
        let mut ep_file = [0u64; 8];
        for i in 0..8usize
            invariant
                n == 785 + i,
                state == xorshift_nth(n),
                forall|j: int| 0 <= j < i ==> #[trigger] ep_file[j] == xorshift_nth((786 + j) as nat),
        {
            ep_file[i] = xorshift64(&mut state);
            proof {
                n = n + 1;
            }
        }
        Zobrist { piece_sq, side, castling, ep_file }
    }
}

/// The standard Zobrist key set.
pub fn zobrist() -> (z: Zobrist)
    ensures
        z.is_standard(),
{
    Zobrist::new()
}

/// XOR of the keys of the squares set in `bb`.
pub open spec fn xor_keys(bb: u64, keys: [u64; 64]) -> u64
    decreases bb,
{
    if bb == 0 {
        0
    } else {
        proof {
            lemma_lsb(bb);
        }
        keys[lsb(bb)] ^ xor_keys(clear_lsb(bb), keys)
    }
}

/// XOR of the piece-square keys of the first `i` (colour, piece) bitboards.
pub open spec fn pieces_hash(pos: Position, z: &Zobrist, i: int) -> u64
    decreases i,
{
    if i <= 0 {
        0
    } else {
        pieces_hash(pos, z, i - 1) ^ xor_keys(
            pos.pieces[(i - 1) / 6][(i - 1) % 6],
            z.piece_sq[(i - 1) / 6][(i - 1) % 6],
        )
    }
}

/// The Zobrist hash of a position under key set `z`.
pub open spec fn hash_spec(pos: Position, z: &Zobrist) -> u64 {
    let h0 = pieces_hash(pos, z, 12);
    let h1 = if pos.side == BLACK { h0 ^ z.side } else { h0 };
    let h2 = h1 ^ z.castling[(pos.castling & 0xF) as int];
    match pos.ep_square {
        Some(e) => h2 ^ z.ep_file[(e % 8) as int],
        None => h2,
    }
}

proof fn lemma_pieces_hash_fields(p: Position, q: Position, z: &Zobrist, i: int)
    requires
        p.pieces == q.pieces,
    ensures
        pieces_hash(p, z, i) == pieces_hash(q, z, i),
    decreases i,
{
    if i > 0 {
        lemma_pieces_hash_fields(p, q, z, i - 1);
    }
}

/// The hash depends only on the pieces, the side to move, the castling
/// rights and the en-passant square.
pub proof fn lemma_hash_fields(p: Position, q: Position, z: &Zobrist)
    requires
        p.pieces == q.pieces,
        p.side == q.side,
        p.castling == q.castling,
        p.ep_square == q.ep_square,
    ensures
        hash_spec(p, z) == hash_spec(q, z),
{
    lemma_pieces_hash_fields(p, q, z, 12);
}

impl Position {
    /// Zobrist hash of this position.
    pub fn compute_hash(&self, z: &Zobrist) -> (h: u64)
        ensures
            h == hash_spec(*self, z),
    {
        let mut h = 0u64;
        for c in 0..2usize
            invariant
                h == pieces_hash(*self, z, 6 * c),
        {
            for p in 0..6usize
                invariant
                    c < 2,
                    h == pieces_hash(*self, z, 6 * c + p),
            {
                let mut bb = self.pieces[c][p];
                let ghost h0 = h;
                while bb != 0
                    invariant
                        c < 2,
                        p < 6,
                        h ^ xor_keys(bb, z.piece_sq[c as int][p as int]) == h0 ^ xor_keys(
                            self.pieces[c as int][p as int],
                            z.piece_sq[c as int][p as int],
                        ),
                    decreases bb,
                {
                    proof {
                        lemma_lsb(bb);
                    }
                    let ghost bb0 = bb;
                    let s = pop_lsb(&mut bb);
                    proof {
                        lemma_algebra(h, z.piece_sq[c as int][p as int][s as int], xor_keys(bb, z.piece_sq[c as int][p as int]));
                    }
                    h ^= z.piece_sq[c][p][s as usize];
                }
                proof {
                    lemma_algebra(h, 0, 0);
                    assert(6 * c + p + 1 - 1 == 6 * c + p);
                    assert((6 * c + p) / 6 == c);
                    assert((6 * c + p) % 6 == p);
                }
            }
        }
        if self.side == BLACK {
            h ^= z.side;
        }
        proof {
            lemma_u8_low_nibble(self.castling);
        }
        h ^= z.castling[(self.castling & 0xF) as usize];
        if let Some(epsq) = self.ep_square {
            h ^= z.ep_file[file_of(epsq) as usize];
        }
        h
    }

    /// Colour and type of the piece on square `s`, if any.
    pub fn piece_at(&self, s: u8) -> (r: Option<(usize, usize)>)
        requires
            s < 64,
        ensures
            r == piece_at_spec(*self, s as int),
            r matches Some((c, p)) ==> c < 2 && p < 6,
    {
        let bit = 1u64 << s;
        for c in 0..2usize
            invariant
                s < 64,
                bit == crate::bits::bit(s as int),
                piece_at_spec(*self, s as int) == piece_at_from(*self, s as int, 6 * c),
        {
            for p in 0..6usize
                invariant
                    c < 2,
                    s < 64,
                    bit == crate::bits::bit(s as int),
                    piece_at_spec(*self, s as int) == piece_at_from(*self, s as int, 6 * c + p),
            {
                proof {
                    lemma_and_bit(self.pieces[c as int][p as int], s as int);
                    assert((6 * c + p) / 6 == c);
                    assert((6 * c + p) % 6 == p);
                }
                if self.pieces[c][p] & bit != 0 {
                    return Some((c, p));
                }
            }
        }
        None
    }

    /// Recomputes the occupancy bitboards from the piece bitboards.
    pub fn recompute_occ(&mut self)
        ensures
            final(self).pieces == old(self).pieces,
            final(self).side == old(self).side,
            final(self).castling == old(self).castling,
            final(self).ep_square == old(self).ep_square,
            final(self).halfmove == old(self).halfmove,
            final(self).fullmove == old(self).fullmove,
            final(self).hash == old(self).hash,
            occ_consistent(*final(self)),
    {
        let w = self.pieces[WHITE];
        let b = self.pieces[BLACK];
        self.occ[WHITE] = 0u64 | w[0] | w[1] | w[2] | w[3] | w[4] | w[5];
        self.occ[BLACK] = 0u64 | b[0] | b[1] | b[2] | b[3] | b[4] | b[5];
        self.all_occ = self.occ[WHITE] | self.occ[BLACK];
    }
}

/// Name of a square: file letter then rank digit (`"e4"`).
pub open spec fn sq_name_spec(s: int) -> Seq<char> {
    seq![(97 + s % 8) as char, (49 + s / 8) as char]
}

pub fn push_sq_name(out: &mut String, s: u8)
    ensures
        final(out)@ == old(out)@ + sq_name_spec(s as int),
{
    let f = (97u8 + file_of(s)) as char;
    let r = (49u8 + rank_of(s)) as char;
    push_char(out, f);
    push_char(out, r);
    assert(out@ =~= old(out)@ + sq_name_spec(s as int));
}

/// Name of a square (`"e4"`).
pub fn sq_name(s: u8) -> (r: String)
    ensures
        r@ == sq_name_spec(s as int),
{
    let mut out = String::new();
    push_sq_name(&mut out, s);
    assert(out@ =~= sq_name_spec(s as int));
    out
}

/// Square named by the first two bytes of a string (`"e4"`), if on the board.
pub open spec fn parse_sq_spec(bytes: Seq<u8>) -> Option<u8> {
    if bytes.len() < 2 {
        None
    } else {
        square_of_bytes(bytes[0], bytes[1])
    }
}

/// Parses a square name (`"e4"`); only the first two bytes are read.
pub fn parse_sq(name: &str) -> (r: Option<u8>)
    ensures
        r == parse_sq_spec(name.spec_bytes()),
        r matches Some(s) ==> s < 64,
{
    let b = name.as_bytes();
    if b.len() < 2 {
        return None;
    }
    parse_sq_bytes(b[0], b[1])
}

/// Suffix naming a promotion piece in UCI notation.
pub open spec fn promo_suffix(promo: u8) -> Seq<char> {
    if promo == PROMO_N {
        seq!['n']
    } else if promo == PROMO_B {
        seq!['b']
    } else if promo == PROMO_R {
        seq!['r']
    } else if promo == PROMO_Q {
        seq!['q']
    } else {
        Seq::empty()
    }
}

/// UCI text of a move: origin, destination, promotion piece (`"e7e8q"`).
pub open spec fn uci_spec(m: Move) -> Seq<char> {
    sq_name_spec(m.from as int) + sq_name_spec(m.to as int) + promo_suffix(m.promo)
}

impl Move {
    /// The move in UCI notation (`"e2e4"`, `"e7e8q"`).
    pub fn to_uci(&self) -> (r: String)
        ensures
            r@ == uci_spec(*self),
    {
        let mut out = String::new();
        push_sq_name(&mut out, self.from);
        push_sq_name(&mut out, self.to);
        if self.promo == PROMO_N {
            push_char(&mut out, 'n');
        } else if self.promo == PROMO_B {
            push_char(&mut out, 'b');
        } else if self.promo == PROMO_R {
            push_char(&mut out, 'r');
        } else if self.promo == PROMO_Q {
            push_char(&mut out, 'q');
        }
        assert(out@ =~= uci_spec(*self));
        out
    }
}

/// Reading back the name of a square gives the square: `parse_sq` of the
/// text `sq_name` returns is `Some(s)` for every square `s`.
pub proof fn lemma_sq_name_roundtrip(s: u8)
    requires
        s < 64,
    ensures
        parse_sq_spec(encode_utf8(sq_name_spec(s as int))) == Some(s),
{
    let c = sq_name_spec(s as int);
    assert(is_ascii_chars(c));
    is_ascii_chars_encode_utf8(c);
    let b = encode_utf8(c);
    assert(b[0] == (97 + s % 8) as u8);
    assert(b[1] == (49 + s / 8) as u8);
    assert(b[0].wrapping_sub(97) == s % 8);
    assert(b[1].wrapping_sub(49) == s / 8);
}

} // verus!
