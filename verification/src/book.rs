//! Opening book: well-known opening lines, keyed by position (Zobrist
//! hash) rather than by move sequence, so that a transposition into a book
//! position still finds it.
use vstd::prelude::*;
use std::collections::HashMap;
use vstd::string::StringSliceAdditionalSpecFns;
use vstd::utf8::is_char_boundary;
use crate::board::{Move, Position, Zobrist};
use crate::movegen::{
    Tables, parse_uci_move, make_move, make_move_spec, uci_move_spec, legal_ok, legal_moves,
    can_generate_legal, pseudo_moves, make_ok, find_move,
};
use crate::perft::lemma_legal_move_makeable;
use crate::fen::startpos_spec;

verus! {

broadcast use vstd::std_specs::hash::group_hash_axioms;

/// The text of opening line `i`: one UCI move text per move.
pub open spec fn book_line(i: int) -> Seq<Seq<u8>> {
    if i == 0 {
        // Italian Game
        seq!["e2e4".spec_bytes(), "e7e5".spec_bytes(), "g1f3".spec_bytes(), "b8c6".spec_bytes(), "f1c4".spec_bytes(), "f8c5".spec_bytes(), "c2c3".spec_bytes(), "g8f6".spec_bytes(), "d2d3".spec_bytes()]
    } else if i == 1 {
        // Ruy Lopez, Morphy Defense
        seq!["e2e4".spec_bytes(), "e7e5".spec_bytes(), "g1f3".spec_bytes(), "b8c6".spec_bytes(), "f1b5".spec_bytes(), "a7a6".spec_bytes(), "b5a4".spec_bytes(), "g8f6".spec_bytes(), "e1g1".spec_bytes(), "f8e7".spec_bytes()]
    } else if i == 2 {
        // Scotch Game
        seq!["e2e4".spec_bytes(), "e7e5".spec_bytes(), "g1f3".spec_bytes(), "b8c6".spec_bytes(), "d2d4".spec_bytes(), "e5d4".spec_bytes(), "f3d4".spec_bytes(), "g8f6".spec_bytes()]
    } else if i == 3 {
        // Open Sicilian, Najdorf setup
        seq!["e2e4".spec_bytes(), "c7c5".spec_bytes(), "g1f3".spec_bytes(), "d7d6".spec_bytes(), "d2d4".spec_bytes(), "c5d4".spec_bytes(), "f3d4".spec_bytes(), "g8f6".spec_bytes(), "b1c3".spec_bytes(), "a7a6".spec_bytes()]
    } else if i == 4 {
        // Open Sicilian, Dragon setup
        seq!["e2e4".spec_bytes(), "c7c5".spec_bytes(), "g1f3".spec_bytes(), "d7d6".spec_bytes(), "d2d4".spec_bytes(), "c5d4".spec_bytes(), "f3d4".spec_bytes(), "g8f6".spec_bytes(), "b1c3".spec_bytes(), "g7g6".spec_bytes()]
    } else if i == 5 {
        // Caro-Kann
        seq!["e2e4".spec_bytes(), "c7c6".spec_bytes(), "d2d4".spec_bytes(), "d7d5".spec_bytes(), "b1c3".spec_bytes(), "d5e4".spec_bytes(), "c3e4".spec_bytes(), "c8f5".spec_bytes()]
    } else if i == 6 {
        // French Defense
        seq!["e2e4".spec_bytes(), "e7e6".spec_bytes(), "d2d4".spec_bytes(), "d7d5".spec_bytes(), "b1c3".spec_bytes(), "g8f6".spec_bytes(), "c1g5".spec_bytes(), "f8e7".spec_bytes()]
    } else if i == 7 {
        // Queen's Gambit Declined
        seq!["d2d4".spec_bytes(), "d7d5".spec_bytes(), "c2c4".spec_bytes(), "e7e6".spec_bytes(), "b1c3".spec_bytes(), "g8f6".spec_bytes(), "c1g5".spec_bytes(), "f8e7".spec_bytes()]
    } else if i == 8 {
        // Slav Defense
        seq!["d2d4".spec_bytes(), "d7d5".spec_bytes(), "c2c4".spec_bytes(), "c7c6".spec_bytes(), "g1f3".spec_bytes(), "g8f6".spec_bytes(), "b1c3".spec_bytes(), "d5c4".spec_bytes()]
    } else if i == 9 {
        // King's Indian Defense
        seq!["d2d4".spec_bytes(), "g8f6".spec_bytes(), "c2c4".spec_bytes(), "g7g6".spec_bytes(), "b1c3".spec_bytes(), "f8g7".spec_bytes(), "e2e4".spec_bytes(), "d7d6".spec_bytes()]
    } else if i == 10 {
        // Nimzo-Indian
        seq!["d2d4".spec_bytes(), "g8f6".spec_bytes(), "c2c4".spec_bytes(), "e7e6".spec_bytes(), "b1c3".spec_bytes(), "f8b4".spec_bytes()]
    } else {
        // English Opening
        seq!["c2c4".spec_bytes(), "e7e5".spec_bytes(), "b1c3".spec_bytes(), "g8f6".spec_bytes(), "g1f3".spec_bytes(), "b8c6".spec_bytes()]
    }
}

/// The text of the opening lines.
pub open spec fn book_text() -> Seq<Seq<Seq<u8>>> {
    Seq::new(12, |i: int| book_line(i))
}

/// Opening line `i`, in UCI notation (see `book_line`).
fn opening_line(i: usize) -> (l: Vec<&'static str>)
    requires
        i < 12,
    ensures
        line_bytes(l@) == book_line(i as int),
{
    if i == 0 {
        // Italian Game
        let l = vec!["e2e4", "e7e5", "g1f3", "b8c6", "f1c4", "f8c5", "c2c3", "g8f6", "d2d3"];
        assert(line_bytes(l@) =~= book_line(0));
        l
    } else if i == 1 {
        // Ruy Lopez, Morphy Defense
        let l = vec!["e2e4", "e7e5", "g1f3", "b8c6", "f1b5", "a7a6", "b5a4", "g8f6", "e1g1", "f8e7"];
        assert(line_bytes(l@) =~= book_line(1));
        l
    } else if i == 2 {
        // Scotch Game
        let l = vec!["e2e4", "e7e5", "g1f3", "b8c6", "d2d4", "e5d4", "f3d4", "g8f6"];
        assert(line_bytes(l@) =~= book_line(2));
        l
    } else if i == 3 {
        // Open Sicilian, Najdorf setup
        let l = vec!["e2e4", "c7c5", "g1f3", "d7d6", "d2d4", "c5d4", "f3d4", "g8f6", "b1c3", "a7a6"];
        assert(line_bytes(l@) =~= book_line(3));
        l
    } else if i == 4 {
        // Open Sicilian, Dragon setup
        let l = vec!["e2e4", "c7c5", "g1f3", "d7d6", "d2d4", "c5d4", "f3d4", "g8f6", "b1c3", "g7g6"];
        assert(line_bytes(l@) =~= book_line(4));
        l
    } else if i == 5 {
        // Caro-Kann
        let l = vec!["e2e4", "c7c6", "d2d4", "d7d5", "b1c3", "d5e4", "c3e4", "c8f5"];
        assert(line_bytes(l@) =~= book_line(5));
        l
    } else if i == 6 {
        // French Defense
        let l = vec!["e2e4", "e7e6", "d2d4", "d7d5", "b1c3", "g8f6", "c1g5", "f8e7"];
        assert(line_bytes(l@) =~= book_line(6));
        l
    } else if i == 7 {
        // Queen's Gambit Declined
        let l = vec!["d2d4", "d7d5", "c2c4", "e7e6", "b1c3", "g8f6", "c1g5", "f8e7"];
        assert(line_bytes(l@) =~= book_line(7));
        l
    } else if i == 8 {
        // Slav Defense
        let l = vec!["d2d4", "d7d5", "c2c4", "c7c6", "g1f3", "g8f6", "b1c3", "d5c4"];
        assert(line_bytes(l@) =~= book_line(8));
        l
    } else if i == 9 {
        // King's Indian Defense
        let l = vec!["d2d4", "g8f6", "c2c4", "g7g6", "b1c3", "f8g7", "e2e4", "d7d6"];
        assert(line_bytes(l@) =~= book_line(9));
        l
    } else if i == 10 {
        // Nimzo-Indian
        let l = vec!["d2d4", "g8f6", "c2c4", "e7e6", "b1c3", "f8b4"];
        assert(line_bytes(l@) =~= book_line(10));
        l
    } else {
        // English Opening
        let l = vec!["c2c4", "e7e5", "b1c3", "g8f6", "g1f3", "b8c6"];
        assert(line_bytes(l@) =~= book_line(11));
        l
    }
}

/// The opening lines, in UCI notation (see `book_text`).
pub fn book_lines() -> (lines: Vec<Vec<&'static str>>)
    ensures
        lines_bytes(lines@) == book_text(),
{
    let mut lines: Vec<Vec<&'static str>> = Vec::new();
    for i in 0..12usize
        invariant
            lines@.len() == i,
            forall|k: int| 0 <= k < i ==> line_bytes(#[trigger] lines@[k]@) == book_line(k),
    {
        lines.push(opening_line(i));
    }
    assert(lines_bytes(lines@) =~= book_text());
    lines
}

/// The book after recording `mv` as a candidate for the position with hash `h`.
pub open spec fn add_candidate(book: Map<u64, Seq<Move>>, h: u64, mv: Move) -> Map<u64, Seq<Move>> {
    let cands = if book.contains_key(h) { book[h] } else { Seq::empty() };
    book.insert(h, if cands.contains(mv) { cands } else { cands.push(mv) })
}

/// Replays the moves `line[j..]` from `pos`, recording each as a candidate
/// for the position it is played from. Replay stops at the first move that
/// is not a legal move of the position (or that cannot be read).
pub open spec fn replay_line(z: &Zobrist, pos: Position, line: Seq<Seq<u8>>, j: int, book: Map<u64, Seq<Move>>) -> Map<u64, Seq<Move>>
    decreases line.len() - j,
{
    if j < 0 || j >= line.len() {
        book
    } else {
        match book_step_spec(z, pos, line[j]) {
            None => book,
            Some(mv) => replay_line(z, make_move_spec(pos, mv, z), line, j + 1, add_candidate(book, pos.hash, mv)),
        }
    }
}

/// Replays the lines `lines[i..]`, each from `start`.
pub open spec fn replay_book(z: &Zobrist, start: Position, lines: Seq<Seq<Seq<u8>>>, i: int, book: Map<u64, Seq<Move>>) -> Map<u64, Seq<Move>>
    decreases lines.len() - i,
{
    if i < 0 || i >= lines.len() {
        book
    } else {
        replay_book(z, start, lines, i + 1, replay_line(z, start, lines[i], 0, book))
    }
}

/// The byte texts of the moves of a line.
pub open spec fn line_bytes(line: Seq<&str>) -> Seq<Seq<u8>> {
    Seq::new(line.len(), |j: int| line[j].spec_bytes())
}

/// The byte texts of a set of lines.
pub open spec fn lines_bytes(lines: Seq<Vec<&str>>) -> Seq<Seq<Seq<u8>>> {
    Seq::new(lines.len(), |i: int| line_bytes(lines[i]@))
}

/// Every candidate list of the book is non-empty.
pub open spec fn book_nonempty(book: Map<u64, Seq<Move>>) -> bool {
    forall|h: u64| book.contains_key(h) ==> #[trigger] book[h].len() > 0
}

/// The candidate lists of a book map.
pub open spec fn map_view(m: Map<u64, Vec<Move>>) -> Map<u64, Seq<Move>> {
    m.map_values(|v: Vec<Move>| v@)
}

proof fn lemma_find_move_in(ms: Seq<Move>, from: u8, to: u8, promo: u8, i: int)
    ensures
        find_move(ms, from, to, promo, i) matches Some(m) ==> ms.contains(m),
    decreases ms.len() - i,
{
    if 0 <= i < ms.len() {
        lemma_find_move_in(ms, from, to, promo, i + 1);
    }
}

pub(crate) fn contains_move(v: &Vec<Move>, m: Move) -> (r: bool)
    ensures
        r == v@.contains(m),
{
    let mut i: usize = 0;
    while i < v.len()
        invariant
            forall|k: int| 0 <= k < i ==> v@[k] != m,
        decreases v.len() - i,
    {
        if v[i] == m {
            return true;
        }
        i += 1;
    }
    false
}

/// The move a book line continues with from `pos`, or `None` where the
/// replay of the line stops.
pub open spec fn book_step_spec(z: &Zobrist, pos: Position, b: Seq<u8>) -> Option<Move> {
    if !legal_ok(pos, z) || (b.len() >= 4 && !(is_char_boundary(b, 2) && is_char_boundary(b, 4))) {
        None
    } else {
        uci_move_spec(pos, z, b)
    }
}

/// Whether a UCI move text can be cut at bytes 2 and 4 (when it has four).
fn uci_text_ok(s: &str) -> (r: bool)
    ensures
        r == (s.spec_bytes().len() >= 4 ==> is_char_boundary(s.spec_bytes(), 2) && is_char_boundary(
            s.spec_bytes(),
            4,
        )),
{
    let n = s.as_bytes().len();
    if n >= 4 {
        let b2 = s.is_char_boundary(2);
        let b4 = s.is_char_boundary(4);
        b2 && b4
    } else {
        true
    }
}

fn book_step(t: &Tables, z: &Zobrist, pos: &Position, mv_str: &str) -> (r: Option<Move>)
    requires
        t.wf(),
    ensures
        r == book_step_spec(z, *pos, mv_str.spec_bytes()),
        r matches Some(mv) ==> make_ok(*pos, mv),
{
    if !uci_text_ok(mv_str) {
        return None;
    }
    if !can_generate_legal(t, z, pos) {
        return None;
    }
    let r = parse_uci_move(t, z, pos, mv_str);
    if let Some(mv) = r {
        proof {
            lemma_legal_move_makeable(*pos, z, mv);
        }
    }
    r
}

fn record_candidate(map: &mut HashMap<u64, Vec<Move>>, h: u64, mv: Move)
    requires
        book_nonempty(map_view(old(map)@)),
    ensures
        map_view(final(map)@) == add_candidate(map_view(old(map)@), h, mv),
        book_nonempty(map_view(final(map)@)),
{
    let mut candidates: Vec<Move> = match map.get(&h) {
        Some(v) => v.clone(),
        None => Vec::new(),
    };
    assert(candidates@ =~= (if map@.contains_key(h) { map@[h]@ } else { Seq::empty() }));
    if !contains_move(&candidates, mv) {
        candidates.push(mv);
    }
    let ghost before = map_view(map@);
    map.insert(h, candidates);
    assert(map_view(map@) =~= add_candidate(before, h, mv));
}

/// Builds the book from `lines`, each replayed from the initial position.
pub fn build_book(t: &Tables, z: &Zobrist, lines: &Vec<Vec<&str>>) -> (map: HashMap<u64, Vec<Move>>)
    requires
        t.wf(),
    ensures
        map_view(map@) == replay_book(z, startpos_spec(z), lines_bytes(lines@), 0, Map::empty()),
        book_nonempty(map_view(map@)),
{
    let mut map: HashMap<u64, Vec<Move>> = HashMap::new();
    assert(map_view(map@) =~= Map::empty());
    let ghost lb = lines_bytes(lines@);
    let mut i: usize = 0;
    while i < lines.len()
        invariant
            t.wf(),
            lb == lines_bytes(lines@),
            i <= lines.len(),
            book_nonempty(map_view(map@)),
            replay_book(z, startpos_spec(z), lb, 0, Map::empty()) == replay_book(
                z,
                startpos_spec(z),
                lb,
                i as int,
                map_view(map@),
            ),
        decreases lines.len() - i,
    {
        let line = &lines[i];
        let mut pos = Position::startpos(z);
        let ghost book_i = map_view(map@);
        let mut j: usize = 0;
        while j < line.len()
            invariant_except_break
                t.wf(),
                i < lines.len(),
                line@ == lines@[i as int]@,
                lb == lines_bytes(lines@),
                j <= line.len(),
                book_nonempty(map_view(map@)),
                replay_line(z, startpos_spec(z), lb[i as int], 0, book_i) == replay_line(
                    z,
                    pos,
                    lb[i as int],
                    j as int,
                    map_view(map@),
                ),
            ensures
                book_nonempty(map_view(map@)),
                replay_line(z, startpos_spec(z), lb[i as int], 0, book_i) == map_view(map@),
            decreases line.len() - j,
        {
            let mv_str = line[j];
            assert(lb[i as int][j as int] == mv_str.spec_bytes());
            let mv = match book_step(t, z, &pos, mv_str) {
                Some(m) => m,
                None => {
                    break;
                },
            };
            record_candidate(&mut map, pos.hash, mv);
            pos = make_move(z, &pos, &mv);
            j += 1;
        }
        i += 1;
    }
    map
}

/// The opening book: for each position hash on a book line, the moves the
/// lines continue with, without repeats, in line order.
pub fn book_map(t: &Tables, z: &Zobrist) -> (map: HashMap<u64, Vec<Move>>)
    requires
        t.wf(),
    ensures
        map_view(map@) == replay_book(z, startpos_spec(z), book_text(), 0, Map::empty()),
        book_nonempty(map_view(map@)),
{
    let lines = book_lines();
    build_book(t, z, &lines)
}

/// The book move for a position with hash `hash`: the candidate at index
/// `now_ms mod (number of candidates)`, or `None` off the book.
pub open spec fn book_move_spec(book: Map<u64, Seq<Move>>, hash: u64, now_ms: u64) -> Option<Move> {
    if book.contains_key(hash) {
        let c = book[hash];
        Some(c[(now_ms as usize) as int % c.len() as int])
    } else {
        None
    }
}

/// A book move for `pos`, if a book line passes through a position with its
/// hash. Among several candidates the time in milliseconds picks one, so
/// that different known lines get played across games.
pub fn book_move(book: &HashMap<u64, Vec<Move>>, pos: &Position, now_ms: u64) -> (r: Option<Move>)
    requires
        book_nonempty(map_view(book@)),
    ensures
        r == book_move_spec(map_view(book@), pos.hash, now_ms),
{
    let candidates = match book.get(&pos.hash) {
        Some(c) => c,
        None => {
            return None;
        },
    };
    assert(map_view(book@).contains_key(pos.hash));
    let idx = (now_ms as usize) % candidates.len();
    Some(candidates[idx])
}

/// The position reached from `start` by reading and playing the first `j`
/// moves of `line` (as far as they can be read).
pub open spec fn line_pos(z: &Zobrist, start: Position, line: Seq<Seq<u8>>, j: int) -> Position
    decreases j,
{
    if j <= 0 {
        start
    } else {
        let p = line_pos(z, start, line, j - 1);
        match book_step_spec(z, p, line[j - 1]) {
            Some(mv) => make_move_spec(p, mv, z),
            None => p,
        }
    }
}

/// Whether the first `n` moves of `line` can all be read and played in turn
/// from `start`.
pub open spec fn line_readable(z: &Zobrist, start: Position, line: Seq<Seq<u8>>, n: int) -> bool {
    forall|k: int| 0 <= k < n ==> #[trigger] book_step_spec(z, line_pos(z, start, line, k), line[k]) is Some
}

/// Whether `b` holds every candidate `a` holds.
pub open spec fn book_within(a: Map<u64, Seq<Move>>, b: Map<u64, Seq<Move>>) -> bool {
    forall|h: u64, m: Move| a.contains_key(h) && #[trigger] a[h].contains(m) ==> b.contains_key(h) && b[h].contains(m)
}

proof fn lemma_add_candidate_within(book: Map<u64, Seq<Move>>, h: u64, mv: Move)
    ensures
        book_within(book, add_candidate(book, h, mv)),
        add_candidate(book, h, mv).contains_key(h) && add_candidate(book, h, mv)[h].contains(mv),
{
    let cands = if book.contains_key(h) { book[h] } else { Seq::empty() };
    let nb = add_candidate(book, h, mv);
    if !cands.contains(mv) {
        assert(cands.push(mv)[cands.len() as int] == mv);
        assert forall|m: Move| cands.contains(m) implies cands.push(mv).contains(m) by {
            let k = choose|k: int| 0 <= k < cands.len() && cands[k] == m;
            assert(cands.push(mv)[k] == m);
        }
    }
}

proof fn lemma_replay_line_within(z: &Zobrist, pos: Position, line: Seq<Seq<u8>>, j: int, book: Map<u64, Seq<Move>>)
    ensures
        book_within(book, replay_line(z, pos, line, j, book)),
    decreases line.len() - j,
{
    if 0 <= j < line.len() {
        if let Some(mv) = book_step_spec(z, pos, line[j]) {
            let b1 = add_candidate(book, pos.hash, mv);
            lemma_add_candidate_within(book, pos.hash, mv);
            lemma_replay_line_within(z, make_move_spec(pos, mv, z), line, j + 1, b1);
        }
    }
}

proof fn lemma_replay_book_within(z: &Zobrist, start: Position, lines: Seq<Seq<Seq<u8>>>, i: int, book: Map<u64, Seq<Move>>)
    ensures
        book_within(book, replay_book(z, start, lines, i, book)),
    decreases lines.len() - i,
{
    if 0 <= i < lines.len() {
        let b1 = replay_line(z, start, lines[i], 0, book);
        lemma_replay_line_within(z, start, lines[i], 0, book);
        lemma_replay_book_within(z, start, lines, i + 1, b1);
    }
}

/// Replaying a line from its `k`-th move records, for each later move `j`
/// that can be read, that move as a candidate of the position before it.
proof fn lemma_replay_line_records(
    z: &Zobrist,
    start: Position,
    line: Seq<Seq<u8>>,
    k: int,
    j: int,
    book: Map<u64, Seq<Move>>,
)
    requires
        0 <= k <= j < line.len(),
        line_readable(z, start, line, j + 1),
    ensures
        ({
            let p = line_pos(z, start, line, j);
            let b = replay_line(z, line_pos(z, start, line, k), line, k, book);
            b.contains_key(p.hash) && b[p.hash].contains(book_step_spec(z, p, line[j])->0)
        }),
    decreases j - k,
{
    let pk = line_pos(z, start, line, k);
    assert(book_step_spec(z, line_pos(z, start, line, k), line[k]) is Some);
    let mv = book_step_spec(z, pk, line[k])->0;
    let b1 = add_candidate(book, pk.hash, mv);
    assert(line_pos(z, start, line, k + 1) == make_move_spec(pk, mv, z));
    lemma_add_candidate_within(book, pk.hash, mv);
    if k == j {
        lemma_replay_line_within(z, make_move_spec(pk, mv, z), line, k + 1, b1);
    } else {
        lemma_replay_line_records(z, start, line, k + 1, j, b1);
    }
}

/// Every book line is in the book: for each line and each move `j` of it
/// that can be read after the line's first `j` moves, the position those
/// `j` moves reach from `start` has that move among its candidates.
pub proof fn lemma_book_has_line_moves(z: &Zobrist, start: Position, lines: Seq<Seq<Seq<u8>>>, l: int, j: int)
    requires
        0 <= l < lines.len(),
        0 <= j < lines[l].len(),
        line_readable(z, start, lines[l], j + 1),
    ensures
        ({
            let p = line_pos(z, start, lines[l], j);
            let b = replay_book(z, start, lines, 0, Map::empty());
            b.contains_key(p.hash) && b[p.hash].contains(book_step_spec(z, p, lines[l][j])->0)
        }),
{
    lemma_book_has_line_from(z, start, lines, 0, l, j, Map::empty());
}

proof fn lemma_book_has_line_from(
    z: &Zobrist,
    start: Position,
    lines: Seq<Seq<Seq<u8>>>,
    i: int,
    l: int,
    j: int,
    book: Map<u64, Seq<Move>>,
)
    requires
        0 <= i <= l < lines.len(),
        0 <= j < lines[l].len(),
        line_readable(z, start, lines[l], j + 1),
    ensures
        ({
            let p = line_pos(z, start, lines[l], j);
            let b = replay_book(z, start, lines, i, book);
            b.contains_key(p.hash) && b[p.hash].contains(book_step_spec(z, p, lines[l][j])->0)
        }),
    decreases l - i,
{
    let b1 = replay_line(z, start, lines[i], 0, book);
    if i == l {
        assert(line_pos(z, start, lines[l], 0) == start);
        lemma_replay_line_records(z, start, lines[l], 0, j, book);
        lemma_replay_book_within(z, start, lines, i + 1, b1);
    } else {
        lemma_book_has_line_from(z, start, lines, i + 1, l, j, b1);
    }
}

} // verus!
