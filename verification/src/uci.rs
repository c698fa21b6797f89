//! The UCI-lite protocol: `uci`, `isready`, `ucinewgame`, `setoption name
//! MultiPV value N`, `position startpos|fen ... [moves ...]`, `go [depth N]
//! [movetime N]`, `stop` and `perft N`, with `info ...` and `bestmove ...`
//! replies. The engine state and every command but the search itself are
//! handled here; `go` hands back the limits to search with, and a
//! `GoPlan` drives the searches of a `go` (one per MultiPV line).
use vstd::prelude::*;
use vstd::string::StringExecFns;
use crate::board::{Move, Position, Zobrist, uci_spec};
use crate::movegen::{Tables, uci_move_of, uci_move_spec, legal_ok, legal_moves, make_move, make_move_spec};
use crate::perft::lemma_legal_move_makeable;
use crate::fen::{fen_in_range, fen_spec, fen_bytes_readable, startpos_spec};
use crate::search::{DepthInfo, SearchLimits, Search, SearchOptions, is_fresh, all_options, playable};
use crate::perft::{try_perft, perft_ok, perft_spec};
use crate::fen::ws_tokens;
use crate::text::{push_decimal, push_signed_decimal, decimal, signed_decimal};
use crate::fen::{split_ws, digits_value, all_digits, lemma_digits_value_grows};
use vstd::string::StringSliceAdditionalSpecFns;

verus! {

/// Time budget of every MultiPV line after the first, when the search is
/// timed.
pub const ALT_LINE_MOVETIME_MS: u64 = 750;

/// Depth of a `go` without limits.
pub const DEFAULT_GO_DEPTH: u32 = 6;

/// Most threads a parallel search uses: a shared-table search gains less
/// and less, and then loses to lock contention, well before every core of a
/// big machine is busy.
pub const MAX_SEARCH_THREADS: usize = 4;

/// Number of search threads given `available` worker threads.
pub fn search_threads(available: usize) -> (n: usize)
    ensures
        n == if available < MAX_SEARCH_THREADS { available } else { MAX_SEARCH_THREADS },
{
    if available < MAX_SEARCH_THREADS {
        available
    } else {
        MAX_SEARCH_THREADS
    }
}

/// The UCI texts of `pv`, separated by single spaces.
pub open spec fn pv_text(pv: Seq<Move>) -> Seq<char>
    decreases pv.len(),
{
    if pv.len() == 0 {
        Seq::empty()
    } else if pv.len() == 1 {
        uci_spec(pv[0])
    } else {
        pv_text(pv.drop_last()) + seq![' '] + uci_spec(pv.last())
    }
}

/// `mate N` for a mate score, else `cp N`.
pub open spec fn score_text(mate: Option<i32>, score_cp: i32) -> Seq<char> {
    match mate {
        Some(m) => "mate "@ + signed_decimal(m as int),
        None => "cp "@ + signed_decimal(score_cp as int),
    }
}

/// Nodes per second: nodes * 1000 / milliseconds, or the node count when no
/// time has passed.
pub open spec fn nps_spec(nodes: u64, time_ms: u64) -> nat {
    if time_ms > 0 {
        ((nodes * 1000) / (time_ms as int)) as nat
    } else {
        nodes as nat
    }
}

/// The `info` line of an iteration reported as MultiPV line `multipv`.
pub open spec fn info_text(info: DepthInfo, multipv: usize) -> Seq<char> {
    "info depth "@ + decimal(info.depth as nat) + " score "@ + score_text(info.mate, info.score_cp)
        + " multipv "@ + decimal(multipv as nat) + " nodes "@ + decimal(info.nodes as nat) + " nps "@
        + decimal(nps_spec(info.nodes, info.time_ms)) + " time "@ + decimal(info.time_ms as nat) + " pv "@
        + pv_text(info.pv@)
}

fn push_pv(out: &mut String, pv: &Vec<Move>)
    ensures
        final(out)@ == old(out)@ + pv_text(pv@),
{
    let mut i: usize = 0;
    while i < pv.len()
        invariant
            i <= pv.len(),
            out@ == old(out)@ + pv_text(pv@.take(i as int)),
        decreases pv.len() - i,
    {
        let ghost before = out@;
        if i > 0 {
            out.append(" ");
        }
        let u = pv[i].to_uci();
        out.append(u.as_str());
        proof {
            let s = pv@.take(i + 1);
            assert(s.drop_last() =~= pv@.take(i as int));
            assert(s.last() == pv@[i as int]);
            if i == 0 {
                assert(pv_text(s) == uci_spec(pv@[0]));
                assert(out@ =~= old(out)@ + pv_text(s));
            } else {
                reveal_strlit(" ");
                assert(pv_text(s) == pv_text(pv@.take(i as int)) + seq![' '] + uci_spec(pv@[i as int]));
                assert(out@ =~= old(out)@ + pv_text(s));
            }
        }
        i += 1;
    }
    assert(pv@.take(pv.len() as int) =~= pv@);
}

/// Formats the `info` line of an iteration (see `info_text`).
pub fn format_info(info: &DepthInfo, multipv: usize) -> (s: String)
    requires
        info.time_ms > 0 ==> info.nodes * 1000 <= u64::MAX,
    ensures
        s@ == info_text(*info, multipv),
{
    let mut s = String::new();
    s.append("info depth ");
    push_decimal(&mut s, info.depth as u64);
    s.append(" score ");
    match info.mate {
        Some(m) => {
            s.append("mate ");
            push_signed_decimal(&mut s, m as i64);
        },
        None => {
            s.append("cp ");
            push_signed_decimal(&mut s, info.score_cp as i64);
        },
    }
    s.append(" multipv ");
    push_decimal(&mut s, multipv as u64);
    s.append(" nodes ");
    push_decimal(&mut s, info.nodes);
    let nps = if info.time_ms > 0 {
        info.nodes * 1000 / info.time_ms
    } else {
        info.nodes
    };
    s.append(" nps ");
    push_decimal(&mut s, nps);
    s.append(" time ");
    push_decimal(&mut s, info.time_ms);
    s.append(" pv ");
    push_pv(&mut s, &info.pv);
    assert(s@ =~= info_text(*info, multipv));
    s
}

/// The `info` line announcing a book move with static score `score_cp`.
pub open spec fn book_info_text(score_cp: i32, mv: Move) -> Seq<char> {
    "info depth 0 score cp "@ + signed_decimal(score_cp as int) + " multipv 1 nodes 0 nps 0 time 0 pv "@
        + uci_spec(mv)
}

/// Formats the `info` line of a book move (see `book_info_text`).
pub fn book_info_line(score_cp: i32, mv: &Move) -> (s: String)
    ensures
        s@ == book_info_text(score_cp, *mv),
{
    let mut s = String::new();
    s.append("info depth 0 score cp ");
    push_signed_decimal(&mut s, score_cp as i64);
    s.append(" multipv 1 nodes 0 nps 0 time 0 pv ");
    let u = mv.to_uci();
    s.append(u.as_str());
    assert(s@ =~= book_info_text(score_cp, *mv));
    s
}

/// `bestmove` and the move, or `bestmove 0000` without one.
pub open spec fn bestmove_text(best: Option<Move>) -> Seq<char> {
    match best {
        Some(m) => "bestmove "@ + uci_spec(m),
        None => "bestmove 0000"@,
    }
}

/// Formats the `bestmove` line (see `bestmove_text`).
pub fn bestmove_line(best: Option<Move>) -> (s: String)
    ensures
        s@ == bestmove_text(best),
{
    let mut s = String::new();
    match best {
        Some(m) => {
            s.append("bestmove ");
            let u = m.to_uci();
            s.append(u.as_str());
        },
        None => {
            s.append("bestmove 0000");
        },
    }
    assert(s@ =~= bestmove_text(best));
    s
}

/// The limits of MultiPV line `i` of a `go` with limits `limits`: the full
/// limits for the first line; the same depth and, for a timed search, the
/// shorter fixed budget for the others.
pub open spec fn line_limits_spec(limits: SearchLimits, i: int) -> SearchLimits {
    if i == 0 {
        SearchLimits { depth: limits.depth, movetime_ms: limits.movetime_ms }
    } else {
        SearchLimits {
            depth: limits.depth,
            movetime_ms: match limits.movetime_ms {
                Some(_) => Some(ALT_LINE_MOVETIME_MS),
                None => None,
            },
        }
    }
}

/// The searches of one `go`, one per MultiPV line: the limits asked for,
/// the number of lines, the moves earlier lines gave (a book move first),
/// the move to play so far, the index of the next line, and whether a
/// search found no move to give (fewer legal moves than lines).
pub struct GoPlan {
    pub limits: SearchLimits,
    pub multipv: usize,
    pub exclude: Vec<Move>,
    pub best_move: Option<Move>,
    pub next_line: usize,
    pub finished: bool,
}

impl GoPlan {
    /// The plan of a `go` with limits `limits` for `multipv` lines; a book
    /// move, when there is one, is the first line and the move to play.
    pub fn new(limits: SearchLimits, multipv: usize, book: Option<Move>) -> (p: GoPlan)
        ensures
            p.limits == limits,
            p.multipv == multipv,
            p.best_move == book,
            !p.finished,
            p.exclude@ == (match book {
                Some(m) => seq![m],
                None => Seq::<Move>::empty(),
            }),
            p.next_line == p.exclude.len(),
    {
        let mut exclude: Vec<Move> = Vec::new();
        if let Some(m) = book {
            exclude.push(m);
        }
        let n = exclude.len();
        GoPlan { limits, multipv, exclude, best_move: book, next_line: n, finished: false }
    }

    /// The limits of the next search, or `None` when every line is done or
    /// a search found no move.
    pub fn next_search(&self) -> (r: Option<SearchLimits>)
        ensures
            r == (if self.finished || self.next_line >= self.multipv {
                None
            } else {
                Some(line_limits_spec(self.limits, self.next_line as int))
            }),
    {
        if self.finished || self.next_line >= self.multipv {
            return None;
        }
        if self.next_line == 0 {
            Some(SearchLimits { depth: self.limits.depth, movetime_ms: self.limits.movetime_ms })
        } else {
            let movetime_ms = match self.limits.movetime_ms {
                Some(_) => Some(ALT_LINE_MOVETIME_MS),
                None => None,
            };
            Some(SearchLimits { depth: self.limits.depth, movetime_ms })
        }
    }

    /// Takes in the move the search of the current line gave: it is left
    /// out of later lines and becomes the move to play if there is none
    /// yet. `None` ends the plan.
    pub fn record(&mut self, mv: Option<Move>)
        requires
            old(self).next_line < usize::MAX,
        ensures
            match mv {
                Some(m) => {
                    &&& final(self).exclude@ == old(self).exclude@.push(m)
                    &&& final(self).best_move == (if old(self).best_move is None {
                        Some(m)
                    } else {
                        old(self).best_move
                    })
                    &&& final(self).next_line == old(self).next_line + 1
                    &&& final(self).finished == old(self).finished
                },
                None => {
                    &&& final(self).exclude == old(self).exclude
                    &&& final(self).best_move == old(self).best_move
                    &&& final(self).next_line == old(self).next_line
                    &&& final(self).finished
                },
            },
            final(self).limits == old(self).limits,
            final(self).multipv == old(self).multipv,
    {
        match mv {
            Some(m) => {
                if self.best_move.is_none() {
                    self.best_move = Some(m);
                }
                self.exclude.push(m);
                self.next_line = self.next_line + 1;
            },
            None => {
                self.finished = true;
            },
        }
    }

    /// The `bestmove` line that ends the `go`.
    pub fn bestmove(&self) -> (s: String)
        ensures
            s@ == bestmove_text(self.best_move),
    {
        bestmove_line(self.best_move)
    }
}

/// What the plan of a `go` in `pos` has gathered: one move per line done,
/// distinct legal moves, the first of them the move to play (none before
/// any line is done).
pub open spec fn plan_ok(p: GoPlan, pos: Position, z: &Zobrist) -> bool {
    &&& p.next_line == p.exclude@.len()
    &&& p.best_move == (if p.exclude@.len() == 0 { None } else { Some(p.exclude@[0]) })
    &&& legal_ok(pos, z) ==> forall|k: int| 0 <= k < p.exclude@.len() ==> legal_moves(pos, z).contains(#[trigger] p.exclude@[k])
    &&& p.exclude@.no_duplicates()
}

/// A plan starts well: with no book move, or a legal one.
pub proof fn lemma_plan_start(p: GoPlan, book: Option<Move>, pos: Position, z: &Zobrist)
    requires
        p.best_move == book,
        p.exclude@ == (match book {
            Some(m) => seq![m],
            None => Seq::<Move>::empty(),
        }),
        p.next_line == p.exclude.len(),
        legal_ok(pos, z) ==> (book matches Some(m) ==> legal_moves(pos, z).contains(m)),
    ensures
        plan_ok(p, pos, z),
{
}

/// Recording the move a line's search gave keeps a plan well, when that
/// move is playable with the plan's moves left out (as
/// `Search::iterative_deepening` gives it); a search that gave none ends the
/// plan with the move to play unchanged, which is `None` (`bestmove 0000`)
/// exactly when no line gave a move, and then, when the first search gave
/// none, no legal move is left.
pub proof fn lemma_plan_record(old: GoPlan, new: GoPlan, mv: Option<Move>, pos: Position, z: &Zobrist)
    requires
        plan_ok(old, pos, z),
        match mv {
            Some(m) => {
                &&& new.exclude@ == old.exclude@.push(m)
                &&& new.best_move == (if old.best_move is None { Some(m) } else { old.best_move })
                &&& new.next_line == old.next_line + 1
            },
            None => {
                &&& new.exclude == old.exclude
                &&& new.best_move == old.best_move
                &&& new.next_line == old.next_line
            },
        },
        match mv {
            Some(m) => playable(pos, z, old.exclude@, m),
            None => forall|m: Move| !playable(pos, z, old.exclude@, m),
        },
    ensures
        plan_ok(new, pos, z),
        new.best_move is None <==> new.exclude@.len() == 0,
        mv is None && old.exclude@.len() == 0 ==> !legal_ok(pos, z) || legal_moves(pos, z).len() == 0,
{
    match mv {
        Some(m) => {
            assert(new.exclude@[old.exclude@.len() as int] == m);
            if old.exclude@.len() > 0 {
                assert(new.exclude@[0] == old.exclude@[0]);
            }
            assert forall|k: int| 0 <= k < new.exclude@.len() && legal_ok(pos, z) implies legal_moves(pos, z).contains(
                #[trigger] new.exclude@[k],
            ) by {
                if k < old.exclude@.len() {
                    assert(new.exclude@[k] == old.exclude@[k]);
                }
            }
            assert forall|i: int, j: int| 0 <= i < j < new.exclude@.len() implies new.exclude@[i] != new.exclude@[j] by {
                if j == old.exclude@.len() {
                    assert(old.exclude@.contains(old.exclude@[i]));
                }
            }
        },
        None => {
            if old.exclude@.len() == 0 && legal_ok(pos, z) && legal_moves(pos, z).len() > 0 {
                assert(playable(pos, z, old.exclude@, legal_moves(pos, z)[0]));
            }
        },
    }
}

// ---------------------------------------------------------------------------
// Tokens and numbers
// ---------------------------------------------------------------------------

/// The bytes of token `t` of `b`.
pub open spec fn tok(b: Seq<u8>, t: (usize, usize)) -> Seq<u8> {
    b.subrange(t.0 as int, t.1 as int)
}

/// Whether token `i` of `toks` exists and is the word `w`.
pub open spec fn word_at(b: Seq<u8>, toks: Seq<(usize, usize)>, i: int, w: Seq<u8>) -> bool {
    0 <= i < toks.len() && tok(b, toks[i]) == w
}

/// Whether token `t` of `b` is the word `w`.
fn word_is(b: &[u8], t: (usize, usize), w: &str) -> (r: bool)
    requires
        t.0 <= t.1 <= b@.len(),
    ensures
        r == (tok(b@, t) == w.spec_bytes()),
{
    let wb = w.as_bytes();
    let (st, en) = t;
    if en - st != wb.len() {
        return false;
    }
    let mut i: usize = 0;
    while i < wb.len()
        invariant
            t == (st, en),
            st + wb@.len() == en,
            en <= b@.len(),
            wb@ == w.spec_bytes(),
            i <= wb.len(),
            forall|k: int| 0 <= k < i ==> b@[st + k] == wb@[k],
        decreases wb.len() - i,
    {
        if b[st + i] != wb[i] {
            assert(tok(b@, t)[i as int] != wb@[i as int]);
            return false;
        }
        i += 1;
    }
    assert(tok(b@, t) =~= wb@);
    true
}

/// Unsigned number parsing as `str::parse` does it: an optional `+`, then at
/// least one ASCII digit, with a value of at most `max`.
pub open spec fn parse_uint_spec(t: Seq<u8>, max: int) -> Option<int> {
    let d = if t.len() >= 1 && t[0] == 43 { t.subrange(1, t.len() as int) } else { t };
    if d.len() >= 1 && all_digits(d) && digits_value(d) <= max {
        Some(digits_value(d))
    } else {
        None
    }
}

/// Parses the number in `b[start..end]` (see `parse_uint_spec`).
fn parse_uint(b: &[u8], start: usize, end: usize, max: u64) -> (r: Option<u64>)
    requires
        start <= end <= b@.len(),
    ensures
        match r {
            Some(v) => parse_uint_spec(b@.subrange(start as int, end as int), max as int) == Some(v as int),
            None => parse_uint_spec(b@.subrange(start as int, end as int), max as int) is None,
        },
{
    let ghost t = b@.subrange(start as int, end as int);
    let mut i = start;
    if i < end && b[i] == 43 {
        i = i + 1;
    }
    let ghost d = if t.len() >= 1 && t[0] == 43 { t.subrange(1, t.len() as int) } else { t };
    assert(d =~= b@.subrange(i as int, end as int));
    if i >= end {
        return None;
    }
    let first = i;
    let mut v: u128 = 0;
    while i < end
        invariant
            first <= i <= end <= b@.len(),
            d =~= b@.subrange(first as int, end as int),
            parse_uint_spec(b@.subrange(start as int, end as int), max as int) == (if d.len() >= 1
                && all_digits(d) && digits_value(d) <= max {
                Some(digits_value(d))
            } else {
                None
            }),
            v <= max,
            all_digits(b@.subrange(first as int, i as int)),
            v == digits_value(b@.subrange(first as int, i as int)),
        decreases end - i,
    {
        let c = b[i];
        if c < 48 || c > 57 {
            assert(d[i - first] == c);
            return None;
        }
        assert(b@.subrange(first as int, i + 1).drop_last() =~= b@.subrange(first as int, i as int));
        assert(all_digits(b@.subrange(first as int, i + 1)));
        let nv = v * 10 + (c - 48) as u128;
        if nv > max as u128 {
            proof {
                if all_digits(d) {
                    lemma_digits_value_grows(d, i + 1 - first);
                    assert(d.subrange(0, i + 1 - first) =~= b@.subrange(first as int, i + 1));
                }
            }
            return None;
        }
        v = nv;
        i = i + 1;
    }
    assert(b@.subrange(first as int, i as int) =~= d);
    Some(v as u64)
}

/// A `u32` as `str::parse` reads it.
pub open spec fn parse_u32_spec(t: Seq<u8>) -> Option<u32> {
    match parse_uint_spec(t, u32::MAX as int) {
        Some(v) => Some(v as u32),
        None => None,
    }
}

/// A `u64` as `str::parse` reads it.
pub open spec fn parse_u64_spec(t: Seq<u8>) -> Option<u64> {
    match parse_uint_spec(t, u64::MAX as int) {
        Some(v) => Some(v as u64),
        None => None,
    }
}

/// A `usize` as `str::parse` reads it.
pub open spec fn parse_usize_spec(t: Seq<u8>) -> Option<usize> {
    match parse_uint_spec(t, usize::MAX as int) {
        Some(v) => Some(v as usize),
        None => None,
    }
}

fn parse_u32_tok(b: &[u8], t: (usize, usize)) -> (r: Option<u32>)
    requires
        t.0 <= t.1 <= b@.len(),
    ensures
        r == parse_u32_spec(tok(b@, t)),
{
    match parse_uint(b, t.0, t.1, u32::MAX as u64) {
        Some(v) => Some(v as u32),
        None => None,
    }
}

fn parse_u64_tok(b: &[u8], t: (usize, usize)) -> (r: Option<u64>)
    requires
        t.0 <= t.1 <= b@.len(),
    ensures
        r == parse_u64_spec(tok(b@, t)),
{
    parse_uint(b, t.0, t.1, u64::MAX)
}

fn parse_usize_tok(b: &[u8], t: (usize, usize)) -> (r: Option<usize>)
    requires
        t.0 <= t.1 <= b@.len(),
    ensures
        r == parse_usize_spec(tok(b@, t)),
{
    match parse_uint(b, t.0, t.1, usize::MAX as u64) {
        Some(v) => Some(v as usize),
        None => None,
    }
}

// ---------------------------------------------------------------------------
// go
// ---------------------------------------------------------------------------

/// Reads `depth N` and `movetime N` from token `i` on; an unreadable number
/// clears its limit, a later occurrence overrides an earlier one.
pub open spec fn go_scan(
    b: Seq<u8>,
    toks: Seq<(usize, usize)>,
    i: int,
    depth: Option<u32>,
    movetime: Option<u64>,
) -> (Option<u32>, Option<u64>)
    decreases toks.len() + 1 - i,
{
    if i < 0 || i >= toks.len() {
        (depth, movetime)
    } else if tok(b, toks[i]) == "depth".spec_bytes() {
        let d = if i + 1 < toks.len() { parse_u32_spec(tok(b, toks[i + 1])) } else { None };
        go_scan(b, toks, i + 2, d, movetime)
    } else if tok(b, toks[i]) == "movetime".spec_bytes() {
        let m = if i + 1 < toks.len() { parse_u64_spec(tok(b, toks[i + 1])) } else { None };
        go_scan(b, toks, i + 2, depth, m)
    } else {
        go_scan(b, toks, i + 1, depth, movetime)
    }
}

/// The limits of a `go` command with tokens `toks`: those it names, or the
/// default depth when it names neither.
pub open spec fn go_limits_spec(b: Seq<u8>, toks: Seq<(usize, usize)>) -> SearchLimits {
    let (d, m) = go_scan(b, toks, 1, None, None);
    if d is None && m is None {
        SearchLimits { depth: Some(DEFAULT_GO_DEPTH), movetime_ms: None }
    } else {
        SearchLimits { depth: d, movetime_ms: m }
    }
}

/// Reads the limits of a `go` command (see `go_limits_spec`).
fn parse_go(b: &[u8], toks: &Vec<(usize, usize)>) -> (r: SearchLimits)
    requires
        toks.len() >= 1,
        forall|k: int| 0 <= k < toks@.len() ==> {
            let t = #[trigger] toks@[k];
            t.0 <= t.1 <= b@.len()
        },
    ensures
        r == go_limits_spec(b@, toks@),
{
    let mut depth: Option<u32> = None;
    let mut movetime: Option<u64> = None;
    let mut i: usize = 1;
    while i < toks.len()
        invariant
            forall|k: int| 0 <= k < toks@.len() ==> {
                let t = #[trigger] toks@[k];
                t.0 <= t.1 <= b@.len()
            },
            1 <= i <= toks.len(),
            go_scan(b@, toks@, 1, None, None) == go_scan(b@, toks@, i as int, depth, movetime),
        decreases toks.len() - i,
    {
        if word_is(b, toks[i], "depth") {
            if i + 1 < toks.len() {
                depth = parse_u32_tok(b, toks[i + 1]);
                i = i + 2;
            } else {
                assert(go_scan(b@, toks@, i + 2, None, movetime) == (None::<u32>, movetime));
                depth = None;
                i = toks.len();
            }
        } else if word_is(b, toks[i], "movetime") {
            if i + 1 < toks.len() {
                movetime = parse_u64_tok(b, toks[i + 1]);
                i = i + 2;
            } else {
                assert(go_scan(b@, toks@, i + 2, depth, None) == (depth, None::<u64>));
                movetime = None;
                i = toks.len();
            }
        } else {
            i = i + 1;
        }
    }
    if depth.is_none() && movetime.is_none() {
        SearchLimits { depth: Some(DEFAULT_GO_DEPTH), movetime_ms: None }
    } else {
        SearchLimits { depth, movetime_ms: movetime }
    }
}

// ---------------------------------------------------------------------------
// setoption
// ---------------------------------------------------------------------------

/// Reads an option name from token `i` on: the tokens up to `value` joined
/// without separators, the word `name` left out. Returns the name and the
/// index of the token after `value` (the token count when there is none).
pub open spec fn opt_scan(b: Seq<u8>, toks: Seq<(usize, usize)>, i: int, name: Seq<u8>) -> (Seq<u8>, int)
    decreases toks.len() - i,
{
    if i < 0 || i >= toks.len() {
        (name, toks.len() as int)
    } else if tok(b, toks[i]) == "value".spec_bytes() {
        (name, i + 1)
    } else if tok(b, toks[i]) == "name".spec_bytes() {
        opt_scan(b, toks, i + 1, name)
    } else {
        opt_scan(b, toks, i + 1, name + tok(b, toks[i]))
    }
}

/// ASCII lower case of a byte.
pub open spec fn ascii_lower(c: u8) -> u8 {
    if 65 <= c <= 90 {
        (c + 32) as u8
    } else {
        c
    }
}

/// Equality of byte strings up to ASCII case.
pub open spec fn eq_ignore_ascii_case(a: Seq<u8>, w: Seq<u8>) -> bool {
    a.len() == w.len() && forall|i: int| 0 <= i < a.len() ==> ascii_lower(#[trigger] a[i]) == ascii_lower(w[i])
}

/// Number of MultiPV lines held to `1..=5`.
pub open spec fn clamp_lines(n: usize) -> usize {
    if n < 1 {
        1
    } else if n > 5 {
        5
    } else {
        n
    }
}

/// The MultiPV setting after a `setoption` command with tokens `toks`:
/// `name MultiPV value N` (name in any case) sets it to N held to 1..=5;
/// any other option, or an unreadable N, leaves it.
pub open spec fn setoption_spec(b: Seq<u8>, toks: Seq<(usize, usize)>, multipv: usize) -> usize {
    let (name, k) = opt_scan(b, toks, 1, Seq::empty());
    if eq_ignore_ascii_case(name, "MultiPV".spec_bytes()) && k < toks.len() {
        match parse_usize_spec(tok(b, toks[k])) {
            Some(n) => clamp_lines(n),
            None => multipv,
        }
    } else {
        multipv
    }
}

fn lower(c: u8) -> (r: u8)
    ensures
        r == ascii_lower(c),
{
    if 65 <= c && c <= 90 {
        c + 32
    } else {
        c
    }
}

fn bytes_eq_ignore_case(a: &Vec<u8>, w: &str) -> (r: bool)
    ensures
        r == eq_ignore_ascii_case(a@, w.spec_bytes()),
{
    let wb = w.as_bytes();
    if a.len() != wb.len() {
        return false;
    }
    let mut i: usize = 0;
    while i < a.len()
        invariant
            a.len() == wb.len(),
            wb@ == w.spec_bytes(),
            forall|k: int| 0 <= k < i ==> ascii_lower(#[trigger] a@[k]) == ascii_lower(wb@[k]),
        decreases a.len() - i,
    {
        if lower(a[i]) != lower(wb[i]) {
            return false;
        }
        i += 1;
    }
    true
}

/// The MultiPV setting after a `setoption` command (see `setoption_spec`).
fn setoption(b: &[u8], toks: &Vec<(usize, usize)>, multipv: usize) -> (r: usize)
    requires
        forall|k: int| 0 <= k < toks@.len() ==> {
            let t = #[trigger] toks@[k];
            t.0 <= t.1 <= b@.len()
        },
    ensures
        r == setoption_spec(b@, toks@, multipv),
{
    let mut name: Vec<u8> = Vec::new();
    let mut i: usize = 1;
    let mut k: usize = toks.len();
    while i < toks.len()
        invariant_except_break
            k == toks.len(),
        invariant
            forall|j: int| 0 <= j < toks@.len() ==> {
                let t = #[trigger] toks@[j];
                t.0 <= t.1 <= b@.len()
            },
            1 <= i,
            i <= toks.len() || toks.len() == 0,
            opt_scan(b@, toks@, 1, Seq::empty()) == opt_scan(b@, toks@, i as int, name@),
        ensures
            opt_scan(b@, toks@, 1, Seq::empty()) == (name@, k as int),
        decreases toks.len() - i,
    {
        if word_is(b, toks[i], "value") {
            k = i + 1;
            break;
        }
        if !word_is(b, toks[i], "name") {
            let (st, en) = toks[i];
            let mut j = st;
            let ghost n0 = name@;
            while j < en
                invariant
                    st <= j <= en <= b@.len(),
                    name@ == n0 + b@.subrange(st as int, j as int),
                decreases en - j,
            {
                name.push(b[j]);
                assert(b@.subrange(st as int, j + 1) =~= b@.subrange(st as int, j as int).push(b@[j as int]));
                j += 1;
            }
        }
        i += 1;
    }
    if bytes_eq_ignore_case(&name, "MultiPV") && k < toks.len() {
        match parse_usize_tok(b, toks[k]) {
            Some(n) => if n < 1 {
                1
            } else if n > 5 {
                5
            } else {
                n
            },
            None => multipv,
        }
    } else {
        multipv
    }
}

// ---------------------------------------------------------------------------
// position
// ---------------------------------------------------------------------------

/// The legal move UCI text `m` names in `pos`, where moves can be generated.
pub open spec fn named_move(pos: Position, z: &Zobrist, m: Seq<u8>) -> Option<Move> {
    if legal_ok(pos, z) {
        uci_move_spec(pos, z, m)
    } else {
        None
    }
}

/// Plays the moves named by tokens `i..` from `pos`, skipping tokens that
/// name no legal move.
pub open spec fn moves_applied(z: &Zobrist, b: Seq<u8>, toks: Seq<(usize, usize)>, i: int, pos: Position) -> Position
    decreases toks.len() - i,
{
    if i < 0 || i >= toks.len() {
        pos
    } else {
        let next = match named_move(pos, z, tok(b, toks[i])) {
            Some(m) => make_move_spec(pos, m, z),
            None => pos,
        };
        moves_applied(z, b, toks, i + 1, next)
    }
}

/// Index of the first `moves` token from `i` on, or the token count.
pub open spec fn moves_index(b: Seq<u8>, toks: Seq<(usize, usize)>, i: int) -> int
    decreases toks.len() - i,
{
    if i < 0 || i >= toks.len() {
        toks.len() as int
    } else if tok(b, toks[i]) == "moves".spec_bytes() {
        i
    } else {
        moves_index(b, toks, i + 1)
    }
}

/// Tokens `i..j` joined by single spaces.
pub open spec fn joined(b: Seq<u8>, toks: Seq<(usize, usize)>, i: int, j: int) -> Seq<u8>
    decreases j - i,
{
    if j <= i {
        Seq::empty()
    } else if j == i + 1 {
        tok(b, toks[i])
    } else {
        joined(b, toks, i, j - 1) + seq![32u8] + tok(b, toks[j - 1])
    }
}

/// The position after a `position` command with tokens `toks`:
/// `startpos [moves ...]`, or `fen <fields> [moves ...]` where a FEN that
/// cannot be read keeps the current position (the moves are still played).
pub open spec fn position_spec(z: &Zobrist, b: Seq<u8>, toks: Seq<(usize, usize)>, pos: Position) -> Position {
    if toks.len() < 2 {
        pos
    } else if tok(b, toks[1]) == "startpos".spec_bytes() {
        let p = startpos_spec(z);
        if word_at(b, toks, 2, "moves".spec_bytes()) {
            moves_applied(z, b, toks, 3, p)
        } else {
            p
        }
    } else if tok(b, toks[1]) == "fen".spec_bytes() {
        let k = moves_index(b, toks, 2);
        let fb = joined(b, toks, 2, k);
        let p = if fen_in_range(fb) {
            match fen_spec(fb, z) {
                Some(q) => q,
                None => pos,
            }
        } else {
            pos
        };
        if k < toks.len() {
            moves_applied(z, b, toks, k + 1, p)
        } else {
            p
        }
    } else {
        pos
    }
}

/// Plays the moves named by tokens `i..` (see `moves_applied`).
fn apply_moves(t: &Tables, z: &Zobrist, b: &[u8], toks: &Vec<(usize, usize)>, i: usize, pos: Position) -> (r: Position)
    requires
        t.wf(),
        forall|k: int| 0 <= k < toks@.len() ==> {
            let t = #[trigger] toks@[k];
            t.0 <= t.1 <= b@.len()
        },
    ensures
        r == moves_applied(z, b@, toks@, i as int, pos),
{
    let mut cur = pos;
    let mut j = i;
    if j > toks.len() {
        return cur;
    }
    while j < toks.len()
        invariant
            t.wf(),
            forall|k: int| 0 <= k < toks@.len() ==> {
                let t = #[trigger] toks@[k];
                t.0 <= t.1 <= b@.len()
            },
            i <= j <= toks.len(),
            moves_applied(z, b@, toks@, i as int, pos) == moves_applied(z, b@, toks@, j as int, cur),
        decreases toks.len() - j,
    {
        let (st, en) = toks[j];
        let word = vstd::slice::slice_subrange(b, st, en);
        match uci_move_of(t, z, &cur, word) {
            Some(m) => {
                proof {
                    lemma_legal_move_makeable(cur, z, m);
                }
                cur = make_move(z, &cur, &m);
            },
            None => {},
        }
        j += 1;
    }
    cur
}

/// The FEN tokens of a `position fen` command (from token 2 up to `moves`)
/// joined by spaces, and the index of the `moves` token (or the count).
fn fen_tokens(b: &[u8], toks: &Vec<(usize, usize)>) -> (r: (Vec<u8>, usize))
    requires
        toks.len() >= 2,
        forall|k: int| 0 <= k < toks@.len() ==> {
            let t = #[trigger] toks@[k];
            t.0 <= t.1 <= b@.len()
        },
    ensures
        r.1 == moves_index(b@, toks@, 2),
        r.0@ == joined(b@, toks@, 2, r.1 as int),
        r.1 <= toks.len(),
{
    let mut fen: Vec<u8> = Vec::new();
    let mut k: usize = 2;
    while k < toks.len()
        invariant
            forall|j: int| 0 <= j < toks@.len() ==> {
                let t = #[trigger] toks@[j];
                t.0 <= t.1 <= b@.len()
            },
            2 <= k <= toks.len(),
            moves_index(b@, toks@, 2) == moves_index(b@, toks@, k as int),
            fen@ == joined(b@, toks@, 2, k as int),
        ensures
            2 <= k <= toks.len(),
            moves_index(b@, toks@, k as int) == k,
        decreases toks.len() - k,
    {
        if word_is(b, toks[k], "moves") {
            break;
        }
        let ghost before = fen@;
        if k > 2 {
            fen.push(32u8);
        }
        let (st, en) = toks[k];
        let mut j = st;
        let ghost f0 = fen@;
        while j < en
            invariant
                st <= j <= en <= b@.len(),
                fen@ == f0 + b@.subrange(st as int, j as int),
            decreases en - j,
        {
            fen.push(b[j]);
            assert(b@.subrange(st as int, j + 1) =~= b@.subrange(st as int, j as int).push(b@[j as int]));
            j += 1;
        }
        proof {
            if k == 2 {
                assert(fen@ =~= joined(b@, toks@, 2, 3));
            } else {
                assert(fen@ =~= joined(b@, toks@, 2, k + 1));
            }
        }
        k += 1;
    }
    assert(moves_index(b@, toks@, k as int) == k);
    (fen, k)
}

/// The position after a `position` command (see `position_spec`).
fn position_command(t: &Tables, z: &Zobrist, b: &[u8], toks: &Vec<(usize, usize)>, pos: Position) -> (r: Position)
    requires
        t.wf(),
        forall|k: int| 0 <= k < toks@.len() ==> {
            let t = #[trigger] toks@[k];
            t.0 <= t.1 <= b@.len()
        },
    ensures
        r == position_spec(z, b@, toks@, pos),
{
    if toks.len() < 2 {
        return pos;
    }
    if word_is(b, toks[1], "startpos") {
        let p = Position::startpos(z);
        if toks.len() > 2 && word_is(b, toks[2], "moves") {
            return apply_moves(t, z, b, toks, 3, p);
        }
        return p;
    }
    if !word_is(b, toks[1], "fen") {
        return pos;
    }
    let (fen, k) = fen_tokens(b, toks);
    let p = if fen_bytes_readable(fen.as_slice()) {
        match Position::from_fen_bytes(fen.as_slice(), z) {
            Some(q) => q,
            None => pos,
        }
    } else {
        pos
    };
    if k < toks.len() {
        apply_moves(t, z, b, toks, k + 1, p)
    } else {
        p
    }
}

// ---------------------------------------------------------------------------
// The engine
// ---------------------------------------------------------------------------

/// The texts of a list of lines.
pub open spec fn texts(v: Seq<String>) -> Seq<Seq<char>> {
    v.map_values(|s: String| s@)
}

/// The reply to `perft N`.
pub open spec fn perft_text(d: u32, n: nat) -> Seq<char> {
    "perft "@ + decimal(d as nat) + " nodes "@ + decimal(n)
}

/// The reply lines of a `perft` command with tokens `toks` on `pos`: the
/// count for the depth the second token names, when it can be computed.
pub open spec fn perft_reply(pos: Position, z: &Zobrist, b: Seq<u8>, toks: Seq<(usize, usize)>) -> Seq<Seq<char>> {
    if toks.len() > 1 {
        match parse_u32_spec(tok(b, toks[1])) {
            Some(d) => if perft_ok(pos, z, d as nat) && perft_spec(pos, z, d as nat) <= u64::MAX {
                seq![perft_text(d, perft_spec(pos, z, d as nat))]
            } else {
                Seq::empty()
            },
            None => Seq::empty(),
        }
    } else {
        Seq::empty()
    }
}

/// The protocol state: the current position, the search (with its
/// heuristics and options) and the number of MultiPV lines.
pub struct Engine {
    pub pos: Position,
    pub search: Search,
    pub multipv: usize,
}

/// What a command line asks of the caller besides the state change: lines
/// to send, a search to run with the given limits, and whether a new game
/// starts (the transposition table is to be cleared).
pub struct UciReply {
    pub lines: Vec<String>,
    pub go: Option<SearchLimits>,
    pub new_game: bool,
}

/// Whether token 0 of the command `b` (tokens `toks`) is the word `w`.
pub open spec fn command_is(b: Seq<u8>, toks: Seq<(usize, usize)>, w: Seq<u8>) -> bool {
    word_at(b, toks, 0, w)
}

/// A reply without lines, search or new game.
pub open spec fn quiet(r: UciReply) -> bool {
    r.lines@.len() == 0 && r.go is None && !r.new_game
}

/// The effect of the command line `b` on engine `old`: the new state `new`
/// and the reply `r`.
pub open spec fn uci_step(z: &Zobrist, b: Seq<u8>, old: Engine, new: Engine, r: UciReply) -> bool {
    let toks = ws_tokens(b);
    if command_is(b, toks, "uci".spec_bytes()) {
        &&& new == old
        &&& texts(r.lines@) == seq!["id name BOARDROOM-Engine"@, "id author BOARDROOM"@, "uciok"@]
        &&& r.go is None
        &&& !r.new_game
    } else if command_is(b, toks, "isready".spec_bytes()) {
        &&& new == old
        &&& texts(r.lines@) == seq!["readyok"@]
        &&& r.go is None
        &&& !r.new_game
    } else if command_is(b, toks, "ucinewgame".spec_bytes()) {
        &&& new.pos == startpos_spec(z)
        &&& is_fresh(new.search, all_options())
        &&& new.multipv == old.multipv
        &&& r.lines@.len() == 0
        &&& r.go is None
        &&& r.new_game
    } else if command_is(b, toks, "setoption".spec_bytes()) {
        &&& new == (Engine { multipv: setoption_spec(b, toks, old.multipv), ..old })
        &&& quiet(r)
    } else if command_is(b, toks, "position".spec_bytes()) {
        &&& new == (Engine { pos: position_spec(z, b, toks, old.pos), ..old })
        &&& quiet(r)
    } else if command_is(b, toks, "go".spec_bytes()) {
        &&& new == old
        &&& r.lines@.len() == 0
        &&& r.go == Some(go_limits_spec(b, toks))
        &&& !r.new_game
    } else if command_is(b, toks, "stop".spec_bytes()) {
        &&& new == (Engine { search: Search { stop: true, ..old.search }, ..old })
        &&& quiet(r)
    } else if command_is(b, toks, "perft".spec_bytes()) {
        &&& new == old
        &&& texts(r.lines@) == perft_reply(old.pos, z, b, toks)
        &&& r.go is None
        &&& !r.new_game
    } else {
        &&& new == old
        &&& quiet(r)
    }
}

fn text(s: &str) -> (r: String)
    ensures
        r@ == s@,
{
    let mut r = String::new();
    r.append(s);
    r
}

impl Engine {
    /// The engine at the initial position with a fresh search and one line.
    pub fn new(z: &Zobrist) -> (e: Engine)
        ensures
            e.pos == startpos_spec(z),
            is_fresh(e.search, all_options()),
            e.multipv == 1,
    {
        Engine { pos: Position::startpos(z), search: Search::new(SearchOptions::default()), multipv: 1 }
    }

    /// Handles one command line (see `uci_step`).
    pub fn handle_line(&mut self, t: &Tables, z: &Zobrist, line: &str) -> (r: UciReply)
        requires
            t.wf(),
        ensures
            uci_step(z, line.spec_bytes(), *old(self), *final(self), r),
    {
        let b = line.as_bytes();
        let toks = split_ws(b);
        let mut lines: Vec<String> = Vec::new();
        if toks.len() == 0 {
            return UciReply { lines, go: None, new_game: false };
        }
        let w = toks[0];
        if word_is(b, w, "uci") {
            lines.push(text("id name BOARDROOM-Engine"));
            lines.push(text("id author BOARDROOM"));
            lines.push(text("uciok"));
            assert(texts(lines@) =~= seq!["id name BOARDROOM-Engine"@, "id author BOARDROOM"@, "uciok"@]);
            UciReply { lines, go: None, new_game: false }
        } else if word_is(b, w, "isready") {
            lines.push(text("readyok"));
            assert(texts(lines@) =~= seq!["readyok"@]);
            UciReply { lines, go: None, new_game: false }
        } else if word_is(b, w, "ucinewgame") {
            self.pos = Position::startpos(z);
            self.search = Search::new(SearchOptions::default());
            UciReply { lines, go: None, new_game: true }
        } else if word_is(b, w, "setoption") {
            self.multipv = setoption(b, &toks, self.multipv);
            UciReply { lines, go: None, new_game: false }
        } else if word_is(b, w, "position") {
            self.pos = position_command(t, z, b, &toks, self.pos);
            UciReply { lines, go: None, new_game: false }
        } else if word_is(b, w, "go") {
            let limits = parse_go(b, &toks);
            UciReply { lines, go: Some(limits), new_game: false }
        } else if word_is(b, w, "stop") {
            self.search.stop_now();
            UciReply { lines, go: None, new_game: false }
        } else if word_is(b, w, "perft") {
            if toks.len() > 1 {
                if let Some(d) = parse_u32_tok(b, toks[1]) {
                    if let Some(n) = try_perft(t, z, &self.pos, d) {
                        let mut s = String::new();
                        s.append("perft ");
                        push_decimal(&mut s, d as u64);
                        s.append(" nodes ");
                        push_decimal(&mut s, n);
                        lines.push(s);
                    }
                }
            }
            assert(texts(lines@) =~= perft_reply(self.pos, z, b@, toks@));
            UciReply { lines, go: None, new_game: false }
        } else {
            UciReply { lines, go: None, new_game: false }
        }
    }
}

/// The number of MultiPV lines stays within 1..=5 whatever command comes:
/// starting from `Engine::new` (one line), every command line keeps it in
/// range.
pub proof fn lemma_multipv_in_range(z: &Zobrist, b: Seq<u8>, old: Engine, new: Engine, r: UciReply)
    requires
        1 <= old.multipv <= 5,
        uci_step(z, b, old, new, r),
    ensures
        1 <= new.multipv <= 5,
{
}

} // verus!
