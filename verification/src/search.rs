//! Negamax alpha-beta search with iterative deepening, a transposition
//! table, move ordering (table move, MVV-LVA, killers, history), quiescence
//! search, principal variation search, null-move pruning, late move
//! reductions and aspiration windows. Each technique beyond plain alpha-beta
//! is switched by a flag of `SearchOptions`.
//!
//! What the search needs from its surroundings (a clock, the shared
//! transposition table, the static evaluation and a sink for per-depth
//! reports) comes through a `SearchHost`. Nothing is assumed of what a host
//! hands back: every property below holds for every host.
use vstd::prelude::*;
use crate::bits::{is_set, lemma_and_bit};
use crate::board::{Move, Position, Zobrist, hash_spec, piece_at_spec, PAWN, KING, FLAG_EP};
use crate::movegen::{
    Tables, try_gen_legal, legal_moves, legal_ok, make_move, make_move_spec, make_ok, in_check,
    in_check_spec,
};
use crate::perft::lemma_legal_move_makeable;
use crate::eval::MATE_SCORE;
use crate::book::contains_move;
use std::collections::HashSet;
use crate::plain::{
    plain_opts, plain_value, plain_loop, extends, lemma_plain_unfold, lemma_loop_end, lemma_plain_move_legal, lemma_plain_move_some, lemma_extends_trans, lemma_loop_step, quiet_value, quiet_loop,
    capture_list, lemma_quiet_step,
};

verus! {

/// Deepest ply the search tables are sized for, and the deepest iteration.
pub const MAX_PLY: usize = 64;

/// Number of transposition table slots (a power of two).
pub const TT_SIZE: usize = 1048576;

/// Bound of every score the search produces: one more than a mate.
pub const INF: i32 = 30001;

/// Static evaluations are kept strictly inside the band that mate scores
/// start from.
pub const EVAL_LIMIT: i32 = 29000;

/// Bound of the alpha-beta windows handed to the recursive search.
pub const WINDOW_LIMIT: i32 = 100000;

pub const TT_FLAG_EXACT: u8 = 0;
pub const TT_FLAG_LOWER: u8 = 1;
pub const TT_FLAG_UPPER: u8 = 2;

/// Which search techniques are switched on.
#[derive(Clone, Copy)]
pub struct SearchOptions {
    pub use_tt: bool,
    pub use_ordering: bool,
    pub use_quiescence: bool,
    pub use_pvs: bool,
    pub use_null_move: bool,
    pub use_lmr: bool,
    pub use_aspiration: bool,
}

/// Every technique switched on.
pub open spec fn all_options() -> SearchOptions {
    SearchOptions {
        use_tt: true,
        use_ordering: true,
        use_quiescence: true,
        use_pvs: true,
        use_null_move: true,
        use_lmr: true,
        use_aspiration: true,
    }
}

impl Default for SearchOptions {
    /// Every technique switched on.
    fn default() -> (r: Self)
        ensures
            r == all_options(),
    {
        SearchOptions {
            use_tt: true,
            use_ordering: true,
            use_quiescence: true,
            use_pvs: true,
            use_null_move: true,
            use_lmr: true,
            use_aspiration: true,
        }
    }
}

impl SearchOptions {
    /// Table, ordering, quiescence and PVS, without null move, reductions or
    /// aspiration windows.
    pub fn phase3_only() -> (r: Self)
        ensures
            r == (SearchOptions {
                use_tt: true,
                use_ordering: true,
                use_quiescence: true,
                use_pvs: true,
                use_null_move: false,
                use_lmr: false,
                use_aspiration: false,
            }),
    {
        SearchOptions {
            use_tt: true,
            use_ordering: true,
            use_quiescence: true,
            use_pvs: true,
            use_null_move: false,
            use_lmr: false,
            use_aspiration: false,
        }
    }

    /// Plain alpha-beta with iterative deepening only.
    pub fn minimal() -> (r: Self)
        ensures
            r == (SearchOptions {
                use_tt: false,
                use_ordering: false,
                use_quiescence: false,
                use_pvs: false,
                use_null_move: false,
                use_lmr: false,
                use_aspiration: false,
            }),
    {
        SearchOptions {
            use_tt: false,
            use_ordering: false,
            use_quiescence: false,
            use_pvs: false,
            use_null_move: false,
            use_lmr: false,
            use_aspiration: false,
        }
    }
}

/// A transposition table entry: full hash, draft, score, bound kind
/// (`TT_FLAG_*`) and best move found.
#[derive(Clone, Copy)]
pub struct TTEntry {
    pub hash: u64,
    pub depth: i8,
    pub score: i32,
    pub flag: u8,
    pub best: Option<Move>,
}

/// How deep and how long to search; with neither, to the deepest iteration.
pub struct SearchLimits {
    pub depth: Option<u32>,
    pub movetime_ms: Option<u64>,
}

/// What one completed iteration found.
pub struct DepthInfo {
    pub depth: u32,
    pub score_cp: i32,
    pub mate: Option<i32>,
    pub nodes: u64,
    pub time_ms: u64,
    pub pv: Vec<Move>,
}

/// What the search asks of its surroundings.
pub trait SearchHost {
    /// The current time in milliseconds.
    fn now_ms(&mut self) -> u64;

    /// Whether another search sharing this one's deadline has run out of
    /// time.
    fn time_up(&mut self) -> bool;

    /// Tells the searches sharing the deadline that time is up.
    fn signal_time_up(&mut self);

    /// Static evaluation of `pos` from the side to move's point of view.
    fn evaluate(&mut self, pos: &Position) -> i32;

    /// Reads transposition table slot `slot`.
    fn tt_read(&mut self, slot: usize) -> Option<TTEntry>;

    /// Writes transposition table slot `slot`.
    fn tt_write(&mut self, slot: usize, entry: TTEntry);

    /// Receives the report of a completed iteration.
    fn report(&mut self, info: &DepthInfo);
}

/// Search state: move-ordering heuristics, node count, stop flag, deadline,
/// options, the last principal variation, the root moves to leave out, the
/// best root move of the last root search, the last completed depth and,
/// for proofs only, the reports of the current iterative deepening run, the
/// static evaluations the search has used, in order, those each iteration
/// of the run used, whether each iteration's search finished without being
/// stopped, and the table entry the last node searched read.
pub struct Search {
    pub tt_mask: usize,
    pub killers: Vec<[Option<Move>; 2]>,
    pub history: [[[i32; 64]; 64]; 2],
    pub nodes: u64,
    pub stop: bool,
    pub deadline_ms: Option<u64>,
    pub start_ms: u64,
    pub opts: SearchOptions,
    pub last_pv: Vec<Move>,
    pub root_exclude: Vec<Move>,
    pub root_best: Option<Move>,
    pub completed_depth: u32,
    pub reports: Ghost<Seq<DepthInfo>>,
    pub evals: Ghost<Seq<i32>>,
    pub iter_evals: Ghost<Seq<Seq<i32>>>,
    pub last_probe: Ghost<Option<TTEntry>>,
    pub iter_done: Ghost<Seq<bool>>,
}

/// Whether a transposition table slot holding `old` takes a new entry for
/// `hash` searched to `depth`: an empty slot, an entry of no greater
/// depth, or an entry of the same position.
pub open spec fn tt_replaces_spec(old: Option<TTEntry>, hash: u64, depth: i8) -> bool {
    match old {
        None => true,
        Some(o) => o.depth <= depth || o.hash == hash,
    }
}

/// The replacement rule of the transposition table (see `tt_replaces_spec`).
pub fn tt_replaces(old: Option<TTEntry>, hash: u64, depth: i8) -> (r: bool)
    ensures
        r == tt_replaces_spec(old, hash, depth),
{
    match old {
        None => true,
        Some(o) => o.depth <= depth || o.hash == hash,
    }
}

/// Whether `o` holds move `m`.
pub open spec fn holds_move(o: Option<Move>, m: Move) -> bool {
    o == Some(m)
}

fn holds(o: Option<Move>, m: Move) -> (r: bool)
    ensures
        r == holds_move(o, m),
{
    match o {
        Some(x) => x == m,
        None => false,
    }
}

/// Whether `m` captures: en passant, or a piece of the opponent on the
/// destination.
pub open spec fn capture_spec(pos: Position, m: Move) -> bool {
    m.flag == FLAG_EP || is_set(pos.occ[1 - pos.side], m.to as int)
}

/// Value of a piece type for capture ordering.
pub open spec fn order_value(p: int) -> int {
    if p == 0 {
        100
    } else if p == 1 {
        320
    } else if p == 2 {
        330
    } else if p == 3 {
        500
    } else if p == 4 {
        900
    } else {
        10000
    }
}

/// Type of the piece on `s`, a pawn where the square is empty.
pub open spec fn type_on(pos: Position, s: int) -> int {
    match piece_at_spec(pos, s) {
        Some((_, p)) => p as int,
        None => PAWN as int,
    }
}

/// Most valuable victim, least valuable attacker.
pub open spec fn mvv_lva_spec(pos: Position, m: Move) -> int {
    let victim = if m.flag == FLAG_EP {
        PAWN as int
    } else {
        type_on(pos, m.to as int)
    };
    order_value(victim) * 10 - order_value(type_on(pos, m.from as int))
}

/// Ordering key of `m`: the table move first, then captures by MVV-LVA,
/// the two killers of the ply, and the history score.
pub open spec fn order_key(s: Search, pos: Position, m: Move, tt_move: Option<Move>, ply: int) -> int {
    if holds_move(tt_move, m) {
        1000000
    } else if capture_spec(pos, m) {
        500000 + mvv_lva_spec(pos, m)
    } else if holds_move(s.killers@[ply][0], m) {
        90000
    } else if holds_move(s.killers@[ply][1], m) {
        80000
    } else {
        s.history[pos.side as int][m.from as int][m.to as int] as int
    }
}

/// `order_key` as a function of the move.
pub open spec fn order_key_fn(s: Search, pos: Position, tt_move: Option<Move>, ply: int) -> spec_fn(Move) -> int {
    |m: Move| order_key(s, pos, m, tt_move, ply)
}

/// Whether the side to move has a piece other than pawns and king.
pub open spec fn null_move_ok_spec(pos: Position) -> bool {
    pos.occ[pos.side as int] & !(pos.pieces[pos.side as int][PAWN as int] | pos.pieces[pos.side as int][KING as int]) != 0
}

/// The position with the turn passed: other side to move, no en-passant
/// target, hash recomputed.
pub open spec fn null_move_spec(pos: Position, z: &Zobrist) -> Position {
    let q = Position { side: (1 - pos.side) as usize, ep_square: None, ..pos };
    Position { hash: hash_spec(q, z), ..q }
}

/// Half of `x`, rounded toward zero (integer division by 2 on `i32`).
pub open spec fn half_toward_zero(x: int) -> int {
    if x < 0 {
        -((-x) / 2)
    } else {
        x / 2
    }
}

/// Mate distance in moves reported for `score`: positive when the side to
/// move mates, `None` for a score that is no mate.
pub open spec fn mate_spec(score: int) -> Option<i32> {
    let a = if score < 0 { -score } else { score };
    if a > MATE_SCORE - 1000 {
        let plies = MATE_SCORE - a;
        if score > 0 {
            Some(half_toward_zero(plies + 1) as i32)
        } else {
            Some((-half_toward_zero(plies + 1)) as i32)
        }
    } else {
        None
    }
}

/// The mate distance of a score (see `mate_spec`).
pub fn mate_in(score: i32) -> (r: Option<i32>)
    requires
        score > i32::MIN,
    ensures
        r == mate_spec(score as int),
{
    let a = if score < 0 { -score } else { score };
    if a > MATE_SCORE - 1000 {
        let plies = MATE_SCORE - a;
        if score > 0 {
            Some((plies + 1) / 2)
        } else {
            Some(-((plies + 1) / 2))
        }
    } else {
        None
    }
}

/// The fields a search call leaves as they were.
pub open spec fn keeps(old: Search, new: Search) -> bool {
    &&& new.tt_mask == old.tt_mask
    &&& new.deadline_ms == old.deadline_ms
    &&& new.start_ms == old.start_ms
    &&& new.opts == old.opts
    &&& new.last_pv == old.last_pv
    &&& new.root_exclude == old.root_exclude
    &&& new.completed_depth == old.completed_depth
    &&& new.reports == old.reports
    &&& new.iter_evals == old.iter_evals
    &&& new.iter_done == old.iter_done
    &&& new.killers.len() == old.killers.len()
    &&& (old.stop ==> new.stop)
}

/// A search as `Search::new` makes it: options `opts`, a table of
/// `TT_SIZE` slots, no nodes, no deadline, no principal variation, no
/// excluded root moves, empty killers and zero history.
pub open spec fn is_fresh(s: Search, opts: SearchOptions) -> bool {
    &&& s.wf()
    &&& s.opts == opts
    &&& s.tt_mask == TT_SIZE - 1
    &&& s.nodes == 0
    &&& !s.stop
    &&& s.deadline_ms is None
    &&& s.start_ms == 0
    &&& s.last_pv@.len() == 0
    &&& s.root_exclude@.len() == 0
    &&& forall|i: int| 0 <= i <= MAX_PLY ==> #[trigger] s.killers@[i] == [None::<Move>, None]
    &&& forall|c: int, f: int, t: int|
        0 <= c < 2 && 0 <= f < 64 && 0 <= t < 64 ==> #[trigger] s.history[c][f][t] == 0
}

impl Search {
    /// One pair of killer slots per ply, `0..=MAX_PLY`.
    pub open spec fn wf(&self) -> bool {
        self.killers.len() == MAX_PLY + 1
    }

    /// A fresh search with options `opts`.
    pub fn new(opts: SearchOptions) -> (s: Self)
        ensures
            is_fresh(s, opts),
    {
        Search {
            tt_mask: TT_SIZE - 1,
            killers: fresh_killers(),
            history: [[[0i32; 64]; 64]; 2],
            nodes: 0,
            stop: false,
            deadline_ms: None,
            start_ms: 0,
            opts,
            last_pv: Vec::new(),
            root_exclude: Vec::new(),
            root_best: None,
            completed_depth: 0,
            reports: Ghost(Seq::empty()),
            evals: Ghost(Seq::empty()),
            iter_evals: Ghost(Seq::empty()),
            last_probe: Ghost(None),
            iter_done: Ghost(Seq::empty()),
        }
    }

    /// A helper search for a parallel search of the same position: the same
    /// options, deadline, start time and excluded root moves, with its own
    /// fresh killers, history and node count.
    pub fn spawn_helper(&self) -> (h: Search)
        ensures
            h.wf(),
            h.opts == self.opts,
            h.tt_mask == self.tt_mask,
            h.deadline_ms == self.deadline_ms,
            h.start_ms == self.start_ms,
            h.root_exclude@ == self.root_exclude@,
            h.nodes == 0,
            !h.stop,
            h.last_pv@.len() == 0,
            forall|i: int| 0 <= i <= MAX_PLY ==> #[trigger] h.killers@[i] == [None::<Move>, None],
            forall|c: int, f: int, t: int|
                0 <= c < 2 && 0 <= f < 64 && 0 <= t < 64 ==> #[trigger] h.history[c][f][t] == 0,
    {
        Search {
            tt_mask: self.tt_mask,
            killers: fresh_killers(),
            history: [[[0i32; 64]; 64]; 2],
            nodes: 0,
            stop: false,
            deadline_ms: self.deadline_ms,
            start_ms: self.start_ms,
            opts: self.opts,
            last_pv: Vec::new(),
            root_exclude: self.root_exclude.clone(),
            root_best: None,
            completed_depth: 0,
            reports: Ghost(Seq::empty()),
            evals: Ghost(Seq::empty()),
            iter_evals: Ghost(Seq::empty()),
            last_probe: Ghost(None),
            iter_done: Ghost(Seq::empty()),
        }
    }

    /// Replaces the options.
    pub fn set_options(&mut self, opts: SearchOptions)
        ensures
            *final(self) == (Search { opts, ..*old(self) }),
    {
        self.opts = opts;
    }

    /// Sets the root moves the search leaves out.
    pub fn set_root_exclude(&mut self, moves: Vec<Move>)
        ensures
            *final(self) == (Search { root_exclude: moves, ..*old(self) }),
    {
        self.root_exclude = moves;
    }

    /// Asks the search to stop.
    pub fn stop_now(&mut self)
        ensures
            *final(self) == (Search { stop: true, ..*old(self) }),
    {
        self.stop = true;
    }

    /// Every 4096 nodes: stops when another search signalled that time is
    /// up, or when the deadline has passed (and then signals it).
    fn check_time<H: SearchHost>(&mut self, host: &mut H)
        ensures
            *final(self) == (Search { stop: final(self).stop, ..*old(self) }),
            old(self).stop ==> final(self).stop,
            old(self).nodes % 4096 != 0 ==> final(self).stop == old(self).stop,
    {
        if self.nodes % 4096 != 0 {
            return;
        }
        if host.time_up() {
            self.stop = true;
            return;
        }
        if let Some(dl) = self.deadline_ms {
            if host.now_ms() >= dl {
                self.stop = true;
                host.signal_time_up();
            }
        }
    }

    /// The table entry for `hash`, when the table is in use and its slot
    /// holds that position. An entry with a score outside `-INF..=INF`,
    /// which this search never writes, counts as a miss.
    fn tt_probe<H: SearchHost>(&self, host: &mut H, hash: u64) -> (r: Option<TTEntry>)
        ensures
            !self.opts.use_tt ==> r is None,
            r matches Some(e) ==> e.hash == hash && -INF <= e.score <= INF,
    {
        if !self.opts.use_tt {
            return None;
        }
        let idx = (hash as usize) & self.tt_mask;
        match host.tt_read(idx) {
            Some(e) => {
                if e.hash == hash && -INF <= e.score && e.score <= INF {
                    Some(e)
                } else {
                    None
                }
            },
            None => None,
        }
    }

    /// Stores an entry for `hash` when the table is in use and the slot's
    /// current entry gives way (`tt_replaces_spec`).
    fn tt_store<H: SearchHost>(&self, host: &mut H, hash: u64, depth: i8, score: i32, flag: u8, best: Option<Move>) {
        if !self.opts.use_tt {
            return;
        }
        let idx = (hash as usize) & self.tt_mask;
        let old = host.tt_read(idx);
        if tt_replaces(old, hash, depth) {
            host.tt_write(idx, TTEntry { hash, depth, score, flag, best });
        }
    }
}

fn fresh_killers() -> (k: Vec<[Option<Move>; 2]>)
    ensures
        k.len() == MAX_PLY + 1,
        forall|i: int| 0 <= i <= MAX_PLY ==> #[trigger] k@[i] == [None::<Move>, None],
{
    let mut k: Vec<[Option<Move>; 2]> = Vec::new();
    for i in 0..MAX_PLY + 1
        invariant
            k.len() == i,
            forall|j: int| 0 <= j < i ==> #[trigger] k@[j] == [None::<Move>, None],
    {
        k.push([None, None]);
    }
    k
}

/// Whether `m` captures (see `capture_spec`).
pub fn is_capture(pos: &Position, m: &Move) -> (r: bool)
    requires
        pos.side < 2,
        m.to < 64,
    ensures
        r == capture_spec(*pos, *m),
{
    proof {
        lemma_and_bit(pos.occ[1 - pos.side as int], m.to as int);
    }
    m.flag == FLAG_EP || pos.occ[1 - pos.side] & (1u64 << m.to) != 0
}

const ORDER_VALUE: [i32; 6] = [100, 320, 330, 500, 900, 10000];

/// Most valuable victim, least valuable attacker (see `mvv_lva_spec`).
pub fn mvv_lva(pos: &Position, m: &Move) -> (r: i32)
    requires
        m.from < 64,
        m.to < 64,
    ensures
        r == mvv_lva_spec(*pos, *m),
{
    let victim: usize = if m.flag == FLAG_EP {
        PAWN
    } else {
        match pos.piece_at(m.to) {
            Some((_, p)) => p,
            None => PAWN,
        }
    };
    let attacker: usize = match pos.piece_at(m.from) {
        Some((_, p)) => p,
        None => PAWN,
    };
    ORDER_VALUE[victim] * 10 - ORDER_VALUE[attacker]
}

/// Whether a null move may be tried (see `null_move_ok_spec`).
pub fn null_move_ok(pos: &Position) -> (r: bool)
    requires
        pos.side < 2,
    ensures
        r == null_move_ok_spec(*pos),
{
    let us = pos.side;
    pos.occ[us] & !(pos.pieces[us][PAWN] | pos.pieces[us][KING]) != 0
}

/// The position after passing the turn (see `null_move_spec`).
pub fn make_null_move(z: &Zobrist, pos: &Position) -> (np: Position)
    requires
        pos.side < 2,
    ensures
        np == null_move_spec(*pos, z),
{
    let mut np = *pos;
    np.side = 1 - pos.side;
    np.ep_square = None;
    np.hash = np.compute_hash(z);
    np
}

/// The host's evaluation of `pos`, held to `-EVAL_LIMIT..=EVAL_LIMIT`.
/// Scores beyond `MATE_SCORE - 1000` (this limit) are read as mates
/// (`mate_spec`), and the search windows and their widening stop at
/// `-INF..INF`; an evaluation outside the band would be reported as a mate
/// and could empty an aspiration window, so it is held at the band's edge.
fn static_eval<H: SearchHost>(host: &mut H, pos: &Position) -> (r: i32)
    ensures
        -EVAL_LIMIT <= r <= EVAL_LIMIT,
{
    let e = host.evaluate(pos);
    if e > EVAL_LIMIT {
        EVAL_LIMIT
    } else if e < -EVAL_LIMIT {
        -EVAL_LIMIT
    } else {
        e
    }
}

/// Whether `keys` is in descending order.
pub open spec fn descending(keys: Seq<int>) -> bool {
    forall|p: int, q: int| 0 <= p < q < keys.len() ==> keys[p] >= keys[q]
}

impl Search {
    /// The ordering key of `m` (see `order_key`).
    fn key_of(&self, pos: &Position, m: &Move, tt_move: Option<Move>, ply: usize) -> (k: i32)
        requires
            self.wf(),
            ply <= MAX_PLY,
            pos.side < 2,
            m.from < 64,
            m.to < 64,
        ensures
            k == order_key(*self, *pos, *m, tt_move, ply as int),
    {
        if holds(tt_move, *m) {
            1000000
        } else if is_capture(pos, m) {
            500000 + mvv_lva(pos, m)
        } else if holds(self.killers[ply][0], *m) {
            90000
        } else if holds(self.killers[ply][1], *m) {
            80000
        } else {
            self.history[pos.side][m.from as usize][m.to as usize]
        }
    }

    /// `moves` sorted by descending ordering key, moves of equal key in
    /// their original order; unchanged when ordering is off.
    fn order_moves(&self, pos: &Position, moves: Vec<Move>, tt_move: Option<Move>, ply: usize) -> (r: Vec<Move>)
        requires
            self.wf(),
            ply <= MAX_PLY,
            pos.side < 2,
            forall|i: int| 0 <= i < moves.len() ==> (#[trigger] moves@[i]).from < 64 && moves@[i].to < 64,
        ensures
            r@.to_multiset() == moves@.to_multiset(),
            r.len() == moves.len(),
            !self.opts.use_ordering ==> r@ == moves@,
            self.opts.use_ordering ==> descending(r@.map_values(order_key_fn(*self, *pos, tt_move, ply as int))),
            self.opts.use_ordering ==> exists|perm: Seq<int>|
                #[trigger] stable_by(r@, moves@, order_key_fn(*self, *pos, tt_move, ply as int), perm),
    {
        if !self.opts.use_ordering {
            return moves;
        }
        let ghost orig = moves@;
        let mut ms = moves;
        let n = ms.len();
        let mut keys: Vec<i32> = Vec::new();
        for i in 0..n
            invariant
                self.wf(),
                ply <= MAX_PLY,
                pos.side < 2,
                n == ms.len(),
                ms@ == moves@,
                forall|k: int| 0 <= k < ms.len() ==> (#[trigger] ms@[k]).from < 64 && ms@[k].to < 64,
                keys.len() == i,
                forall|k: int| 0 <= k < i ==> keys@[k] == order_key(*self, *pos, #[trigger] ms@[k], tt_move, ply as int),
        {
            let k = self.key_of(pos, &ms[i], tt_move, ply);
            keys.push(k);
        }
        let ghost key_of_move = order_key_fn(*self, *pos, tt_move, ply as int);
        let ghost mut perm: Seq<int> = Seq::new(n as nat, |k: int| k);
        let mut i: usize = 1;
        while i < n
            invariant
                n == ms.len(),
                n == keys.len(),
                orig == moves@,
                orig.len() == n,
                1 <= i <= n || n == 0,
                ms@.to_multiset() == moves@.to_multiset(),
                forall|k: int| 0 <= k < n ==> keys@[k] == key_of_move(#[trigger] ms@[k]),
                forall|p: int, q: int| 0 <= p < q < i && q < n ==> keys@[p] >= keys@[q],
                perm.len() == n,
                forall|k: int| 0 <= k < n ==> 0 <= #[trigger] perm[k] < n && ms@[k] == orig[perm[k]],
                forall|p: int, q: int| 0 <= p < q < n ==> #[trigger] perm[p] != #[trigger] perm[q],
                forall|k: int| i <= k < n ==> #[trigger] perm[k] == k,
                forall|k: int| 0 <= k < i && k < n ==> #[trigger] perm[k] < i,
                forall|p: int, q: int|
                    0 <= p < q < i && q < n && keys@[p] == keys@[q] ==> #[trigger] perm[p] < #[trigger] perm[q],
            decreases n - i,
        {
            let mut j: usize = i;
            while j > 0 && keys[j - 1] < keys[j]
                invariant
                    n == ms.len(),
                    n == keys.len(),
                    orig.len() == n,
                    0 <= j <= i < n,
                    ms@.to_multiset() == moves@.to_multiset(),
                    forall|k: int| 0 <= k < n ==> keys@[k] == key_of_move(#[trigger] ms@[k]),
                    forall|p: int, q: int| 0 <= p < q <= i && p != j && q != j ==> keys@[p] >= keys@[q],
                    forall|q: int| j < q <= i ==> keys@[j as int] > #[trigger] keys@[q],
                    perm.len() == n,
                    forall|k: int| 0 <= k < n ==> 0 <= #[trigger] perm[k] < n && ms@[k] == orig[perm[k]],
                    forall|p: int, q: int| 0 <= p < q < n ==> #[trigger] perm[p] != #[trigger] perm[q],
                    forall|k: int| i < k < n ==> #[trigger] perm[k] == k,
                    perm[j as int] == i,
                    forall|k: int| 0 <= k <= i && k != j ==> #[trigger] perm[k] < i,
                    forall|p: int, q: int|
                        0 <= p < q <= i && p != j && q != j && keys@[p] == keys@[q] ==> #[trigger] perm[p]
                            < #[trigger] perm[q],
                decreases j,
            {
                let ka = keys[j - 1];
                let kb = keys[j];
                let a = ms[j - 1];
                let b = ms[j];
                proof {
                    broadcast use vstd::seq_lib::group_to_multiset_ensures;
                    broadcast use vstd::multiset::group_multiset_properties;
                    let s0 = ms@;
                    let s1 = s0.update(j - 1, b);
                    let s2 = s1.update(j as int, a);
                    assert(s1.to_multiset() == s0.to_multiset().insert(b).remove(a));
                    assert(s2.to_multiset() == s1.to_multiset().insert(a).remove(b));
                    assert(s2.to_multiset() =~= s0.to_multiset());
                    let pa = perm[j - 1];
                    let pb = perm[j as int];
                    perm = perm.update(j - 1, pb).update(j as int, pa);
                }
                keys.set(j - 1, kb);
                keys.set(j, ka);
                ms.set(j - 1, b);
                ms.set(j, a);
                j -= 1;
            }
            i += 1;
        }
        proof {
            let km = ms@.map_values(key_of_move);
            assert forall|p: int, q: int| 0 <= p < q < km.len() implies km[p] >= km[q] by {
                assert(keys@[p] == key_of_move(ms@[p]));
                assert(keys@[q] == key_of_move(ms@[q]));
            }
            if n == 0 {
                assert(ms@.len() == 0);
            }
            assert forall|p: int, q: int| 0 <= p < q < ms@.len() && key_of_move(#[trigger] ms@[p]) == key_of_move(
                #[trigger] ms@[q],
            ) implies perm[p] < perm[q] by {
                assert(keys@[p] == key_of_move(ms@[p]));
                assert(keys@[q] == key_of_move(ms@[q]));
            }
            assert(stable_by(ms@, moves@, key_of_move, perm));
        }
        ms
    }
}

/// `r` is `moves` rearranged by the index permutation `perm` (`r[k]` is
/// `moves[perm[k]]`), with moves of equal `key` kept in their original
/// order.
pub open spec fn stable_by(r: Seq<Move>, moves: Seq<Move>, key: spec_fn(Move) -> int, perm: Seq<int>) -> bool {
    &&& r.len() == moves.len()
    &&& perm.len() == moves.len()
    &&& forall|k: int| 0 <= k < perm.len() ==> 0 <= #[trigger] perm[k] < moves.len() && r[k] == moves[perm[k]]
    &&& forall|p: int, q: int| 0 <= p < q < perm.len() ==> #[trigger] perm[p] != #[trigger] perm[q]
    &&& forall|p: int, q: int|
        0 <= p < q < r.len() && key(#[trigger] r[p]) == key(#[trigger] r[q]) ==> perm[p] < perm[q]
}

/// Lower end of the range of scores a search with window lower bound
/// `alpha` returns: `alpha` or `-INF`, whichever is lower.
pub open spec fn score_lo(alpha: int) -> int {
    if alpha < -INF { alpha } else { -INF as int }
}

/// Upper end of the range of scores a search with window upper bound `beta`
/// returns: `beta` or `INF`, whichever is higher.
pub open spec fn score_hi(beta: int) -> int {
    if beta > INF { beta } else { INF as int }
}

/// Every move of `ms` is a legal move of `pos`.
pub open spec fn all_legal(pos: Position, z: &Zobrist, ms: Seq<Move>) -> bool {
    forall|i: int| 0 <= i < ms.len() ==> legal_moves(pos, z).contains(#[trigger] ms[i])
}

/// Legal moves can be made, and their squares are on the board.
proof fn lemma_all_legal_makeable(pos: Position, z: &Zobrist, ms: Seq<Move>)
    requires
        legal_ok(pos, z),
        all_legal(pos, z, ms),
    ensures
        forall|i: int| 0 <= i < ms.len() ==> make_ok(pos, #[trigger] ms[i]) && ms[i].from < 64 && ms[i].to < 64,
{
    assert forall|i: int| 0 <= i < ms.len() implies make_ok(pos, #[trigger] ms[i]) && ms[i].from < 64 && ms[i].to < 64 by {
        lemma_legal_move_makeable(pos, z, ms[i]);
    }
}

/// A permutation of legal moves holds legal moves only.
proof fn lemma_all_legal_perm(pos: Position, z: &Zobrist, a: Seq<Move>, b: Seq<Move>)
    requires
        all_legal(pos, z, a),
        b.to_multiset() == a.to_multiset(),
    ensures
        all_legal(pos, z, b),
{
    broadcast use vstd::seq_lib::group_to_multiset_ensures;
    assert forall|i: int| 0 <= i < b.len() implies legal_moves(pos, z).contains(#[trigger] b[i]) by {
        assert(b.contains(b[i]));
        assert(b.to_multiset().count(b[i]) > 0);
        assert(a.contains(b[i]));
        let k = choose|k: int| 0 <= k < a.len() && a[k] == b[i];
        assert(legal_moves(pos, z).contains(a[k]));
    }
}

/// The captures among `moves`, in order.
fn captures_of(pos: &Position, moves: &Vec<Move>) -> (r: Vec<Move>)
    requires
        pos.side < 2,
        forall|i: int| 0 <= i < moves.len() ==> (#[trigger] moves@[i]).to < 64,
    ensures
        r@ == moves@.filter(|m: Move| capture_spec(*pos, m)),
{
    let mut r: Vec<Move> = Vec::new();
    for i in 0..moves.len()
        invariant
            pos.side < 2,
            forall|k: int| 0 <= k < moves.len() ==> (#[trigger] moves@[k]).to < 64,
            r@ == moves@.take(i as int).filter(|m: Move| capture_spec(*pos, m)),
    {
        proof {
            assert(moves@.take(i + 1).drop_last() =~= moves@.take(i as int));
            reveal(Seq::filter);
        }
        if is_capture(pos, &moves[i]) {
            r.push(moves[i]);
        }
    }
    assert(moves@.take(moves.len() as int) =~= moves@);
    r
}

/// The captures of legal moves are legal moves.
proof fn lemma_filter_legal(pos: Position, z: &Zobrist, ms: Seq<Move>)
    requires
        all_legal(pos, z, ms),
    ensures
        all_legal(pos, z, ms.filter(|m: Move| capture_spec(pos, m))),
{
    let f = ms.filter(|m: Move| capture_spec(pos, m));
    assert forall|i: int| 0 <= i < f.len() implies legal_moves(pos, z).contains(#[trigger] f[i]) by {
        assert(f.contains(f[i]));
        ms.lemma_filter_contains_rev(|m: Move| capture_spec(pos, m), f[i]);
        assert(ms.contains(f[i]));
        let k = choose|k: int| 0 <= k < ms.len() && ms[k] == f[i];
        assert(legal_moves(pos, z).contains(ms[k]));
    }
}

impl Search {
    /// Quiescence search: the static evaluation, improved by captures until
    /// the position is quiet, inside the window `alpha..beta` (fail-hard at
    /// `beta`). Returns 0 once the search has been stopped. With quiescence
    /// off, the static evaluation itself; with move ordering off, the value
    /// `quiet_value` over the static evaluations the call used.
    #[verifier::spinoff_prover]
    #[verifier::rlimit(100)]
    fn quiescence<H: SearchHost>(
        &mut self,
        t: &Tables,
        z: &Zobrist,
        host: &mut H,
        pos: &Position,
        alpha: i32,
        beta: i32,
        ply: usize,
    ) -> (r: i32)
        requires
            t.wf(),
            old(self).wf(),
            pos.side < 2,
            alpha < beta,
            -WINDOW_LIMIT <= alpha,
            beta <= WINDOW_LIMIT,
            ply <= MAX_PLY,
        ensures
            final(self).wf(),
            keeps(*old(self), *final(self)),
            score_lo(alpha as int) <= r <= score_hi(beta as int),
            final(self).stop ==> r == 0,
            extends(old(self).evals@, final(self).evals@),
            !old(self).opts.use_quiescence && !final(self).stop ==> final(self).evals@ == old(self).evals@.push(r)
                && -EVAL_LIMIT <= r <= EVAL_LIMIT,
            old(self).opts.use_quiescence && !old(self).opts.use_ordering && !final(self).stop ==> quiet_value(
                *pos,
                z,
                ply as int,
                alpha as int,
                beta as int,
                final(self).evals@.skip(old(self).evals@.len() as int),
            ) == (r as int, final(self).evals@.len() - old(self).evals@.len()),
        decreases MAX_PLY - ply,
    {
        self.nodes = self.nodes.wrapping_add(1);
        self.check_time(host);
        if self.stop {
            proof {
                assert(self.evals@.take(self.evals@.len() as int) =~= self.evals@);
            }
            return 0;
        }
        let stand_pat = static_eval(host, pos);
        let ghost e_before = self.evals@;
        self.evals = Ghost(self.evals@.push(stand_pat));
        assert(self.evals@.take(e_before.len() as int) =~= e_before);
        let ghost e1 = self.evals@;
        assert(e1.skip(e_before.len() as int) =~= seq![stand_pat]);
        if !self.opts.use_quiescence {
            return stand_pat;
        }
        if stand_pat >= beta {
            return beta;
        }
                let mut a = alpha;
        if stand_pat > a {
            a = stand_pat;
        }
        if ply >= MAX_PLY {
            return a;
        }
        let all = match try_gen_legal(t, z, pos) {
            Some(m) => m,
            None => {
                return a;
            },
        };
        proof {
            assert(all_legal(*pos, z, all@));
            lemma_all_legal_makeable(*pos, z, all@);
        }
        let caps = captures_of(pos, &all);
        proof {
            lemma_filter_legal(*pos, z, all@);
            lemma_all_legal_makeable(*pos, z, caps@);
        }
        let moves = self.order_moves(pos, caps, None, ply);
        proof {
            lemma_all_legal_perm(*pos, z, caps@, moves@);
            lemma_all_legal_makeable(*pos, z, moves@);
        }
        let ghost s0 = *self;
        let ghost lo = score_lo(a as int);
        let ghost a0 = a;
        let ghost q = !self.opts.use_ordering;
        let mut i: usize = 0;
        proof {
            if q {
                assert(moves@ =~= capture_list(*pos, z));
            }
            assert(self.evals@.take(e1.len() as int) =~= e1);
            assert(self.evals@.skip(e1.len() as int) =~= Seq::<i32>::empty());
            assert forall|fut: Seq<i32>| #[trigger] (self.evals@.skip(e1.len() as int) + fut) == fut by {
                assert(self.evals@.skip(e1.len() as int) + fut =~= fut);
            }
        }
        while i < moves.len()
            invariant
                q == !old(self).opts.use_ordering,
                q ==> moves@ == capture_list(*pos, z),
                e1.len() == old(self).evals@.len() + 1,
                e1[e1.len() - 1] == stand_pat,
                e1.take(old(self).evals@.len() as int) == old(self).evals@,
                extends(e1, self.evals@),
                a0 == (if stand_pat > alpha { stand_pat } else { alpha }),
                stand_pat < beta,
                q ==> forall|fut: Seq<i32>|
                    #[trigger] quiet_loop(*pos, z, ply as int, beta as int, self.evals@.skip(e1.len() as int) + fut, 0, a0 as int)
                        == (quiet_loop(*pos, z, ply as int, beta as int, fut, i as int, a as int).0, (self.evals@.len()
                        - e1.len()) + quiet_loop(*pos, z, ply as int, beta as int, fut, i as int, a as int).1),
                q ==> quiet_loop(*pos, z, ply as int, beta as int, self.evals@.skip(e1.len() as int), 0, a0 as int) == (
                    quiet_loop(*pos, z, ply as int, beta as int, Seq::<i32>::empty(), i as int, a as int).0,
                    (self.evals@.len() - e1.len()) + quiet_loop(
                        *pos,
                        z,
                        ply as int,
                        beta as int,
                        Seq::<i32>::empty(),
                        i as int,
                        a as int,
                    ).1,
                ),
                t.wf(),
                self.wf(),
                keeps(*old(self), *self),
                !self.stop,
                pos.side < 2,
                ply < MAX_PLY,
                legal_ok(*pos, z),
                forall|k: int| 0 <= k < moves.len() ==> make_ok(*pos, #[trigger] moves@[k]),
                a0 <= a < beta,
                -WINDOW_LIMIT <= a0,
                beta <= WINDOW_LIMIT,
                lo == score_lo(a0 as int),
                lo <= a,
                alpha <= a0,
                old(self).opts.use_quiescence,
                extends(old(self).evals@, self.evals@),
            decreases moves.len() - i,
        {
            let mv = moves[i];
            let np = make_move(z, pos, &mv);
            let ghost mid = self.evals@;
            let ghost cur0 = self.evals@.skip(e1.len() as int);
            let ghost a_old = a;
            let child = self.quiescence(t, z, host, &np, -beta, -a, ply + 1);
            proof {
                lemma_extends_trans(old(self).evals@, mid, self.evals@);
                lemma_extends_trans(e1, mid, self.evals@);
            }
            let score = -child;
            if self.stop {
                return 0;
            }
            let ghost seg = self.evals@.skip(mid.len() as int);
            proof {
                if q {
                    assert(mid.skip(e1.len() as int) == cur0);
                    assert forall|fut: Seq<i32>|
                        #[trigger] quiet_loop(*pos, z, ply as int, beta as int, seg + fut, i as int, a_old as int) == (if score
                            >= beta {
                            (beta as int, seg.len() as int)
                        } else {
                            let a2: int = if score > a_old { score as int } else { a_old as int };
                            let rest = quiet_loop(*pos, z, ply as int, beta as int, fut, i + 1, a2);
                            (rest.0, seg.len() + rest.1)
                        }) by {
                        lemma_quiet_step(*pos, z, ply as int, beta as int, seg, fut, i as int, a_old as int);
                    }
                }
            }
            if score >= beta {
                proof {
                    if q {
                        let e = Seq::<i32>::empty();
                        assert(cur0 + (seg + e) =~= self.evals@.skip(e1.len() as int));
                        assert(seg + e =~= seg);
                        assert(quiet_loop(*pos, z, ply as int, beta as int, cur0 + (seg + e), 0, a0 as int) == (
                            quiet_loop(*pos, z, ply as int, beta as int, seg + e, i as int, a_old as int).0,
                            cur0.len() + quiet_loop(*pos, z, ply as int, beta as int, seg + e, i as int, a_old as int).1,
                        ));
                        assert(quiet_loop(*pos, z, ply as int, beta as int, seg + e, i as int, a_old as int) == (
                            beta as int,
                            seg.len() as int,
                        ));
                        assert(self.evals@.skip(old(self).evals@.len() as int) =~= seq![stand_pat]
                            + self.evals@.skip(e1.len() as int));
                        assert(self.evals@.skip(old(self).evals@.len() as int).skip(1) =~= self.evals@.skip(
                            e1.len() as int,
                        ));
                    }
                }
                return beta;
            }
            if score > a {
                a = score;
            }
            proof {
                if q {
                    assert forall|fut: Seq<i32>|
                        #[trigger] quiet_loop(
                            *pos,
                            z,
                            ply as int,
                            beta as int,
                            self.evals@.skip(e1.len() as int) + fut,
                            0,
                            a0 as int,
                        ) == (quiet_loop(*pos, z, ply as int, beta as int, fut, i + 1, a as int).0, (self.evals@.len()
                            - e1.len()) + quiet_loop(*pos, z, ply as int, beta as int, fut, i + 1, a as int).1) by {
                        assert(self.evals@.skip(e1.len() as int) + fut =~= cur0 + (seg + fut));
                        assert(quiet_loop(*pos, z, ply as int, beta as int, seg + fut, i as int, a_old as int) == (
                            quiet_loop(*pos, z, ply as int, beta as int, fut, i + 1, a as int).0,
                            seg.len() + quiet_loop(*pos, z, ply as int, beta as int, fut, i + 1, a as int).1,
                        ));
                    }
                    assert(self.evals@.skip(e1.len() as int) + Seq::<i32>::empty() =~= self.evals@.skip(
                        e1.len() as int,
                    ));
                }
            }
            i += 1;
        }
        proof {
            if q {
                assert(self.evals@.skip(old(self).evals@.len() as int) =~= seq![stand_pat] + self.evals@.skip(
                    e1.len() as int,
                ));
                assert(self.evals@.skip(old(self).evals@.len() as int).skip(1) =~= self.evals@.skip(e1.len() as int));
            }
        }
        a
    }
}

impl Search {
    /// `moves` without the excluded root moves, in order.
    fn without_excluded(&self, moves: Vec<Move>) -> (r: Vec<Move>)
        ensures
            r@ == moves@.filter(|m: Move| !self.root_exclude@.contains(m)),
    {
        let mut r: Vec<Move> = Vec::new();
        for i in 0..moves.len()
            invariant
                r@ == moves@.take(i as int).filter(|m: Move| !self.root_exclude@.contains(m)),
        {
            proof {
                assert(moves@.take(i + 1).drop_last() =~= moves@.take(i as int));
                reveal(Seq::filter);
            }
            if !contains_move(&self.root_exclude, moves[i]) {
                r.push(moves[i]);
            }
        }
        assert(moves@.take(moves.len() as int) =~= moves@);
        r
    }

    /// After a quiet move caused a beta cutoff at `ply`: it becomes the first
    /// killer of the ply (the former first killer moving to second) unless it
    /// already is, and its history score grows by `depth * depth`, held at
    /// `i32::MAX`.
    fn record_cutoff(&mut self, pos: &Position, mv: Move, depth: i32, ply: usize)
        requires
            old(self).wf(),
            pos.side < 2,
            mv.from < 64,
            mv.to < 64,
            0 <= depth <= MAX_PLY,
            ply <= MAX_PLY,
        ensures
            *final(self) == (Search { killers: final(self).killers, history: final(self).history, ..*old(self) }),
            final(self).killers@ == (if holds_move(old(self).killers@[ply as int][0], mv) {
                old(self).killers@
            } else {
                old(self).killers@.update(ply as int, [Some(mv), old(self).killers@[ply as int][0]])
            }),
            forall|c: int, f: int, t: int|
                0 <= c < 2 && 0 <= f < 64 && 0 <= t < 64 ==> #[trigger] final(self).history[c][f][t] == (
                if c == pos.side && f == mv.from && t == mv.to {
                    let v = old(self).history[c][f][t] + depth * depth;
                    (if v > i32::MAX { i32::MAX as int } else { v }) as i32
                } else {
                    old(self).history[c][f][t]
                }),
    {
        let k = self.killers[ply];
        if !holds(k[0], mv) {
            self.killers.set(ply, [Some(mv), k[0]]);
        }
        let side = pos.side;
        let f = mv.from as usize;
        let t = mv.to as usize;
        let h = self.history[side][f][t];
        assert(depth * depth <= 4096) by (nonlinear_arith)
            requires
                0 <= depth <= 64,
        ;
        let d2 = depth * depth;
        let v = if h > i32::MAX - d2 { i32::MAX } else { h + d2 };
        self.history[side][f][t] = v;
    }
}

impl Search {
    /// Negamax alpha-beta search of `pos` to `depth` plies, `ply` plies below
    /// the root, inside the window `alpha..beta`. Returns 0 once the search
    /// has been stopped; otherwise a score within `score_lo(alpha)` and
    /// `score_hi(beta)`. With the table, null-move pruning, principal
    /// variation search, move ordering and quiescence off (and no excluded
    /// root moves at the root), the score is the plain alpha-beta value
    /// (`plain_value`) over the static evaluations the call used, which it
    /// appends to `evals`, and at the root `root_best` becomes its best move.
    /// The table entry the probe read is kept in `last_probe`: when it gives
    /// nothing usable, a position without legal moves scores as mated
    /// (`-MATE_SCORE + ply`) or, unless null-move pruning may apply,
    /// stalemated (0).
    fn negamax<H: SearchHost>(
        &mut self,
        t: &Tables,
        z: &Zobrist,
        host: &mut H,
        pos: &Position,
        depth: i32,
        ply: usize,
        alpha: i32,
        beta: i32,
    ) -> (r: i32)
        requires
            t.wf(),
            old(self).wf(),
            pos.side < 2,
            0 <= depth,
            ply + depth <= MAX_PLY,
            alpha < beta,
            -(WINDOW_LIMIT - depth) <= alpha,
            beta <= WINDOW_LIMIT - depth,
        ensures
            final(self).wf(),
            keeps(*old(self), *final(self)),
            score_lo(alpha as int) <= r <= score_hi(beta as int),
            final(self).stop ==> r == 0,
            depth >= 1 && !final(self).stop ==> (!old(self).opts.use_tt ==> final(self).last_probe@ is None) && (final(self).last_probe@ matches Some(e) ==> e.hash == pos.hash),
            depth >= 1 && (final(self).last_probe@ is None || final(self).last_probe@->0.depth < depth) && legal_ok(
                *pos,
                z,
            ) && legal_moves(*pos, z).len() == 0 && !final(self).stop && in_check_spec(*pos, pos.side as int) ==> r
                == -MATE_SCORE + ply,
            depth >= 1 && (final(self).last_probe@ is None || final(self).last_probe@->0.depth < depth) && !(old(self).opts.use_null_move && depth >= 3 && ply > 0) && legal_ok(*pos, z) && legal_moves(*pos, z).len() == 0
                && !final(self).stop && !in_check_spec(*pos, pos.side as int) ==> r == 0,
            extends(old(self).evals@, final(self).evals@),
            plain_opts(old(self).opts) && !final(self).stop && (ply > 0 || old(self).root_exclude@.len() == 0)
                ==> plain_value(
                *pos,
                z,
                depth as int,
                ply as int,
                alpha as int,
                beta as int,
                final(self).evals@.skip(old(self).evals@.len() as int),
            ).0 == r && plain_value(
                *pos,
                z,
                depth as int,
                ply as int,
                alpha as int,
                beta as int,
                final(self).evals@.skip(old(self).evals@.len() as int),
            ).1 == final(self).evals@.len() - old(self).evals@.len(),
            plain_opts(old(self).opts) && !final(self).stop && ply == 0 && old(self).root_exclude@.len() == 0 && depth
                >= 1 && legal_ok(*pos, z) && legal_moves(*pos, z).len() > 0 ==> final(self).root_best == plain_value(
                *pos,
                z,
                depth as int,
                ply as int,
                alpha as int,
                beta as int,
                final(self).evals@.skip(old(self).evals@.len() as int),
            ).2,
        decreases depth, 2int,
    {
        self.nodes = self.nodes.wrapping_add(1);
        self.check_time(host);
        proof {
            assert(self.evals@.take(self.evals@.len() as int) =~= self.evals@);
        }
        if self.stop {
            return 0;
        }
        let in_chk = pos.pieces[pos.side][KING] != 0 && in_check(t, pos, pos.side);
        if depth <= 0 {
            let ghost e0 = self.evals@;
            let q = self.quiescence(t, z, host, pos, alpha, beta, ply);
            proof {
                if !self.opts.use_quiescence && !self.stop {
                    assert(self.evals@.skip(e0.len() as int) =~= seq![q]);
                }
                lemma_plain_unfold(*pos, z, depth as int, ply as int, alpha as int, beta as int, self.evals@.skip(
                    e0.len() as int,
                ));
            }
            return q;
        }
        let tt_hit = self.tt_probe(host, pos.hash);
        let r = self.negamax_node(t, z, host, pos, depth, ply, alpha, beta, in_chk, tt_hit);
        self.last_probe = Ghost(tt_hit);
        r
    }

    /// The part of `negamax` after the table probe, for the entry `tt_hit`
    /// the probe gave (`None` for a miss): cutoff or window narrowing by the
    /// entry, null-move pruning, then the move loop; checkmate scores
    /// `-MATE_SCORE + ply` and stalemate 0 when the entry decides nothing,
    /// and on a miss under plain options the value `plain_value`.
    fn negamax_node<H: SearchHost>(
        &mut self,
        t: &Tables,
        z: &Zobrist,
        host: &mut H,
        pos: &Position,
        depth: i32,
        ply: usize,
        alpha: i32,
        beta: i32,
        in_chk: bool,
        tt_hit: Option<TTEntry>,
    ) -> (r: i32)
        requires
            t.wf(),
            old(self).wf(),
            !old(self).stop,
            pos.side < 2,
            1 <= depth,
            ply + depth <= MAX_PLY,
            alpha < beta,
            -(WINDOW_LIMIT - depth) <= alpha,
            beta <= WINDOW_LIMIT - depth,
            in_chk == (pos.pieces[pos.side as int][KING as int] != 0 && in_check_spec(*pos, pos.side as int)),
            tt_hit matches Some(e) ==> -INF <= e.score <= INF,
        ensures
            final(self).wf(),
            keeps(*old(self), *final(self)),
            score_lo(alpha as int) <= r <= score_hi(beta as int),
            final(self).stop ==> r == 0,
            (tt_hit is None || tt_hit->0.depth < depth) && legal_ok(*pos, z) && legal_moves(*pos, z).len() == 0
                && !final(self).stop && in_check_spec(*pos, pos.side as int) ==> r == -MATE_SCORE + ply,
            (tt_hit is None || tt_hit->0.depth < depth) && !(old(self).opts.use_null_move && depth >= 3 && ply > 0)
                && legal_ok(*pos, z) && legal_moves(*pos, z).len() == 0 && !final(self).stop && !in_check_spec(
                *pos,
                pos.side as int,
            ) ==> r == 0,
            extends(old(self).evals@, final(self).evals@),
            plain_opts(old(self).opts) && tt_hit is None && !final(self).stop && (ply > 0
                || old(self).root_exclude@.len() == 0) ==> plain_value(
                *pos,
                z,
                depth as int,
                ply as int,
                alpha as int,
                beta as int,
                final(self).evals@.skip(old(self).evals@.len() as int),
            ).0 == r && plain_value(
                *pos,
                z,
                depth as int,
                ply as int,
                alpha as int,
                beta as int,
                final(self).evals@.skip(old(self).evals@.len() as int),
            ).1 == final(self).evals@.len() - old(self).evals@.len(),
            plain_opts(old(self).opts) && tt_hit is None && !final(self).stop && ply == 0
                && old(self).root_exclude@.len() == 0 && legal_ok(*pos, z) && legal_moves(*pos, z).len() > 0
                ==> final(self).root_best == plain_value(
                *pos,
                z,
                depth as int,
                ply as int,
                alpha as int,
                beta as int,
                final(self).evals@.skip(old(self).evals@.len() as int),
            ).2,
        decreases depth, 1int,
    {
        let ghost e0 = self.evals@;
        proof {
            assert(self.evals@.take(e0.len() as int) =~= e0);
            assert(self.evals@.skip(e0.len() as int) =~= Seq::<i32>::empty());
            lemma_plain_unfold(*pos, z, depth as int, ply as int, alpha as int, beta as int, Seq::<i32>::empty());
        }
        let excluding = ply == 0 && self.root_exclude.len() > 0;
        let tt_move = match tt_hit {
            Some(e) => e.best,
            None => None,
        };
        let mut a = alpha;
        let mut b = beta;
        if let Some(e) = tt_hit {
            if e.depth as i32 >= depth && !excluding {
                if e.flag == TT_FLAG_EXACT {
                    return e.score;
                } else if e.flag == TT_FLAG_LOWER {
                    if e.score > a {
                        a = e.score;
                    }
                } else if e.flag == TT_FLAG_UPPER {
                    if e.score < b {
                        b = e.score;
                    }
                }
                if a >= b {
                    return e.score;
                }
            }
        }
        if self.opts.use_null_move && depth >= 3 && !in_chk && ply > 0 && null_move_ok(pos) {
            let np = make_null_move(z, pos);
            let child = self.negamax(t, z, host, &np, depth - 3, ply + 1, -b, -b + 1);
            proof {
                lemma_extends_trans(e0, e0, self.evals@);
            }
            if self.stop {
                return 0;
            }
            if -child >= b {
                return b;
            }
        }
        let all = match try_gen_legal(t, z, pos) {
            Some(m) => m,
            None => {
                return 0;
            },
        };
        let ghost all_seq = all@;
        let moves = if excluding {
            self.without_excluded(all)
        } else {
            all
        };
        proof {
            assert(all_legal(*pos, z, all_seq));
            if excluding {
                assert forall|i: int| 0 <= i < moves@.len() implies legal_moves(*pos, z).contains(
                    #[trigger] moves@[i],
                ) by {
                    assert(moves@.contains(moves@[i]));
                    all_seq.lemma_filter_contains_rev(|m: Move| !self.root_exclude@.contains(m), moves@[i]);
                    let k = choose|k: int| 0 <= k < all_seq.len() && all_seq[k] == moves@[i];
                    assert(legal_moves(*pos, z).contains(all_seq[k]));
                }
            }
            assert(all_legal(*pos, z, moves@));
            lemma_all_legal_makeable(*pos, z, moves@);
        }
        if moves.len() == 0 {
            return if in_chk {
                -MATE_SCORE + ply as i32
            } else {
                0
            };
        }
        let ordered = self.order_moves(pos, moves, tt_move, ply);
        proof {
            lemma_all_legal_perm(*pos, z, moves@, ordered@);
            lemma_all_legal_makeable(*pos, z, ordered@);
        }
        let ghost e1 = self.evals@;
        let (best_score, best_move) = self.search_moves(t, z, host, pos, &ordered, depth, ply, a, b, in_chk);
        proof {
            lemma_extends_trans(e0, e1, self.evals@);
            lemma_plain_unfold(*pos, z, depth as int, ply as int, alpha as int, beta as int, self.evals@.skip(
                e0.len() as int,
            ));
        }
        if self.stop {
            return 0;
        }
        if ply == 0 {
            self.root_best = best_move;
        }
        let flag = if best_score <= alpha {
            TT_FLAG_UPPER
        } else if best_score >= b {
            TT_FLAG_LOWER
        } else {
            TT_FLAG_EXACT
        };
        self.tt_store(host, pos.hash, depth as i8, best_score, flag, best_move);
        best_score
    }

    /// The move loop of `negamax`: searches `moves` in order (principal
    /// variation search with late move reductions when enabled) and returns
    /// the best score and move, stopping at the first beta cutoff; for the
    /// legal moves in generation order under plain options, the score of
    /// `plain_loop`.
    #[verifier::spinoff_prover]
    #[verifier::rlimit(100)]
    fn search_moves<H: SearchHost>(
        &mut self,
        t: &Tables,
        z: &Zobrist,
        host: &mut H,
        pos: &Position,
        moves: &Vec<Move>,
        depth: i32,
        ply: usize,
        alpha: i32,
        beta: i32,
        in_chk: bool,
    ) -> (r: (i32, Option<Move>))
        requires
            t.wf(),
            old(self).wf(),
            !old(self).stop,
            pos.side < 2,
            1 <= depth,
            ply + depth <= MAX_PLY,
            alpha < beta,
            -(WINDOW_LIMIT - depth) <= alpha,
            beta <= WINDOW_LIMIT - depth,
            legal_ok(*pos, z),
            forall|k: int| 0 <= k < moves.len() ==> make_ok(*pos, #[trigger] moves@[k]) && moves@[k].from < 64
                && moves@[k].to < 64,
        ensures
            final(self).wf(),
            keeps(*old(self), *final(self)),
            !final(self).stop ==> -INF <= r.0 <= score_hi(beta as int),
            extends(old(self).evals@, final(self).evals@),
            plain_opts(old(self).opts) && moves@ == legal_moves(*pos, z) && !final(self).stop ==> plain_loop(
                *pos,
                z,
                depth as int,
                ply as int,
                beta as int,
                final(self).evals@.skip(old(self).evals@.len() as int),
                0,
                alpha as int,
                -INF as int,
                None,
            ) == (r.0 as int, final(self).evals@.len() - old(self).evals@.len(), r.1),
        decreases depth, 0int,
    {
        let ghost e0 = self.evals@;
        let ghost plain = plain_opts(self.opts) && moves@ == legal_moves(*pos, z);
        let ghost (dd, pp, bb, aa) = (depth as int, ply as int, beta as int, alpha as int);
        let mut best: i32 = -INF;
        let mut best_move: Option<Move> = None;
        let mut a = alpha;
        let mut i: usize = 0;
        proof {
            assert(self.evals@.take(e0.len() as int) =~= e0);
            assert forall|fut: Seq<i32>| #[trigger] (self.evals@.skip(e0.len() as int) + fut) == fut by {
                assert(self.evals@.skip(e0.len() as int) + fut =~= fut);
            }
            if plain && moves.len() == 0 {
                lemma_loop_end(*pos, z, dd, pp, bb, self.evals@.skip(e0.len() as int), 0, aa, -INF as int, None);
                assert(self.evals@.skip(e0.len() as int) =~= Seq::<i32>::empty());
            }
        }
        while i < moves.len()
            invariant_except_break
                a < beta,
                plain ==> forall|fut: Seq<i32>|
                    #[trigger] plain_loop(*pos, z, dd, pp, bb, self.evals@.skip(e0.len() as int) + fut, 0, aa, -INF as int, None)
                        == ({
                        let rest = plain_loop(*pos, z, dd, pp, bb, fut, i as int, a as int, best as int, best_move);
                        (rest.0, (self.evals@.len() - e0.len()) + rest.1, rest.2)
                    }),
                plain && i >= moves.len() ==> plain_loop(
                    *pos,
                    z,
                    dd,
                    pp,
                    bb,
                    self.evals@.skip(e0.len() as int),
                    0,
                    aa,
                    -INF as int,
                    None,
                ) == (best as int, self.evals@.len() - e0.len(), best_move),
            invariant
                t.wf(),
                self.wf(),
                keeps(*old(self), *self),
                !self.stop,
                pos.side < 2,
                1 <= depth,
                ply + depth <= MAX_PLY,
                alpha <= a,
                -(WINDOW_LIMIT - depth) <= alpha,
                beta <= WINDOW_LIMIT - depth,
                -INF <= best <= score_hi(beta as int),
                forall|k: int| 0 <= k < moves.len() ==> make_ok(*pos, #[trigger] moves@[k]) && moves@[k].from < 64
                    && moves@[k].to < 64,
                e0 == old(self).evals@,
                extends(e0, self.evals@),
                plain == (plain_opts(old(self).opts) && moves@ == legal_moves(*pos, z)),
                legal_ok(*pos, z),
                dd == depth,
                pp == ply,
                bb == beta,
                aa == alpha,
            ensures
                plain && !self.stop ==> plain_loop(
                    *pos,
                    z,
                    dd,
                    pp,
                    bb,
                    self.evals@.skip(e0.len() as int),
                    0,
                    aa,
                    -INF as int,
                    None,
                ) == (best as int, self.evals@.len() - e0.len(), best_move),
            decreases moves.len() - i,
        {
            let ghost cur0 = self.evals@.skip(e0.len() as int);
            let ghost a_old = a;
            let ghost best_old = best;
            let ghost bm_old = best_move;
            let mv = moves[i];
            let np = make_move(z, pos, &mv);
            let is_cap = is_capture(pos, &mv);
            let gives_check = np.pieces[np.side][KING] != 0 && in_check(t, &np, np.side);
            let mut score: i32;
            let ghost mid = self.evals@;
            if self.opts.use_pvs && i > 0 {
                let mut reduction: i32 = 0;
                if self.opts.use_lmr && depth >= 3 && i >= 3 && !is_cap && !gives_check && !in_chk {
                    reduction = if i >= 8 {
                        2
                    } else {
                        1
                    };
                }
                let c1 = self.negamax(t, z, host, &np, depth - 1 - reduction, ply + 1, -a - 1, -a);
                score = -c1;
                if !self.stop && score > a && (reduction > 0 || score < beta) {
                    let ghost mid2 = self.evals@;
                    let c2 = self.negamax(t, z, host, &np, depth - 1, ply + 1, -beta, -a);
                    proof {
                        lemma_extends_trans(mid, mid2, self.evals@);
                    }
                    score = -c2;
                }
            } else {
                let c = self.negamax(t, z, host, &np, depth - 1, ply + 1, -beta, -a);
                score = -c;
            }
            proof {
                lemma_extends_trans(e0, mid, self.evals@);
            }
            if self.stop {
                return (0, None);
            }
            if score > best {
                best = score;
                best_move = Some(mv);
            }
            if score > a {
                a = score;
            }
            let ghost seg = self.evals@.skip(mid.len() as int);
            proof {
                if plain {
                    assert(mid.skip(e0.len() as int) == cur0);
                    assert(self.evals@.skip(e0.len() as int) =~= cur0 + seg);
                    assert forall|fut: Seq<i32>|
                        #[trigger] plain_loop(*pos, z, dd, pp, bb, seg + fut, i as int, a_old as int, best_old as int, bm_old)
                            == (if a >= beta {
                            (best as int, seg.len() as int, best_move)
                        } else {
                            let rest = plain_loop(*pos, z, dd, pp, bb, fut, i + 1, a as int, best as int, best_move);
                            (rest.0, seg.len() + rest.1, rest.2)
                        }) by {
                        lemma_loop_step(*pos, z, dd, pp, bb, seg, fut, i as int, a_old as int, best_old as int, bm_old);
                    }
                }
            }
            if a >= beta {
                if !is_cap {
                    self.record_cutoff(pos, mv, depth, ply);
                }
                proof {
                    if plain {
                        let e = Seq::<i32>::empty();
                        assert(cur0 + (seg + e) =~= self.evals@.skip(e0.len() as int));
                        assert(seg + e =~= seg);
                        assert(plain_loop(*pos, z, dd, pp, bb, cur0 + (seg + e), 0, aa, -INF as int, None) == ({
                            let rest = plain_loop(*pos, z, dd, pp, bb, seg + e, i as int, a_old as int, best_old as int, bm_old);
                            (rest.0, cur0.len() + rest.1, rest.2)
                        }));
                        assert(plain_loop(*pos, z, dd, pp, bb, seg + e, i as int, a_old as int, best_old as int, bm_old)
                            == (best as int, seg.len() as int, best_move));
                    }
                }
                break;
            }
            proof {
                if plain {
                    assert forall|fut: Seq<i32>|
                        #[trigger] plain_loop(*pos, z, dd, pp, bb, self.evals@.skip(e0.len() as int) + fut, 0, aa, -INF as int, None)
                            == ({
                            let rest = plain_loop(*pos, z, dd, pp, bb, fut, i + 1, a as int, best as int, best_move);
                            (rest.0, (self.evals@.len() - e0.len()) + rest.1, rest.2)
                        }) by {
                        assert(self.evals@.skip(e0.len() as int) + fut =~= cur0 + (seg + fut));
                        assert(plain_loop(*pos, z, dd, pp, bb, cur0 + (seg + fut), 0, aa, -INF as int, None) == ({
                            let rest = plain_loop(*pos, z, dd, pp, bb, seg + fut, i as int, a_old as int, best_old as int, bm_old);
                            (rest.0, cur0.len() + rest.1, rest.2)
                        }));
                        assert(plain_loop(*pos, z, dd, pp, bb, seg + fut, i as int, a_old as int, best_old as int, bm_old)
                            == ({
                            let rest = plain_loop(*pos, z, dd, pp, bb, fut, i + 1, a as int, best as int, best_move);
                            (rest.0, seg.len() + rest.1, rest.2)
                        }));
                    }
                    if i + 1 >= moves.len() {
                        let e = Seq::<i32>::empty();
                        lemma_loop_end(*pos, z, dd, pp, bb, e, i + 1, a as int, best as int, best_move);
                        assert(self.evals@.skip(e0.len() as int) + e =~= self.evals@.skip(e0.len() as int));
                        assert(plain_loop(*pos, z, dd, pp, bb, self.evals@.skip(e0.len() as int) + e, 0, aa, -INF as int, None)
                            == ({
                            let rest = plain_loop(*pos, z, dd, pp, bb, e, i + 1, a as int, best as int, best_move);
                            (rest.0, (self.evals@.len() - e0.len()) + rest.1, rest.2)
                        }));
                    }
                }
            }
            i += 1;
        }
        (best, best_move)
    }
}

/// The position reached from `pos` by playing `line`.
pub open spec fn line_end(pos: Position, z: &Zobrist, line: Seq<Move>) -> Position
    decreases line.len(),
{
    if line.len() == 0 {
        pos
    } else {
        make_move_spec(line_end(pos, z, line.drop_last()), line.last(), z)
    }
}

/// Whether every move of `line` is legal in the position the moves before it
/// lead to from `pos`.
pub open spec fn legal_line(pos: Position, z: &Zobrist, line: Seq<Move>) -> bool
    decreases line.len(),
{
    line.len() == 0 || {
        &&& legal_line(pos, z, line.drop_last())
        &&& legal_ok(line_end(pos, z, line.drop_last()), z)
        &&& legal_moves(line_end(pos, z, line.drop_last()), z).contains(line.last())
    }
}

/// The first move of `ms` that is not among the excluded moves `exclude`.
pub open spec fn first_playable(ms: Seq<Move>, exclude: Seq<Move>) -> Option<Move>
    decreases ms.len(),
{
    if ms.len() == 0 {
        None
    } else if !exclude.contains(ms[0]) {
        Some(ms[0])
    } else {
        first_playable(ms.drop_first(), exclude)
    }
}

/// Whether `m` may be answered for `pos`: a legal move that is not among
/// the excluded root moves.
pub open spec fn playable(pos: Position, z: &Zobrist, exclude: Seq<Move>, m: Move) -> bool {
    &&& legal_ok(pos, z)
    &&& legal_moves(pos, z).contains(m)
    &&& !exclude.contains(m)
}

impl Search {
    /// The principal variation from `pos`: the best moves stored in the
    /// transposition table, followed while each is legal, at most `max_len`
    /// of them, stopping at a repeated position; its first move is never an
    /// excluded root move.
    #[verifier::rlimit(30)]
    fn extract_pv<H: SearchHost>(&self, t: &Tables, z: &Zobrist, host: &mut H, pos: &Position, max_len: usize) -> (pv: Vec<Move>)
        requires
            t.wf(),
        ensures
            legal_line(*pos, z, pv@),
            pv.len() <= max_len,
            pv.len() > 0 ==> !self.root_exclude@.contains(pv@[0]),
            !self.opts.use_tt ==> pv.len() == 0,
    {
        let mut pv: Vec<Move> = Vec::new();
        let mut cur = *pos;
        let mut seen: HashSet<u64> = HashSet::new();
        let mut i: usize = 0;
        while i < max_len
            invariant
                t.wf(),
                i <= max_len,
                pv.len() <= i,
                cur == line_end(*pos, z, pv@),
                legal_line(*pos, z, pv@),
                pv.len() > 0 ==> !self.root_exclude@.contains(pv@[0]),
                !self.opts.use_tt ==> pv.len() == 0,
            decreases max_len - i,
        {
            if !seen.insert(cur.hash) {
                break;
            }
            let entry = match self.tt_probe(host, cur.hash) {
                Some(e) => e,
                None => {
                    break;
                },
            };
            let mv = match entry.best {
                Some(m) => m,
                None => {
                    break;
                },
            };
            let legal = match try_gen_legal(t, z, &cur) {
                Some(ms) => ms,
                None => {
                    break;
                },
            };
            if !contains_move(&legal, mv) {
                break;
            }
            if pv.len() == 0 && contains_move(&self.root_exclude, mv) {
                break;
            }
            proof {
                lemma_legal_move_makeable(cur, z, mv);
            }
            let ghost before = pv@;
            pv.push(mv);
            proof {
                assert(pv@.drop_last() =~= before);
            }
            cur = make_move(z, &cur, &mv);
            i += 1;
        }
        pv
    }

    /// One iteration at `depth`: a search with the aspiration window
    /// `prev_score - 50 .. prev_score + 50` when enabled (from depth 4), held
    /// to `-INF..INF`, widened by 100 on the side the score falls out (again
    /// held to `-INF..INF`) until the score falls inside, the window cannot
    /// widen on that side any more, or the search stops. Without aspiration
    /// windows, one search in the full window `-INF..INF`.
    #[verifier::rlimit(50)]
    fn aspiration<H: SearchHost>(
        &mut self,
        t: &Tables,
        z: &Zobrist,
        host: &mut H,
        pos: &Position,
        depth: i32,
        prev_score: i32,
    ) -> (score: i32)
        requires
            t.wf(),
            old(self).wf(),
            legal_ok(*pos, z),
            1 <= depth <= MAX_PLY,
            -INF <= prev_score <= INF,
        ensures
            final(self).wf(),
            keeps(*old(self), *final(self)),
            -INF <= score <= INF,
            extends(old(self).evals@, final(self).evals@),
            plain_opts(old(self).opts) && !old(self).opts.use_aspiration && old(self).root_exclude@.len() == 0
                && !final(self).stop ==> plain_value(
                *pos,
                z,
                depth as int,
                0,
                -INF as int,
                INF as int,
                final(self).evals@.skip(old(self).evals@.len() as int),
            ).0 == score && plain_value(
                *pos,
                z,
                depth as int,
                0,
                -INF as int,
                INF as int,
                final(self).evals@.skip(old(self).evals@.len() as int),
            ).1 == final(self).evals@.len() - old(self).evals@.len(),
            plain_opts(old(self).opts) && !old(self).opts.use_aspiration && old(self).root_exclude@.len() == 0
                && !final(self).stop && legal_moves(*pos, z).len() > 0 ==> final(self).root_best == plain_value(
                *pos,
                z,
                depth as int,
                0,
                -INF as int,
                INF as int,
                final(self).evals@.skip(old(self).evals@.len() as int),
            ).2,
    {
        let mut alpha: i32 = -INF;
        let mut beta: i32 = INF;
        if self.opts.use_aspiration && depth >= 4 {
            alpha = if prev_score - 50 < -INF {
                -INF
            } else {
                prev_score - 50
            };
            beta = if prev_score + 50 > INF {
                INF
            } else {
                prev_score + 50
            };
        }
        let ghost s0 = *self;
        proof {
            assert(self.evals@.take(self.evals@.len() as int) =~= self.evals@);
        }
        let mut score: i32 = 0;
        loop
            invariant_except_break
                !s0.opts.use_aspiration ==> alpha == -INF && beta == INF && self.evals@ == s0.evals@,
            invariant
                t.wf(),
                self.wf(),
                keeps(s0, *self),
                1 <= depth <= MAX_PLY,
                legal_ok(*pos, z),
                -INF <= alpha < beta <= INF,
                -INF <= score <= INF,
                s0 == *old(self),
                extends(s0.evals@, self.evals@),
            ensures
                -INF <= score <= INF,
                extends(s0.evals@, self.evals@),
                keeps(s0, *self),
                self.wf(),
                plain_opts(s0.opts) && !s0.opts.use_aspiration && s0.root_exclude@.len() == 0 && !self.stop
                    ==> plain_value(
                    *pos,
                    z,
                    depth as int,
                    0,
                    -INF as int,
                    INF as int,
                    self.evals@.skip(s0.evals@.len() as int),
                ).0 == score && plain_value(
                    *pos,
                    z,
                    depth as int,
                    0,
                    -INF as int,
                    INF as int,
                    self.evals@.skip(s0.evals@.len() as int),
                ).1 == self.evals@.len() - s0.evals@.len(),
                plain_opts(s0.opts) && !s0.opts.use_aspiration && s0.root_exclude@.len() == 0 && !self.stop
                    && legal_moves(*pos, z).len() > 0 ==> self.root_best == plain_value(
                    *pos,
                    z,
                    depth as int,
                    0,
                    -INF as int,
                    INF as int,
                    self.evals@.skip(s0.evals@.len() as int),
                ).2,
            decreases (alpha + INF) + (INF - beta),
        {
            let ghost mid = self.evals@;
            score = self.negamax(t, z, host, pos, depth, 0, alpha, beta);
            proof {
                lemma_extends_trans(s0.evals@, mid, self.evals@);
            }
            if self.stop {
                break;
            }
            if score <= alpha {
                let na = if alpha - 100 < -INF {
                    -INF
                } else {
                    alpha - 100
                };
                if na == alpha {
                    break;
                }
                alpha = na;
            } else if score >= beta {
                let nb = if beta + 100 > INF {
                    INF
                } else {
                    beta + 100
                };
                if nb == beta {
                    break;
                }
                beta = nb;
            } else {
                break;
            }
        }
        score
    }

    /// After the iteration at `depth` scored `score`: extracts the principal
    /// variation from the table (when the table gives none, the best root
    /// move of the iteration alone, if it is still playable), keeps it as
    /// `last_pv`, reports the iteration to the host and returns the
    /// variation's first move.
    fn finish_depth<H: SearchHost>(
        &mut self,
        t: &Tables,
        z: &Zobrist,
        host: &mut H,
        pos: &Position,
        depth: i32,
        score: i32,
    ) -> (first: Option<Move>)
        requires
            t.wf(),
            1 <= depth <= MAX_PLY,
            -INF <= score <= INF,
        ensures
            *final(self) == (Search { last_pv: final(self).last_pv, reports: final(self).reports, ..*old(self) }),
            final(self).reports@.len() == old(self).reports@.len() + 1,
            final(self).reports@.drop_last() == old(self).reports@,
            report_ok(*pos, z, final(self).reports@.last(), depth as int),
            final(self).reports@.last().score_cp == score,
            final(self).reports@.last().nodes == old(self).nodes,
            final(self).reports@.last().pv@ == final(self).last_pv@,
            first == (if final(self).last_pv@.len() > 0 { Some(final(self).last_pv@[0]) } else { None::<Move> }),
            first matches Some(m) ==> playable(*pos, z, old(self).root_exclude@, m),
            final(self).last_pv@.len() == 0 ==> !(old(self).root_best matches Some(m) && playable(
                *pos,
                z,
                old(self).root_exclude@,
                m,
            )),
            !old(self).opts.use_tt ==> final(self).last_pv@ == (match old(self).root_best {
                Some(m) => if playable(*pos, z, old(self).root_exclude@, m) {
                    seq![m]
                } else {
                    Seq::<Move>::empty()
                },
                None => Seq::<Move>::empty(),
            }),
    {
        let mut pv = self.extract_pv(t, z, host, pos, depth as usize);
        if pv.len() == 0 {
            if let Some(m) = self.root_best {
                if let Some(legal) = try_gen_legal(t, z, pos) {
                    if contains_move(&legal, m) && !contains_move(&self.root_exclude, m) {
                        pv.push(m);
                        proof {
                            assert(pv@.drop_last() =~= Seq::<Move>::empty());
                            assert(line_end(*pos, z, pv@.drop_last()) == *pos);
                            assert(legal_line(*pos, z, pv@.drop_last()));
                            assert(pv@ =~= seq![m]);
                        }
                    }
                }
            }
        }
        let mut first: Option<Move> = None;
        if pv.len() > 0 {
            first = Some(pv[0]);
            proof {
                lemma_legal_line_first(*pos, z, pv@);
            }
        }
        self.last_pv = pv.clone();
        let mate = mate_in(score);
        let now = host.now_ms();
        let info = DepthInfo {
            depth: depth as u32,
            score_cp: score,
            mate,
            nodes: self.nodes,
            time_ms: now.saturating_sub(self.start_ms),
            pv,
        };
        host.report(&info);
        let ghost r0 = self.reports@;
        self.reports = Ghost(self.reports@.push(info));
        assert(self.reports@.drop_last() =~= r0);
        first
    }

    /// Iterative deepening: searches `pos` to depth 1, 2, ... up to the depth
    /// limit (`depth_limit`) or until the time limit stops it, with
    /// aspiration windows when enabled, and reports each completed iteration
    /// to the host (recorded in `reports`: iteration `i` reports depth `i`).
    /// Returns the best move of the last iteration that gave one (the first
    /// move of its principal variation, or with the table off the best root
    /// move the iteration found), else the first legal move not excluded
    /// (so always that move when the depth limit is 0); `None` exactly when
    /// no legal move is left to play (or moves cannot be generated for
    /// `pos`). Unless stopped by time, every iteration up to the limit
    /// completes; and then, under plain options without aspiration windows
    /// and with no excluded root moves, each iteration reports the plain
    /// alpha-beta value (`plain_value`) of `pos` at its depth in the full
    /// window, over the static evaluations it used (`iter_evals`), and the
    /// move returned is the best move plain alpha-beta finds at the last
    /// completed depth (the first move reaching that value).
    #[verifier::rlimit(60)]
    pub fn iterative_deepening<H: SearchHost>(
        &mut self,
        t: &Tables,
        z: &Zobrist,
        host: &mut H,
        pos: &Position,
        limits: &SearchLimits,
    ) -> (r: Option<Move>)
        requires
            t.wf(),
            old(self).wf(),
        ensures
            final(self).wf(),
            final(self).opts == old(self).opts,
            final(self).root_exclude == old(self).root_exclude,
            match r {
                Some(m) => playable(*pos, z, old(self).root_exclude@, m),
                None => forall|m: Move| !playable(*pos, z, old(self).root_exclude@, m),
            },
            legal_ok(*pos, z) && limits.depth == Some(0u32) ==> r == first_playable(
                legal_moves(*pos, z),
                old(self).root_exclude@,
            ),
            final(self).last_pv@.len() > 0 && final(self).completed_depth >= 1 ==> r == Some(final(self).last_pv@[0]),
            final(self).completed_depth >= 1 ==> legal_line(*pos, z, final(self).last_pv@),
            final(self).reports@.len() == final(self).completed_depth,
            forall|i: int| 0 <= i < final(self).reports@.len() ==> report_ok(*pos, z, #[trigger] final(self).reports@[i], i + 1),
            final(self).completed_depth >= 1 ==> final(self).reports@.last().pv@ == final(self).last_pv@,
            final(self).completed_depth >= 1 && !final(self).stop ==> final(self).reports@.last().nodes == final(self).nodes,
            final(self).completed_depth <= depth_limit(*limits),
            legal_ok(*pos, z) && depth_limit(*limits) >= 1 ==> final(self).completed_depth >= 1,
            legal_ok(*pos, z) && !final(self).stop ==> final(self).completed_depth == depth_limit(*limits),
            final(self).iter_evals@.len() == final(self).completed_depth,
            final(self).iter_done@.len() == final(self).completed_depth,
            forall|i: int| 1 <= i < final(self).iter_done@.len() ==> #[trigger] final(self).iter_done@[i],
            plain_opts(old(self).opts) && !old(self).opts.use_aspiration && old(self).root_exclude@.len() == 0
                ==> forall|i: int|
                0 <= i < final(self).reports@.len() && #[trigger] final(self).iter_done@[i] ==> final(self).reports@[i].score_cp
                    == plain_value(
                    *pos,
                    z,
                    i + 1,
                    0,
                    -INF as int,
                    INF as int,
                    final(self).iter_evals@[i],
                ).0,
            plain_opts(old(self).opts) && !old(self).opts.use_aspiration && old(self).root_exclude@.len() == 0
                && !final(self).stop ==> forall|i: int|
                0 <= i < final(self).reports@.len() ==> #[trigger] final(self).reports@[i].score_cp == plain_value(
                    *pos,
                    z,
                    i + 1,
                    0,
                    -INF as int,
                    INF as int,
                    final(self).iter_evals@[i],
                ).0,
            plain_opts(old(self).opts) && !old(self).opts.use_aspiration && old(self).root_exclude@.len() == 0
                && !final(self).stop && final(self).completed_depth >= 1 ==> (plain_value(
                *pos,
                z,
                final(self).completed_depth as int,
                0,
                -INF as int,
                INF as int,
                final(self).iter_evals@.last(),
            ).2 == r),
    {
        self.nodes = 0;
        self.stop = false;
        self.root_best = None;
        self.completed_depth = 0;
        self.reports = Ghost(Seq::empty());
        self.iter_evals = Ghost(Seq::empty());
        self.iter_done = Ghost(Seq::empty());
        self.start_ms = host.now_ms();
        self.deadline_ms = match limits.movetime_ms {
            Some(ms) => Some(self.start_ms.saturating_add(ms)),
            None => None,
        };
        let max_depth: i32 = match limits.depth {
            Some(d) => if d < 64 {
                d as i32
            } else {
                64
            },
            None => 64,
        };
        let root_moves = match try_gen_legal(t, z, pos) {
            Some(ms) => ms,
            None => {
                return None;
            },
        };
        let ghost excl = self.root_exclude;
        let ghost opts0 = self.opts;
        let mut best_move: Option<Move> = None;
        let mut prev_score: i32 = 0;
        let mut depth: i32 = 1;
        while depth <= max_depth
            invariant_except_break
                self.completed_depth == depth - 1,
                self.completed_depth >= 1 ==> self.reports@.last().nodes == self.nodes,
            invariant
                t.wf(),
                self.wf(),
                self.opts == opts0,
                self.root_exclude == excl,
                1 <= depth <= max_depth + 1,
                max_depth == depth_limit(*limits),
                0 <= max_depth <= 64,
                legal_ok(*pos, z),
                -INF <= prev_score <= INF,
                best_move matches Some(m) ==> playable(*pos, z, excl@, m),
                max_depth == 0 ==> best_move is None,
                self.reports@.len() == self.completed_depth,
                forall|i: int| 0 <= i < self.reports@.len() ==> report_ok(*pos, z, #[trigger] self.reports@[i], i + 1),
                self.completed_depth >= 1 ==> legal_line(*pos, z, self.last_pv@),
                self.completed_depth >= 1 ==> self.reports@.last().pv@ == self.last_pv@,
                self.last_pv@.len() > 0 && self.completed_depth >= 1 ==> best_move == Some(self.last_pv@[0]),
                self.iter_evals@.len() == self.completed_depth,
                self.iter_done@.len() == self.completed_depth,
                forall|i: int| 1 <= i < self.iter_done@.len() ==> #[trigger] self.iter_done@[i],
                plain_opts(opts0) && !opts0.use_aspiration && excl@.len() == 0 ==> forall|i: int|
                    0 <= i < self.reports@.len() && #[trigger] self.iter_done@[i] ==> self.reports@[i].score_cp
                        == plain_value(
                        *pos,
                        z,
                        i + 1,
                        0,
                        -INF as int,
                        INF as int,
                        self.iter_evals@[i],
                    ).0,
                plain_opts(opts0) && !opts0.use_aspiration && excl@.len() == 0 && !self.stop && self.completed_depth >= 1
                    ==> (plain_value(
                    *pos,
                    z,
                    self.completed_depth as int,
                    0,
                    -INF as int,
                    INF as int,
                    self.iter_evals@.last(),
                ).2 == best_move),
                plain_opts(opts0) && !opts0.use_aspiration && excl@.len() == 0 && !self.stop ==> forall|i: int|
                    0 <= i < self.reports@.len() ==> #[trigger] self.reports@[i].score_cp == plain_value(
                        *pos,
                        z,
                        i + 1,
                        0,
                        -INF as int,
                        INF as int,
                        self.iter_evals@[i],
                    ).0,
            ensures
                self.completed_depth <= max_depth,
                max_depth >= 1 ==> self.completed_depth >= 1,
                !self.stop ==> self.completed_depth == max_depth,
                self.reports@.len() == self.completed_depth,
                forall|i: int| 0 <= i < self.reports@.len() ==> report_ok(*pos, z, #[trigger] self.reports@[i], i + 1),
                self.completed_depth >= 1 ==> legal_line(*pos, z, self.last_pv@),
                self.completed_depth >= 1 ==> self.reports@.last().pv@ == self.last_pv@,
                self.completed_depth >= 1 && !self.stop ==> self.reports@.last().nodes == self.nodes,
                self.last_pv@.len() > 0 && self.completed_depth >= 1 ==> best_move == Some(self.last_pv@[0]),
                best_move matches Some(m) ==> playable(*pos, z, excl@, m),
                max_depth == 0 ==> best_move is None,
                self.iter_evals@.len() == self.completed_depth,
                self.iter_done@.len() == self.completed_depth,
                forall|i: int| 1 <= i < self.iter_done@.len() ==> #[trigger] self.iter_done@[i],
                plain_opts(opts0) && !opts0.use_aspiration && excl@.len() == 0 ==> forall|i: int|
                    0 <= i < self.reports@.len() && #[trigger] self.iter_done@[i] ==> self.reports@[i].score_cp
                        == plain_value(
                        *pos,
                        z,
                        i + 1,
                        0,
                        -INF as int,
                        INF as int,
                        self.iter_evals@[i],
                    ).0,
                plain_opts(opts0) && !opts0.use_aspiration && excl@.len() == 0 && !self.stop && self.completed_depth >= 1
                    ==> (plain_value(
                    *pos,
                    z,
                    self.completed_depth as int,
                    0,
                    -INF as int,
                    INF as int,
                    self.iter_evals@.last(),
                ).2 == best_move),
                plain_opts(opts0) && !opts0.use_aspiration && excl@.len() == 0 && !self.stop ==> forall|i: int|
                    0 <= i < self.reports@.len() ==> #[trigger] self.reports@[i].score_cp == plain_value(
                        *pos,
                        z,
                        i + 1,
                        0,
                        -INF as int,
                        INF as int,
                        self.iter_evals@[i],
                    ).0,
            decreases max_depth + 1 - depth,
        {
            let ghost ev0 = self.evals@;
            let score = self.aspiration(t, z, host, pos, depth, prev_score);
            if self.stop && depth > 1 {
                break;
            }
            prev_score = score;
            let ghost it0 = self.iter_evals@;
            let ghost done0 = self.iter_done@;
            self.iter_done = Ghost(self.iter_done@.push(!self.stop));
            let ghost seg = self.evals@.skip(ev0.len() as int);
            let ghost rb = self.root_best;
            self.iter_evals = Ghost(self.iter_evals@.push(self.evals@.skip(ev0.len() as int)));
            proof {
                lemma_plain_move_legal(*pos, z, depth as int, 0, -INF as int, INF as int, seg);
                lemma_plain_unfold(*pos, z, depth as int, 0, -INF as int, INF as int, seg);
                if legal_moves(*pos, z).len() > 0 {
                    lemma_plain_move_some(*pos, z, depth as int, 0, -INF as int, INF as int, seg);
                }
            }
            let ghost before = self.reports@;
            let first = self.finish_depth(t, z, host, pos, depth, score);
            self.completed_depth = depth as u32;
            proof {
                assert forall|i: int| 1 <= i < self.iter_done@.len() implies #[trigger] self.iter_done@[i] by {
                    if i < done0.len() {
                        assert(self.iter_done@[i] == done0[i]);
                    }
                }
                if plain_opts(opts0) && !opts0.use_aspiration && excl@.len() == 0 {
                    assert forall|i: int|
                        0 <= i < self.reports@.len() && #[trigger] self.iter_done@[i] implies self.reports@[i].score_cp
                            == plain_value(*pos, z, i + 1, 0, -INF as int, INF as int, self.iter_evals@[i]).0 by {
                        if i < before.len() {
                            assert(self.reports@[i] == self.reports@.drop_last()[i]);
                            assert(self.iter_evals@[i] == it0[i]);
                            assert(self.iter_done@[i] == done0[i]);
                        } else {
                            assert(self.reports@[i] == self.reports@.last());
                        }
                    }
                }
                if plain_opts(opts0) && !opts0.use_aspiration && excl@.len() == 0 && !self.stop {
                    assert forall|i: int| 0 <= i < self.reports@.len() implies #[trigger] self.reports@[i].score_cp
                        == plain_value(*pos, z, i + 1, 0, -INF as int, INF as int, self.iter_evals@[i]).0 by {
                        if i < before.len() {
                            assert(self.reports@[i] == self.reports@.drop_last()[i]);
                            assert(self.iter_evals@[i] == it0[i]);
                        } else {
                            assert(self.reports@[i] == self.reports@.last());
                        }
                    }
                }
            }
            proof {
                assert forall|i: int| 0 <= i < self.reports@.len() implies report_ok(
                    *pos,
                    z,
                    #[trigger] self.reports@[i],
                    i + 1,
                ) by {
                    if i < before.len() {
                        assert(self.reports@[i] == self.reports@.drop_last()[i]);
                    } else {
                        assert(self.reports@[i] == self.reports@.last());
                    }
                }
            }
            if first.is_some() {
                best_move = first;
            }
            proof {
                assert(self.iter_evals@.last() == seg);
            }
            if self.stop {
                break;
            }
            depth += 1;
        }
        proof {
            lemma_first_playable(root_moves@, excl@);
            if self.completed_depth >= 1 && legal_moves(*pos, z).len() > 0 {
                lemma_plain_move_some(*pos, z, self.completed_depth as int, 0, -INF as int, INF as int, self.iter_evals@.last());
            }
        }
        match best_move {
            Some(m) => Some(m),
            None => first_unexcluded(&root_moves, &self.root_exclude),
        }
    }
}

/// The depth limit of an iterative deepening run: the given depth, at most
/// 64, or 64 without one.
pub open spec fn depth_limit(limits: SearchLimits) -> int {
    match limits.depth {
        Some(d) => if d < 64 {
            d as int
        } else {
            64
        },
        None => 64,
    }
}

/// What the report of a completed iteration at `depth` holds: that depth,
/// a score within `-INF..=INF` with its mate distance, and a principal
/// variation of at most `depth` moves, legal in turn from `pos`.
pub open spec fn report_ok(pos: Position, z: &Zobrist, info: DepthInfo, depth: int) -> bool {
    &&& info.depth == depth
    &&& -INF <= info.score_cp <= INF
    &&& info.mate == mate_spec(info.score_cp as int)
    &&& info.pv@.len() <= depth
    &&& legal_line(pos, z, info.pv@)
}

/// The first of `moves` not among `exclude` (see `first_playable`).
fn first_unexcluded(moves: &Vec<Move>, exclude: &Vec<Move>) -> (r: Option<Move>)
    ensures
        r == first_playable(moves@, exclude@),
{
    let mut k: usize = 0;
    assert(moves@.subrange(0, moves@.len() as int) =~= moves@);
    while k < moves.len()
        invariant
            k <= moves.len(),
            first_playable(moves@, exclude@) == first_playable(moves@.subrange(k as int, moves@.len() as int), exclude@),
        decreases moves.len() - k,
    {
        let ghost rest = moves@.subrange(k as int, moves@.len() as int);
        if !contains_move(exclude, moves[k]) {
            assert(rest[0] == moves@[k as int]);
            return Some(moves[k]);
        }
        assert(rest.drop_first() =~= moves@.subrange(k + 1, moves@.len() as int));
        k += 1;
    }
    None
}

/// `first_playable` gives a move of the list that is not excluded, and
/// `None` only when every move of the list is excluded.
proof fn lemma_first_playable(ms: Seq<Move>, exclude: Seq<Move>)
    ensures
        first_playable(ms, exclude) matches Some(m) ==> ms.contains(m) && !exclude.contains(m),
        first_playable(ms, exclude) is None ==> forall|m: Move| ms.contains(m) ==> exclude.contains(m),
    decreases ms.len(),
{
    if ms.len() > 0 {
        lemma_first_playable(ms.drop_first(), exclude);
        if first_playable(ms, exclude) is Some {
            let m = first_playable(ms, exclude)->0;
            if !exclude.contains(ms[0]) {
                assert(ms.contains(ms[0]));
            } else {
                let k = choose|k: int| 0 <= k < ms.drop_first().len() && ms.drop_first()[k] == m;
                assert(ms[k + 1] == m);
            }
        }
        if first_playable(ms, exclude) is None {
            assert forall|m: Move| ms.contains(m) implies exclude.contains(m) by {
                let k = choose|k: int| 0 <= k < ms.len() && ms[k] == m;
                if k > 0 {
                    assert(ms.drop_first()[k - 1] == m);
                }
            }
        }
    }
}

/// The first move of a legal line is legal in its starting position.
proof fn lemma_legal_line_first(pos: Position, z: &Zobrist, line: Seq<Move>)
    requires
        legal_line(pos, z, line),
        line.len() > 0,
    ensures
        legal_ok(pos, z),
        legal_moves(pos, z).contains(line[0]),
    decreases line.len(),
{
    if line.len() == 1 {
        assert(line.drop_last().len() == 0);
    } else {
        lemma_legal_line_first(pos, z, line.drop_last());
    }
}

} // verus!
