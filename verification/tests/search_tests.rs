// Search behaviour on small positions, with a material-only evaluation.

use engine::board::{zobrist, Move, Position, Zobrist};
use engine::eval::{MATE_SCORE, PIECE_VALUE};
use engine::movegen::{gen_legal, in_check, make_move, tables, Tables};
use engine::search::{
    is_capture, make_null_move, mate_in, mvv_lva, null_move_ok, tt_replaces, DepthInfo, Search, SearchHost,
    SearchLimits, SearchOptions, TTEntry, TT_SIZE,
};

struct TestHost {
    tt: Vec<Option<TTEntry>>,
    reports: Vec<(u32, i32, Option<i32>, Vec<Move>)>,
}

impl TestHost {
    fn new() -> Self {
        TestHost { tt: vec![None; TT_SIZE], reports: Vec::new() }
    }
}

fn material(pos: &Position) -> i32 {
    let mut s = [0i32; 2];
    for c in 0..2 {
        for p in 0..6 {
            s[c] += pos.pieces[c][p].count_ones() as i32 * PIECE_VALUE[p];
        }
    }
    let white = s[0] - s[1];
    if pos.side == 0 { white } else { -white }
}

impl SearchHost for TestHost {
    fn now_ms(&mut self) -> u64 {
        0
    }
    fn time_up(&mut self) -> bool {
        false
    }
    fn signal_time_up(&mut self) {}
    fn evaluate(&mut self, pos: &Position) -> i32 {
        material(pos)
    }
    fn tt_read(&mut self, slot: usize) -> Option<TTEntry> {
        self.tt.get(slot).copied().flatten()
    }
    fn tt_write(&mut self, slot: usize, entry: TTEntry) {
        if slot < self.tt.len() {
            self.tt[slot] = Some(entry);
        }
    }
    fn report(&mut self, info: &DepthInfo) {
        self.reports.push((info.depth, info.score_cp, info.mate, info.pv.clone()));
    }
}

fn setup() -> (Tables, Zobrist) {
    (tables().unwrap(), zobrist())
}

fn depth(d: u32) -> SearchLimits {
    SearchLimits { depth: Some(d), movetime_ms: None }
}

#[test]
fn search_finds_back_rank_mate() {
    let (t, z) = setup();
    let pos = Position::from_fen("6k1/5ppp/8/8/8/8/5PPP/R5K1 w - - 0 1", &z).unwrap();
    for opts in [SearchOptions::default(), SearchOptions::phase3_only(), SearchOptions::minimal()] {
        let mut s = Search::new(opts);
        let mut host = TestHost::new();
        let mv = s.iterative_deepening(&t, &z, &mut host, &pos, &depth(3)).unwrap();
        assert_eq!(mv.to_uci(), "a1a8");
        assert_eq!(s.completed_depth, 3);
        let last = host.reports.last().unwrap();
        assert_eq!(last.0, 3);
        assert_eq!(last.2, Some(1));
        assert_eq!(last.1, MATE_SCORE - 1);
    }
}

#[test]
fn plain_alpha_beta_plays_the_mate_it_found() {
    let (t, z) = setup();
    let pos = Position::from_fen("6k1/5ppp/8/8/8/8/8/R5K1 w - - 0 1", &z).unwrap();
    let mut s = Search::new(SearchOptions::minimal());
    let mut host = TestHost::new();
    let mv = s.iterative_deepening(&t, &z, &mut host, &pos, &depth(2)).unwrap();
    let ra8 = Move { from: 0, to: 56, promo: 0, flag: 0 };
    assert_eq!(mv, ra8);
    assert_eq!(s.completed_depth, 2);
    assert_eq!(s.last_pv, vec![ra8]);
    let depths: Vec<u32> = host.reports.iter().map(|r| r.0).collect();
    assert_eq!(depths, vec![1, 2]);
    let last = host.reports.last().unwrap();
    assert_eq!(last.1, MATE_SCORE - 1);
    assert_eq!(last.2, Some(1));
    assert_eq!(last.3, vec![ra8]);
}

fn minimax(t: &Tables, z: &Zobrist, pos: &Position, depth: u32, ply: i32) -> i32 {
    if depth == 0 {
        return material(pos);
    }
    let moves = gen_legal(t, z, pos);
    if moves.is_empty() {
        return if in_check(t, pos, pos.side) { -MATE_SCORE + ply } else { 0 };
    }
    moves.iter().map(|m| -minimax(t, z, &make_move(z, pos, m), depth - 1, ply + 1)).max().unwrap()
}

fn quiescence_value(t: &Tables, z: &Zobrist, pos: &Position, ply: usize) -> i32 {
    let mut best = material(pos);
    if ply >= 64 {
        return best;
    }
    for m in gen_legal(t, z, pos) {
        if is_capture(pos, &m) {
            best = best.max(-quiescence_value(t, z, &make_move(z, pos, &m), ply + 1));
        }
    }
    best
}

fn minimax_quiet(t: &Tables, z: &Zobrist, pos: &Position, depth: u32, ply: usize) -> i32 {
    if depth == 0 {
        return quiescence_value(t, z, pos, ply);
    }
    let moves = gen_legal(t, z, pos);
    if moves.is_empty() {
        return if in_check(t, pos, pos.side) { -MATE_SCORE + ply as i32 } else { 0 };
    }
    moves.iter().map(|m| -minimax_quiet(t, z, &make_move(z, pos, m), depth - 1, ply + 1)).max().unwrap()
}

#[test]
fn quiescence_search_scores_the_capture_minimax_value() {
    let (t, z) = setup();
    let opts = SearchOptions {
        use_tt: false,
        use_ordering: false,
        use_quiescence: true,
        use_pvs: false,
        use_null_move: false,
        use_lmr: false,
        use_aspiration: false,
    };
    for fen in ["4k3/8/8/3q4/8/8/3R4/4K3 w - - 0 1", "4k3/8/2p5/3p4/4P3/8/8/4K3 w - - 0 1"] {
        let pos = Position::from_fen(fen, &z).unwrap();
        let mut s = Search::new(opts);
        let mut host = TestHost::new();
        s.iterative_deepening(&t, &z, &mut host, &pos, &depth(2)).unwrap();
        for (d, r) in host.reports.iter().enumerate() {
            assert_eq!(r.1, minimax_quiet(&t, &z, &pos, d as u32 + 1, 0));
        }
    }
}

#[test]
fn plain_search_scores_the_minimax_value() {
    let (t, z) = setup();
    for fen in ["4k3/8/8/3q4/8/8/3R4/4K3 w - - 0 1", "6k1/5ppp/8/8/8/8/8/R5K1 w - - 0 1", "4k3/8/8/8/8/8/4P3/4K3 b - - 0 1"] {
        let pos = Position::from_fen(fen, &z).unwrap();
        let mut s = Search::new(SearchOptions::minimal());
        let mut host = TestHost::new();
        s.iterative_deepening(&t, &z, &mut host, &pos, &depth(3)).unwrap();
        for (d, r) in host.reports.iter().enumerate() {
            assert_eq!(r.1, minimax(&t, &z, &pos, d as u32 + 1, 0));
        }
    }
}

#[test]
fn search_reports_every_depth() {
    let (t, z) = setup();
    let pos = Position::startpos(&z);
    let mut s = Search::new(SearchOptions::default());
    let mut host = TestHost::new();
    let mv = s.iterative_deepening(&t, &z, &mut host, &pos, &depth(3)).unwrap();
    assert!(gen_legal(&t, &z, &pos).contains(&mv));
    let depths: Vec<u32> = host.reports.iter().map(|r| r.0).collect();
    assert_eq!(depths, vec![1, 2, 3]);
    assert_eq!(s.last_pv, host.reports[2].3);
    assert!(!s.last_pv.is_empty());
    assert_eq!(s.last_pv[0], mv);
}

#[test]
fn search_takes_hanging_queen() {
    let (t, z) = setup();
    let pos = Position::from_fen("4k3/8/8/3q4/8/8/3R4/4K3 w - - 0 1", &z).unwrap();
    let mut s = Search::new(SearchOptions::default());
    let mut host = TestHost::new();
    let mv = s.iterative_deepening(&t, &z, &mut host, &pos, &depth(2)).unwrap();
    assert_eq!(mv.to_uci(), "d2d5");
}

#[test]
fn search_without_moves_gives_none() {
    let (t, z) = setup();
    // checkmated
    let mated = Position::from_fen("R5k1/5ppp/8/8/8/8/5PPP/6K1 b - - 0 1", &z).unwrap();
    let mut s = Search::new(SearchOptions::default());
    let mut host = TestHost::new();
    assert_eq!(s.iterative_deepening(&t, &z, &mut host, &mated, &depth(2)), None);
    // stalemated
    let stale = Position::from_fen("7k/5Q2/6K1/8/8/8/8/8 b - - 0 1", &z).unwrap();
    assert_eq!(s.iterative_deepening(&t, &z, &mut host, &stale, &depth(2)), None);
}

#[test]
fn search_depth_zero_plays_first_legal_move() {
    let (t, z) = setup();
    let pos = Position::startpos(&z);
    let mut s = Search::new(SearchOptions::default());
    let mut host = TestHost::new();
    let mv = s.iterative_deepening(&t, &z, &mut host, &pos, &depth(0)).unwrap();
    assert_eq!(mv, gen_legal(&t, &z, &pos)[0]);
    assert!(host.reports.is_empty());
}

#[test]
fn search_respects_root_exclusion() {
    let (t, z) = setup();
    let pos = Position::from_fen("6k1/5ppp/8/8/8/8/5PPP/R5K1 w - - 0 1", &z).unwrap();
    let legal = gen_legal(&t, &z, &pos);
    let mate = legal.iter().copied().find(|m| m.to_uci() == "a1a8").unwrap();
    let mut s = Search::new(SearchOptions::default());
    let mut host = TestHost::new();
    s.set_root_exclude(vec![mate]);
    let mv = s.iterative_deepening(&t, &z, &mut host, &pos, &depth(3)).unwrap();
    assert_ne!(mv, mate);
    assert!(legal.contains(&mv));
    // every legal move excluded: nothing left to give
    s.set_root_exclude(legal.clone());
    assert_eq!(s.iterative_deepening(&t, &z, &mut host, &pos, &depth(2)), None);
}

#[test]
fn search_timed_out_still_moves() {
    let (t, z) = setup();
    let pos = Position::startpos(&z);
    let mut s = Search::new(SearchOptions::default());
    let mut host = TestHost::new();
    s.stop_now();
    let limits = SearchLimits { depth: None, movetime_ms: Some(0) };
    let mv = s.iterative_deepening(&t, &z, &mut host, &pos, &limits);
    assert!(mv.is_some());
}

#[test]
fn mate_distances() {
    assert_eq!(mate_in(MATE_SCORE - 1), Some(1));
    assert_eq!(mate_in(MATE_SCORE - 3), Some(2));
    assert_eq!(mate_in(-(MATE_SCORE - 2)), Some(-1));
    assert_eq!(mate_in(-(MATE_SCORE - 4)), Some(-2));
    assert_eq!(mate_in(150), None);
    assert_eq!(mate_in(-(MATE_SCORE - 1000)), None);
}

#[test]
fn mate_distance_of_extreme_scores() {
    assert_eq!(mate_in(i32::MAX), Some(-1073726823));
    assert_eq!(mate_in(-i32::MAX), Some(1073726823));
    assert_eq!(mate_in(MATE_SCORE + 1), Some(0));
}

#[test]
fn replacement_rule() {
    let e = TTEntry { hash: 7, depth: 5, score: 0, flag: 0, best: None };
    assert!(tt_replaces(None, 1, 0));
    assert!(tt_replaces(Some(e), 1, 5));
    assert!(!tt_replaces(Some(e), 1, 4));
    assert!(tt_replaces(Some(e), 7, 1));
}

#[test]
fn capture_ordering_values() {
    let (_, z) = setup();
    let pos = Position::from_fen("4k3/8/8/3q4/4P3/8/8/4K3 w - - 0 1", &z).unwrap();
    let pxq = Move { from: 28, to: 35, promo: 0, flag: 0 };
    assert_eq!(mvv_lva(&pos, &pxq), 900 * 10 - 100);
    let kxq = Move { from: 4, to: 35, promo: 0, flag: 0 };
    assert_eq!(mvv_lva(&pos, &kxq), 900 * 10 - 10000);
}

#[test]
fn null_move_rules() {
    let (_, z) = setup();
    let pawns_only = Position::from_fen("4k3/4p3/8/8/8/8/4P3/4K3 w - e3 0 1", &z).unwrap();
    assert!(!null_move_ok(&pawns_only));
    let start = Position::startpos(&z);
    assert!(null_move_ok(&start));
    let np = make_null_move(&z, &pawns_only);
    assert_eq!(np.side, 1);
    assert_eq!(np.ep_square, None);
    assert_eq!(np.hash, np.compute_hash(&z));
    assert_ne!(np.hash, pawns_only.hash);
}

#[test]
fn option_sets() {
    let d = SearchOptions::default();
    assert!(d.use_tt && d.use_ordering && d.use_quiescence && d.use_pvs);
    assert!(d.use_null_move && d.use_lmr && d.use_aspiration);
    let p = SearchOptions::phase3_only();
    assert!(p.use_tt && p.use_ordering && p.use_quiescence && p.use_pvs);
    assert!(!p.use_null_move && !p.use_lmr && !p.use_aspiration);
    let m = SearchOptions::minimal();
    assert!(!m.use_tt && !m.use_ordering && !m.use_quiescence && !m.use_pvs);
    assert!(!m.use_null_move && !m.use_lmr && !m.use_aspiration);
    let mut s = Search::new(m);
    s.set_options(p);
    assert!(s.opts.use_tt && !s.opts.use_lmr);
    let h = s.spawn_helper();
    assert!(h.opts.use_tt && h.nodes == 0);
}
