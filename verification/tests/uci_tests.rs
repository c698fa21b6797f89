// The UCI-lite command handling and reply lines.

use engine::board::{zobrist, Move};
use engine::movegen::tables;
use engine::search::{DepthInfo, SearchLimits};
use engine::uci::{bestmove_line, book_info_line, format_info, Engine, GoPlan};

fn mv(from: u8, to: u8, promo: u8) -> Move {
    Move { from, to, promo, flag: 0 }
}

#[test]
fn info_line_with_score() {
    let info = DepthInfo {
        depth: 5,
        score_cp: -37,
        mate: None,
        nodes: 12345,
        time_ms: 100,
        pv: vec![mv(12, 28, 0), mv(52, 36, 0)],
    };
    assert_eq!(
        format_info(&info, 2),
        "info depth 5 score cp -37 multipv 2 nodes 12345 nps 123450 time 100 pv e2e4 e7e5"
    );
}

#[test]
fn info_line_with_mate_and_no_time() {
    let info = DepthInfo { depth: 3, score_cp: 29999, mate: Some(1), nodes: 77, time_ms: 0, pv: vec![mv(0, 56, 0)] };
    assert_eq!(format_info(&info, 1), "info depth 3 score mate 1 multipv 1 nodes 77 nps 77 time 0 pv a1a8");
    let empty = DepthInfo { depth: 1, score_cp: 0, mate: None, nodes: 0, time_ms: 0, pv: vec![] };
    assert_eq!(format_info(&empty, 1), "info depth 1 score cp 0 multipv 1 nodes 0 nps 0 time 0 pv ");
}

#[test]
fn book_and_bestmove_lines() {
    assert_eq!(book_info_line(25, &mv(12, 28, 0)), "info depth 0 score cp 25 multipv 1 nodes 0 nps 0 time 0 pv e2e4");
    assert_eq!(bestmove_line(Some(mv(52, 60, 4))), "bestmove e7e8q");
    assert_eq!(bestmove_line(None), "bestmove 0000");
}

#[test]
fn go_plan_lines() {
    let limits = SearchLimits { depth: Some(8), movetime_ms: Some(5000) };
    let mut plan = GoPlan::new(limits, 3, None);
    let first = plan.next_search().unwrap();
    assert_eq!((first.depth, first.movetime_ms), (Some(8), Some(5000)));
    plan.record(Some(mv(12, 28, 0)));
    let second = plan.next_search().unwrap();
    assert_eq!((second.depth, second.movetime_ms), (Some(8), Some(750)));
    plan.record(Some(mv(11, 27, 0)));
    assert_eq!(plan.exclude, vec![mv(12, 28, 0), mv(11, 27, 0)]);
    plan.record(None);
    assert!(plan.next_search().is_none());
    assert_eq!(plan.bestmove(), "bestmove e2e4");
}

#[test]
fn go_plan_with_book_move() {
    let limits = SearchLimits { depth: Some(6), movetime_ms: None };
    let plan = GoPlan::new(limits, 1, Some(mv(12, 28, 0)));
    assert!(plan.next_search().is_none());
    assert_eq!(plan.bestmove(), "bestmove e2e4");
    let plan2 = GoPlan::new(SearchLimits { depth: None, movetime_ms: Some(100) }, 2, Some(mv(12, 28, 0)));
    let next = plan2.next_search().unwrap();
    assert_eq!((next.depth, next.movetime_ms), (None, Some(750)));
}

#[test]
fn uci_identification() {
    let t = tables().unwrap();
    let z = zobrist();
    let mut e = Engine::new(&z);
    let r = e.handle_line(&t, &z, "uci");
    assert_eq!(r.lines, vec!["id name BOARDROOM-Engine", "id author BOARDROOM", "uciok"]);
    let r = e.handle_line(&t, &z, "  isready  ");
    assert_eq!(r.lines, vec!["readyok"]);
    let r = e.handle_line(&t, &z, "quit");
    assert!(r.lines.is_empty() && r.go.is_none() && !r.new_game);
    let r = e.handle_line(&t, &z, "");
    assert!(r.lines.is_empty() && r.go.is_none());
}

#[test]
fn uci_position_commands() {
    let t = tables().unwrap();
    let z = zobrist();
    let mut e = Engine::new(&z);
    e.handle_line(&t, &z, "position startpos moves e2e4 e7e5 g1f3");
    assert_eq!(e.pos.to_fen(), "rnbqkbnr/pppp1ppp/8/4p3/4P3/5N2/PPPP1PPP/RNBQKB1R b KQkq - 1 2");
    // an illegal move is skipped
    e.handle_line(&t, &z, "position startpos moves e2e5 d2d4");
    assert_eq!(e.pos.to_fen(), "rnbqkbnr/pppppppp/8/8/3P4/8/PPP1PPPP/RNBQKBNR b KQkq d3 0 1");
    e.handle_line(&t, &z, "position fen 4k3/P7/8/8/8/8/8/4K3 w - - 0 1 moves a7a8q");
    assert_eq!(e.pos.to_fen(), "Q3k3/8/8/8/8/8/8/4K3 b - - 0 1");
    // an unreadable FEN keeps the position
    e.handle_line(&t, &z, "position fen nonsense");
    assert_eq!(e.pos.to_fen(), "Q3k3/8/8/8/8/8/8/4K3 b - - 0 1");
    e.handle_line(&t, &z, "ucinewgame");
    assert_eq!(e.pos.to_fen(), "rnbqkbnr/pppppppp/8/8/8/8/PPPPPPPP/RNBQKBNR w KQkq - 0 1");
}

#[test]
fn uci_setoption_multipv() {
    let t = tables().unwrap();
    let z = zobrist();
    let mut e = Engine::new(&z);
    assert_eq!(e.multipv, 1);
    e.handle_line(&t, &z, "setoption name MultiPV value 3");
    assert_eq!(e.multipv, 3);
    e.handle_line(&t, &z, "setoption name multipv value 9");
    assert_eq!(e.multipv, 5);
    e.handle_line(&t, &z, "setoption name MultiPV value 0");
    assert_eq!(e.multipv, 1);
    e.handle_line(&t, &z, "setoption name Hash value 64");
    assert_eq!(e.multipv, 1);
    e.handle_line(&t, &z, "setoption name Multi PV value 2");
    assert_eq!(e.multipv, 2);
    e.handle_line(&t, &z, "setoption name MultiPV value x");
    assert_eq!(e.multipv, 2);
}

#[test]
fn uci_go_limits() {
    let t = tables().unwrap();
    let z = zobrist();
    let mut e = Engine::new(&z);
    let r = e.handle_line(&t, &z, "go depth 3");
    let g = r.go.unwrap();
    assert_eq!((g.depth, g.movetime_ms), (Some(3), None));
    let g = e.handle_line(&t, &z, "go").go.unwrap();
    assert_eq!((g.depth, g.movetime_ms), (Some(6), None));
    let g = e.handle_line(&t, &z, "go movetime 250").go.unwrap();
    assert_eq!((g.depth, g.movetime_ms), (None, Some(250)));
    let g = e.handle_line(&t, &z, "go wtime 1000 depth +4 movetime 10").go.unwrap();
    assert_eq!((g.depth, g.movetime_ms), (Some(4), Some(10)));
    let g = e.handle_line(&t, &z, "go depth x").go.unwrap();
    assert_eq!((g.depth, g.movetime_ms), (Some(6), None));
}

#[test]
fn uci_perft_and_stop() {
    let t = tables().unwrap();
    let z = zobrist();
    let mut e = Engine::new(&z);
    let r = e.handle_line(&t, &z, "perft 3");
    assert_eq!(r.lines, vec!["perft 3 nodes 8902"]);
    let r = e.handle_line(&t, &z, "perft");
    assert!(r.lines.is_empty());
    assert!(!e.search.stop);
    e.handle_line(&t, &z, "stop");
    assert!(e.search.stop);
    let r = e.handle_line(&t, &z, "ucinewgame");
    assert!(r.new_game);
    assert!(!e.search.stop);
}

#[test]
fn thread_cap() {
    assert_eq!(engine::uci::search_threads(1), 1);
    assert_eq!(engine::uci::search_threads(3), 3);
    assert_eq!(engine::uci::search_threads(16), 4);
}
