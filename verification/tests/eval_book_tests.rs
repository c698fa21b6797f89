// Evaluation terms and the opening book.

use engine::board::{zobrist, Position};
use engine::book::{book_lines, book_map, book_move};
use engine::eval::{
    evaluation_total, king_safety, mobility, phase_material, piece_square_value, placed_value, pseudo_move_count, MATE_SCORE,
    PIECE_VALUE,
};
use engine::movegen::{make_move, parse_uci_move, tables};

#[test]
fn start_position_terms() {
    let t = tables().unwrap();
    let z = zobrist();
    let p = Position::startpos(&z);
    assert_eq!(king_safety(&p, 0), 30);
    assert_eq!(king_safety(&p, 1), 30);
    assert_eq!(mobility(&t, &p, 0), 16);
    assert_eq!(mobility(&t, &p, 1), 16);
    assert_eq!(pseudo_move_count(&t, &p), 20);
    assert_eq!(phase_material(&p), 6400);
    assert_eq!(placed_value(&p, 0), 3905);
    assert_eq!(placed_value(&p, 1), 3905);
    assert_eq!(PIECE_VALUE, [100, 320, 330, 500, 900, 0]);
    assert_eq!(MATE_SCORE, 30000);
}

#[test]
fn piece_square_values() {
    // white pawn on e2, black pawn on e7 (the mirrored square)
    assert_eq!(piece_square_value(0, 0, 12), -20);
    assert_eq!(piece_square_value(0, 1, 52), -20);
    // knight in the corner and in the centre
    assert_eq!(piece_square_value(1, 0, 0), -50);
    assert_eq!(piece_square_value(1, 0, 27), 20);
    // the king has no term here
    assert_eq!(piece_square_value(5, 0, 4), 0);
}

#[test]
fn open_king_files() {
    let z = zobrist();
    // white king g1 with no pawns at all: three open files, no shield
    let p = Position::from_fen("4k3/8/8/8/8/8/8/6K1 w - - 0 1", &z).unwrap();
    assert_eq!(king_safety(&p, 0), -45);
    // king on the h-file: only two files next to it exist
    let q = Position::from_fen("4k3/8/8/8/8/8/6PP/7K w - - 0 1", &z).unwrap();
    assert_eq!(king_safety(&q, 0), 20);
}

#[test]
fn book_candidates() {
    let t = tables().unwrap();
    let z = zobrist();
    assert_eq!(book_lines().len(), 12);
    let book = book_map(&t, &z);
    let start = Position::startpos(&z);
    let names: Vec<String> = book[&start.hash].iter().map(|m| m.to_uci()).collect();
    assert_eq!(names, vec!["e2e4", "d2d4", "c2c4"]);
    assert_eq!(book_move(&book, &start, 0).unwrap().to_uci(), "e2e4");
    assert_eq!(book_move(&book, &start, 1).unwrap().to_uci(), "d2d4");
    assert_eq!(book_move(&book, &start, 5).unwrap().to_uci(), "c2c4");
    let e4 = parse_uci_move(&t, &z, &start, "e2e4").unwrap();
    let after = make_move(&z, &start, &e4);
    let replies: Vec<String> = book[&after.hash].iter().map(|m| m.to_uci()).collect();
    assert_eq!(replies, vec!["e7e5", "c7c5", "c7c6", "e7e6"]);
    let off = Position::from_fen("4k3/8/8/8/8/8/8/4K3 w - - 0 1", &z).unwrap();
    assert_eq!(book_move(&book, &off, 0), None);
}

#[test]
fn evaluation_total_adds_the_terms() {
    let t = tables().unwrap();
    let z = zobrist();
    let start = Position::startpos(&z);
    assert_eq!(evaluation_total(&t, &start, [7, 7]), 0);
    let p = Position::from_fen("4k3/8/8/8/8/8/8/Q3K3 w - - 0 1", &z).unwrap();
    let w = placed_value(&p, 0) + 5 + mobility(&t, &p, 0) as i64 + king_safety(&p, 0) as i64;
    let b = placed_value(&p, 1) + 3 + mobility(&t, &p, 1) as i64 + king_safety(&p, 1) as i64;
    assert_eq!(evaluation_total(&t, &p, [5, 3]), w - b);
    let q = Position::from_fen("4k3/8/8/8/8/8/8/Q3K3 b - - 0 1", &z).unwrap();
    assert_eq!(evaluation_total(&t, &q, [5, 3]), b - w);
}
