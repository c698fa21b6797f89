// Squares, moves, hashing, FEN reading and writing, move generation.

use engine::board::{file_of, parse_sq, rank_of, sq, sq_name, zobrist, Move, Position, Zobrist};
use engine::fen::fen_readable;
use engine::movegen::{
    bishop_attacks, can_generate_legal, gen_legal, gen_pseudo_legal, in_check, is_square_attacked,
    king_square, make_move, parse_uci_move, queen_attacks, rook_attacks, tables, try_gen_legal,
};
use engine::perft::{perft, perft_divide, try_perft};

const KIWIPETE: &str = "r3k2r/p1ppqpb1/bn2pnp1/3PN3/1p2P3/2N2Q1p/PPPBBPPP/R3K2R w KQkq - 0 1";
const START: &str = "rnbqkbnr/pppppppp/8/8/8/8/PPPPPPPP/RNBQKBNR w KQkq - 0 1";

#[test]
fn square_names_round_trip() {
    for s in 0..64u8 {
        let name = sq_name(s);
        assert_eq!(parse_sq(&name), Some(s));
        assert_eq!(sq(file_of(s), rank_of(s)), s);
    }
    assert_eq!(sq_name(0), "a1");
    assert_eq!(sq_name(63), "h8");
    assert_eq!(sq_name(28), "e4");
    assert_eq!(parse_sq("e4"), Some(28));
    assert_eq!(parse_sq("i1"), None);
    assert_eq!(parse_sq("a9"), None);
    assert_eq!(parse_sq("a"), None);
}

#[test]
fn uci_text_of_moves() {
    assert_eq!(Move { from: 12, to: 28, promo: 0, flag: 1 }.to_uci(), "e2e4");
    assert_eq!(Move { from: 52, to: 60, promo: 4, flag: 0 }.to_uci(), "e7e8q");
    assert_eq!(Move { from: 52, to: 61, promo: 1, flag: 0 }.to_uci(), "e7f8n");
    assert_eq!(Move { from: 4, to: 6, promo: 0, flag: 3 }.to_uci(), "e1g1");
}

#[test]
fn zobrist_keys_are_fixed() {
    let a = Zobrist::new();
    let b = zobrist();
    assert_eq!(a.side, b.side);
    assert_eq!(a.piece_sq, b.piece_sq);
    assert_ne!(a.side, 0);
}

#[test]
fn startpos_matches_its_fen() {
    let z = zobrist();
    let p = Position::startpos(&z);
    assert_eq!(p.to_fen(), START);
    let q = Position::from_fen(START, &z).unwrap();
    assert_eq!(q.pieces, p.pieces);
    assert_eq!(q.hash, p.hash);
    assert_eq!(p.hash, p.compute_hash(&z));
    assert_eq!(p.piece_at(4), Some((0, 5)));
    assert_eq!(p.piece_at(59), Some((1, 4)));
    assert_eq!(p.piece_at(30), None);
}

#[test]
fn fen_fields_read() {
    let z = zobrist();
    let p = Position::from_fen("4k3/8/8/3pP3/8/8/8/4K3 w - d6 12 40", &z).unwrap();
    assert_eq!(p.side, 0);
    assert_eq!(p.castling, 0);
    assert_eq!(p.ep_square, Some(43));
    assert_eq!(p.halfmove, 12);
    assert_eq!(p.fullmove, 40);
    assert_eq!(p.to_fen(), "4k3/8/8/3pP3/8/8/8/4K3 w - d6 12 40");
    // missing counters default to 0 and 1
    let q = Position::from_fen("4k3/8/8/8/8/8/8/4K3 b Kq -", &z).unwrap();
    assert_eq!((q.side, q.castling, q.halfmove, q.fullmove), (1, 1 | 8, 0, 1));
    assert_eq!(q.to_fen(), "4k3/8/8/8/8/8/8/4K3 b Kq - 0 1");
}

#[test]
fn bad_fens_are_refused() {
    let z = zobrist();
    assert!(Position::from_fen("", &z).is_none());
    assert!(Position::from_fen("8/8/8/8 w - -", &z).is_none());
    assert!(Position::from_fen("4k3/8/8/8/8/8/8/4X3 w - - 0 1", &z).is_none());
    assert!(fen_readable(START));
    // a run of empty squares that pushes the file count past 255
    assert!(!fen_readable("99999999999999999999999999999999/8/8/8/8/8/8/8 w - - 0 1"));
    // a piece past the last square of the board
    assert!(!fen_readable("8p/8/8/8/8/8/8/8 w - - 0 1"));
    assert!(fen_readable("8 w - -"));
}

#[test]
fn recompute_occupancy() {
    let z = zobrist();
    let mut p = Position::startpos(&z);
    let occ = p.occ;
    let all = p.all_occ;
    p.occ = [0, 0];
    p.all_occ = 0;
    p.recompute_occ();
    assert_eq!(p.occ, occ);
    assert_eq!(p.all_occ, all);
}

#[test]
fn slider_attacks() {
    let t = tables().unwrap();
    // rook on a1, blocker on a4: a2 a3 a4 and the first rank
    let r = rook_attacks(&t, 0, 1u64 << 24);
    assert_eq!(r, (1u64 << 8) | (1u64 << 16) | (1u64 << 24) | 0xFE);
    // bishop on d4 on an empty board
    let b = bishop_attacks(&t, 27, 0);
    assert_eq!(b.count_ones(), 13);
    assert_eq!(queen_attacks(&t, 27, 0), b | rook_attacks(&t, 27, 0));
}

#[test]
fn checks_and_attacks() {
    let t = tables().unwrap();
    let z = zobrist();
    let p = Position::from_fen("4k3/8/8/8/8/8/8/R3K3 b - - 0 1", &z).unwrap();
    assert_eq!(king_square(&p, 1), 60);
    assert!(!in_check(&t, &p, 1));
    assert!(is_square_attacked(&t, &p, 56, 0));
    let q = Position::from_fen("4k3/8/8/8/8/8/8/4R1K1 b - - 0 1", &z).unwrap();
    assert!(in_check(&t, &q, 1));
}

#[test]
fn move_generation_counts() {
    let t = tables().unwrap();
    let z = zobrist();
    let start = Position::startpos(&z);
    assert_eq!(gen_pseudo_legal(&t, &start).len(), 20);
    assert_eq!(gen_legal(&t, &z, &start).len(), 20);
    assert!(can_generate_legal(&t, &z, &start));
    assert_eq!(try_gen_legal(&t, &z, &start).unwrap().len(), 20);
    let kiwi = Position::from_fen(KIWIPETE, &z).unwrap();
    assert_eq!(gen_legal(&t, &z, &kiwi).len(), 48);
    // no king: legal generation is not defined
    let no_king = Position::from_fen("8/8/8/8/8/8/8/R7 w - - 0 1", &z).unwrap();
    assert!(!can_generate_legal(&t, &z, &no_king));
    assert!(try_gen_legal(&t, &z, &no_king).is_none());
    assert_eq!(try_perft(&t, &z, &no_king, 1), None);
}

#[test]
fn legal_moves_leave_king_safe() {
    let t = tables().unwrap();
    let z = zobrist();
    // the e2 knight is pinned by the e8 rook
    let p = Position::from_fen("4r1k1/8/8/8/8/8/4N3/4K3 w - - 0 1", &z).unwrap();
    let legal = gen_legal(&t, &z, &p);
    assert!(legal.iter().all(|m| m.from != 12));
    for m in &legal {
        let np = make_move(&z, &p, m);
        assert!(!in_check(&t, &np, 0));
        assert_eq!(np.hash, np.compute_hash(&z));
    }
}

#[test]
fn make_move_castling_and_en_passant() {
    let t = tables().unwrap();
    let z = zobrist();
    let p = Position::from_fen("r3k2r/8/8/8/8/8/8/R3K2R w KQkq - 3 7", &z).unwrap();
    let castle = parse_uci_move(&t, &z, &p, "e1g1").unwrap();
    assert_eq!(castle.flag, 3);
    let np = make_move(&z, &p, &castle);
    assert_eq!(np.to_fen(), "r3k2r/8/8/8/8/8/8/R4RK1 b kq - 4 7");
    let e = Position::from_fen("4k3/8/8/3pP3/8/8/8/4K3 w - d6 0 1", &z).unwrap();
    let ep = parse_uci_move(&t, &z, &e, "e5d6").unwrap();
    assert_eq!(ep.flag, 2);
    assert_eq!(make_move(&z, &e, &ep).to_fen(), "4k3/8/3P4/8/8/8/8/4K3 b - - 0 1");
    let promo = Position::from_fen("4k3/P7/8/8/8/8/8/4K3 w - - 0 1", &z).unwrap();
    let m = parse_uci_move(&t, &z, &promo, "a7a8n").unwrap();
    assert_eq!(m.promo, 1);
    assert_eq!(m.to_uci(), "a7a8n");
    assert_eq!(parse_uci_move(&t, &z, &promo, "a7a6"), None);
    assert_eq!(parse_uci_move(&t, &z, &promo, "zz"), None);
}

#[test]
fn uci_text_reads_back_for_every_legal_move() {
    let t = tables().unwrap();
    let z = zobrist();
    let kiwi = Position::from_fen(KIWIPETE, &z).unwrap();
    for m in gen_legal(&t, &z, &kiwi) {
        let r = parse_uci_move(&t, &z, &kiwi, &m.to_uci()).unwrap();
        assert_eq!((r.from, r.to, r.promo), (m.from, m.to, m.promo));
        assert_eq!(r, m);
    }
    // a piece on the en-passant square: the capture and the en-passant
    // capture share their text, which reads back as the capture
    let odd = Position::from_fen("4k3/8/3n4/3pP3/8/8/8/4K3 w - d6 0 1", &z).unwrap();
    let both: Vec<_> = gen_legal(&t, &z, &odd).into_iter().filter(|m| m.to_uci() == "e5d6").collect();
    assert_eq!(both.len(), 2);
    assert_eq!(parse_uci_move(&t, &z, &odd, "e5d6").unwrap().flag, 0);
}

#[test]
fn moves_never_grant_castling_rights() {
    let t = tables().unwrap();
    let z = zobrist();
    let kiwi = Position::from_fen(KIWIPETE, &z).unwrap();
    for m in gen_legal(&t, &z, &kiwi) {
        let np = make_move(&z, &kiwi, &m);
        assert_eq!(np.castling & !kiwi.castling, 0);
        assert_eq!(np.side, 1 - kiwi.side);
        if m.flag == 1 {
            assert_eq!(np.ep_square, Some((m.from + m.to) / 2));
        } else {
            assert_eq!(np.ep_square, None);
        }
    }
    let start = Position::startpos(&z);
    let e4 = parse_uci_move(&t, &z, &start, "e2e4").unwrap();
    assert_eq!(make_move(&z, &start, &e4).ep_square, Some(20));
}

#[test]
fn fen_text_reads_back() {
    let t = tables().unwrap();
    let z = zobrist();
    let kiwi = Position::from_fen(KIWIPETE, &z).unwrap();
    for m in gen_legal(&t, &z, &kiwi) {
        let np = make_move(&z, &kiwi, &m);
        let back = Position::from_fen(&np.to_fen(), &z).unwrap();
        assert_eq!(back.pieces, np.pieces);
        assert_eq!(back.occ, np.occ);
        assert_eq!((back.side, back.castling, back.ep_square), (np.side, np.castling, np.ep_square));
        assert_eq!((back.halfmove, back.fullmove, back.hash), (np.halfmove, np.fullmove, np.hash));
    }
}

#[test]
fn divide_sums_to_perft() {
    let t = tables().unwrap();
    let z = zobrist();
    let kiwi = Position::from_fen(KIWIPETE, &z).unwrap();
    let div = perft_divide(&t, &z, &kiwi, 3);
    assert_eq!(div.len(), 48);
    let total: u64 = div.iter().map(|(_, n)| n).sum();
    assert_eq!(total, perft(&t, &z, &kiwi, 3));
    assert_eq!(total, 97_862);
    let one = perft_divide(&t, &z, &kiwi, 1);
    assert!(one.iter().all(|(_, n)| *n == 1));
    let start = Position::startpos(&z);
    assert_eq!(try_perft(&t, &z, &start, 3), Some(8_902));
    assert_eq!(try_perft(&t, &z, &start, 0), Some(1));
}
