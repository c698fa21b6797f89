// Perft node counts must match the published values for the starting
// position and the Kiwipete position.

use engine::board::{zobrist, Position};
use engine::movegen::tables;
use engine::perft::perft;

const KIWIPETE: &str = "r3k2r/p1ppqpb1/bn2pnp1/3PN3/1p2P3/2N2Q1p/PPPBBPPP/R3K2R w KQkq - 0 1";

#[test]
fn perft_startpos() {
    let t = tables().unwrap();
    let z = zobrist();
    let pos = Position::startpos(&z);
    assert_eq!(perft(&t, &z, &pos, 1), 20);
    assert_eq!(perft(&t, &z, &pos, 2), 400);
    assert_eq!(perft(&t, &z, &pos, 3), 8_902);
    assert_eq!(perft(&t, &z, &pos, 4), 197_281);
    assert_eq!(perft(&t, &z, &pos, 5), 4_865_609);
}

#[test]
fn perft_kiwipete() {
    let t = tables().unwrap();
    let z = zobrist();
    let pos = Position::from_fen(KIWIPETE, &z).unwrap();
    assert_eq!(perft(&t, &z, &pos, 1), 48);
    assert_eq!(perft(&t, &z, &pos, 2), 2_039);
    assert_eq!(perft(&t, &z, &pos, 3), 97_862);
    assert_eq!(perft(&t, &z, &pos, 4), 4_085_603);
}

#[test]
fn fen_roundtrip() {
    let z = zobrist();
    let fen = "r1bqkbnr/pppp1ppp/2n5/4p3/4P3/5N2/PPPP1PPP/RNBQKB1R w KQkq - 2 3";
    let pos = Position::from_fen(fen, &z).unwrap();
    assert_eq!(pos.to_fen(), fen);
}
