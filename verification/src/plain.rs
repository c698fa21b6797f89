//! The values plain fail-hard alpha-beta search and quiescence search give,
//! in terms of the static evaluations they use, in the order they use them:
//! what `Search` computes with the table, null-move pruning, principal
//! variation search and move ordering off (`plain_value`, for quiescence
//! off; `quiet_value`, the quiescence search itself).

use vstd::prelude::*;
use crate::board::{Move, Position, Zobrist, KING};
use crate::movegen::{legal_moves, legal_ok, make_move_spec, in_check_spec};
use crate::eval::MATE_SCORE;
use crate::search::{SearchOptions, INF, MAX_PLY, EVAL_LIMIT, capture_spec};

verus! {

/// Options under which the search is plain fail-hard alpha-beta: no
/// table, null move, principal variation search, move ordering or
/// quiescence.
pub open spec fn plain_opts(o: SearchOptions) -> bool {
    !o.use_tt && !o.use_null_move && !o.use_pvs && !o.use_ordering && !o.use_quiescence
}

/// The side to move in `pos` has a king, and it is attacked.
pub open spec fn checked(pos: Position) -> bool {
    pos.pieces[pos.side as int][KING as int] != 0 && in_check_spec(pos, pos.side as int)
}

/// The value of a leaf: the first evaluation of `evs` (0 when there is
/// none), held to `-EVAL_LIMIT..=EVAL_LIMIT` as the search holds the
/// evaluations it is given.
pub open spec fn leaf_value(evs: Seq<i32>) -> int {
    let e = if evs.len() > 0 { evs[0] as int } else { 0 };
    if e > EVAL_LIMIT { EVAL_LIMIT as int } else if e < -EVAL_LIMIT { -EVAL_LIMIT as int } else { e }
}

/// Plain fail-hard alpha-beta search of `pos`, `depth` plies deep and `ply`
/// plies below the root, taking the static evaluations of the leaves in
/// order from `evs`; gives the value, the number of evaluations taken and
/// the best move. With `node`, the search of the position in the window
/// `a..beta`: a leaf is worth its evaluation, a position without legal
/// moves is mated (`-MATE_SCORE + ply`) or stalemated (0), and otherwise
/// its moves are searched. Without `node`, its move loop from the `i`-th
/// legal move on, with the window's lower end at `a`, the best score so
/// far `best` and its move `bm`: each move scores minus the value of the
/// position it leads to, searched one ply shallower in the window
/// `-beta..-a`; a move that beats the best becomes the best, and the loop
/// ends at once when the window closes.
#[verifier::opaque]
pub open spec fn alpha_beta(
    pos: Position,
    z: &Zobrist,
    depth: int,
    ply: int,
    a: int,
    beta: int,
    evs: Seq<i32>,
    node: bool,
    i: int,
    best: int,
    bm: Option<Move>,
) -> (int, int, Option<Move>)
    decreases depth, (if node { 1int } else { 0int }), (if node { 0int } else { legal_moves(pos, z).len() - i }),
{
    let ms = legal_moves(pos, z);
    if node {
        if depth <= 0 {
            (leaf_value(evs), 1, None)
        } else if !legal_ok(pos, z) {
            (0, 0, None)
        } else if ms.len() == 0 {
            (if checked(pos) { -MATE_SCORE + ply } else { 0 }, 0, None)
        } else {
            alpha_beta(pos, z, depth, ply, a, beta, evs, false, 0, -INF as int, None)
        }
    } else if depth <= 0 || i < 0 || i >= ms.len() {
        (best, 0, bm)
    } else {
        let child = alpha_beta(make_move_spec(pos, ms[i], z), z, depth - 1, ply + 1, -beta, -a, evs, true, 0, 0, None);
        let score = -child.0;
        let best2 = if score > best { score } else { best };
        let bm2 = if score > best { Some(ms[i]) } else { bm };
        let a2 = if score > a { score } else { a };
        if a2 >= beta {
            (best2, child.1, bm2)
        } else {
            let rest = alpha_beta(pos, z, depth, ply, a2, beta, evs.skip(child.1), false, i + 1, best2, bm2);
            (rest.0, child.1 + rest.1, rest.2)
        }
    }
}

/// The plain alpha-beta value of `pos` in the window `alpha..beta`, the
/// number of evaluations it takes from `evs`, and its best move (`None` at
/// a leaf or without legal moves).
pub open spec fn plain_value(
    pos: Position,
    z: &Zobrist,
    depth: int,
    ply: int,
    alpha: int,
    beta: int,
    evs: Seq<i32>,
) -> (int, int, Option<Move>) {
    alpha_beta(pos, z, depth, ply, alpha, beta, evs, true, 0, 0, None)
}

/// The move loop of `plain_value` from the `i`-th legal move on (see
/// `alpha_beta`).
pub open spec fn plain_loop(
    pos: Position,
    z: &Zobrist,
    depth: int,
    ply: int,
    beta: int,
    evs: Seq<i32>,
    i: int,
    a: int,
    best: int,
    bm: Option<Move>,
) -> (int, int, Option<Move>) {
    alpha_beta(pos, z, depth, ply, a, beta, evs, false, i, best, bm)
}

/// What a search of a position is, case by case.
pub proof fn lemma_plain_unfold(pos: Position, z: &Zobrist, depth: int, ply: int, alpha: int, beta: int, evs: Seq<i32>)
    ensures
        plain_value(pos, z, depth, ply, alpha, beta, evs) == (if depth <= 0 {
            (leaf_value(evs), 1int, None::<Move>)
        } else if !legal_ok(pos, z) {
            (0int, 0int, None::<Move>)
        } else if legal_moves(pos, z).len() == 0 {
            (if checked(pos) { -MATE_SCORE + ply } else { 0 }, 0int, None::<Move>)
        } else {
            plain_loop(pos, z, depth, ply, beta, evs, 0, alpha, -INF as int, None)
        }),
{
    reveal(alpha_beta);
}

/// Past the last move the loop gives the best so far and takes nothing.
pub proof fn lemma_loop_end(
    pos: Position,
    z: &Zobrist,
    depth: int,
    ply: int,
    beta: int,
    evs: Seq<i32>,
    i: int,
    a: int,
    best: int,
    bm: Option<Move>,
)
    requires
        i >= legal_moves(pos, z).len(),
    ensures
        plain_loop(pos, z, depth, ply, beta, evs, i, a, best, bm) == (best, 0int, bm),
{
    reveal(alpha_beta);
}

proof fn lemma_ab_used(
    pos: Position,
    z: &Zobrist,
    depth: int,
    ply: int,
    a: int,
    beta: int,
    evs: Seq<i32>,
    node: bool,
    i: int,
    best: int,
    bm: Option<Move>,
)
    ensures
        alpha_beta(pos, z, depth, ply, a, beta, evs, node, i, best, bm).1 >= 0,
    decreases depth, (if node { 1int } else { 0int }), (if node { 0int } else { legal_moves(pos, z).len() - i }),
{
    reveal(alpha_beta);
    let ms = legal_moves(pos, z);
    if node {
        if depth > 0 && legal_ok(pos, z) && ms.len() > 0 {
            lemma_ab_used(pos, z, depth, ply, a, beta, evs, false, 0, -INF as int, None);
        }
    } else if !(depth <= 0 || i < 0 || i >= ms.len()) {
        let np = make_move_spec(pos, ms[i], z);
        let child = alpha_beta(np, z, depth - 1, ply + 1, -beta, -a, evs, true, 0, 0, None);
        lemma_ab_used(np, z, depth - 1, ply + 1, -beta, -a, evs, true, 0, 0, None);
        let score = -child.0;
        let best2 = if score > best { score } else { best };
        let bm2 = if score > best { Some(ms[i]) } else { bm };
        let a2 = if score > a { score } else { a };
        if a2 < beta {
            lemma_ab_used(pos, z, depth, ply, a2, beta, evs.skip(child.1), false, i + 1, best2, bm2);
        }
    }
}

/// A search that takes no more evaluations than `s` holds gives the same
/// result on any continuation of `s`.
#[verifier::spinoff_prover]
#[verifier::rlimit(40)]
pub proof fn lemma_ab_prefix(
    pos: Position,
    z: &Zobrist,
    depth: int,
    ply: int,
    a: int,
    beta: int,
    s: Seq<i32>,
    t: Seq<i32>,
    node: bool,
    i: int,
    best: int,
    bm: Option<Move>,
)
    requires
        alpha_beta(pos, z, depth, ply, a, beta, s, node, i, best, bm).1 <= s.len(),
    ensures
        alpha_beta(pos, z, depth, ply, a, beta, s + t, node, i, best, bm) == alpha_beta(
            pos,
            z,
            depth,
            ply,
            a,
            beta,
            s,
            node,
            i,
            best,
            bm,
        ),
    decreases depth, (if node { 1int } else { 0int }), (if node { 0int } else { legal_moves(pos, z).len() - i }),
{
    reveal(alpha_beta);
    let ms = legal_moves(pos, z);
    if node {
        if depth <= 0 {
            assert((s + t)[0] == s[0]);
        } else if legal_ok(pos, z) && ms.len() > 0 {
            lemma_ab_prefix(pos, z, depth, ply, a, beta, s, t, false, 0, -INF as int, None);
        }
    } else if !(depth <= 0 || i < 0 || i >= ms.len()) {
        let np = make_move_spec(pos, ms[i], z);
        let child = alpha_beta(np, z, depth - 1, ply + 1, -beta, -a, s, true, 0, 0, None);
        let score = -child.0;
        let best2 = if score > best { score } else { best };
        let bm2 = if score > best { Some(ms[i]) } else { bm };
        let a2 = if score > a { score } else { a };
        lemma_ab_used(np, z, depth - 1, ply + 1, -beta, -a, s, true, 0, 0, None);
        if a2 < beta {
            lemma_ab_used(pos, z, depth, ply, a2, beta, s.skip(child.1), false, i + 1, best2, bm2);
        }
        lemma_ab_prefix(np, z, depth - 1, ply + 1, -beta, -a, s, t, true, 0, 0, None);
        if a2 < beta {
            assert((s + t).skip(child.1) =~= s.skip(child.1) + t);
            lemma_ab_prefix(pos, z, depth, ply, a2, beta, s.skip(child.1), t, false, i + 1, best2, bm2);
        }
    }
}

/// One step of the move loop on evaluations `seg + fut`, where the search
/// of the `i`-th move takes exactly the evaluations `seg`.
pub proof fn lemma_loop_step(
    pos: Position,
    z: &Zobrist,
    depth: int,
    ply: int,
    beta: int,
    seg: Seq<i32>,
    fut: Seq<i32>,
    i: int,
    a: int,
    best: int,
    bm: Option<Move>,
)
    requires
        depth >= 1,
        0 <= i < legal_moves(pos, z).len(),
        plain_value(make_move_spec(pos, legal_moves(pos, z)[i], z), z, depth - 1, ply + 1, -beta, -a, seg).1
            == seg.len(),
    ensures
        ({
            let c = plain_value(make_move_spec(pos, legal_moves(pos, z)[i], z), z, depth - 1, ply + 1, -beta, -a, seg).0;
            let score = -c;
            let best2 = if score > best { score } else { best };
            let bm2 = if score > best { Some(legal_moves(pos, z)[i]) } else { bm };
            let a2 = if score > a { score } else { a };
            plain_loop(pos, z, depth, ply, beta, seg + fut, i, a, best, bm) == if a2 >= beta {
                (best2, seg.len() as int, bm2)
            } else {
                let rest = plain_loop(pos, z, depth, ply, beta, fut, i + 1, a2, best2, bm2);
                (rest.0, seg.len() + rest.1, rest.2)
            }
        }),
{
    reveal(alpha_beta);
    let np = make_move_spec(pos, legal_moves(pos, z)[i], z);
    lemma_ab_prefix(np, z, depth - 1, ply + 1, -beta, -a, seg, fut, true, 0, 0, None);
    assert((seg + fut).skip(seg.len() as int) =~= fut);
}

/// The best move of a loop is its starting best move or a legal move from
/// the `i`-th on.
proof fn lemma_loop_move(
    pos: Position,
    z: &Zobrist,
    depth: int,
    ply: int,
    beta: int,
    evs: Seq<i32>,
    i: int,
    a: int,
    best: int,
    bm: Option<Move>,
)
    requires
        i >= 0,
    ensures
        plain_loop(pos, z, depth, ply, beta, evs, i, a, best, bm).2 == bm || legal_moves(pos, z).contains(
            plain_loop(pos, z, depth, ply, beta, evs, i, a, best, bm).2->0,
        ) && plain_loop(pos, z, depth, ply, beta, evs, i, a, best, bm).2 is Some,
    decreases legal_moves(pos, z).len() - i,
{
    reveal(alpha_beta);
    let ms = legal_moves(pos, z);
    if !(depth <= 0 || i >= ms.len()) {
        let np = make_move_spec(pos, ms[i], z);
        let child = alpha_beta(np, z, depth - 1, ply + 1, -beta, -a, evs, true, 0, 0, None);
        let score = -child.0;
        let best2 = if score > best { score } else { best };
        let bm2 = if score > best { Some(ms[i]) } else { bm };
        let a2 = if score > a { score } else { a };
        assert(ms.contains(ms[i]));
        if a2 < beta {
            lemma_loop_move(pos, z, depth, ply, beta, evs.skip(child.1), i + 1, a2, best2, bm2);
        }
    }
}

/// The best move of a search, when there is one, is a legal move.
pub proof fn lemma_plain_move_legal(pos: Position, z: &Zobrist, depth: int, ply: int, alpha: int, beta: int, evs: Seq<i32>)
    ensures
        plain_value(pos, z, depth, ply, alpha, beta, evs).2 matches Some(m) ==> legal_ok(pos, z) && legal_moves(
            pos,
            z,
        ).contains(m),
{
    lemma_plain_unfold(pos, z, depth, ply, alpha, beta, evs);
    if depth > 0 && legal_ok(pos, z) && legal_moves(pos, z).len() > 0 {
        lemma_loop_move(pos, z, depth, ply, beta, evs, 0, alpha, -INF as int, None);
    }
}

/// Every value a search gives lies strictly between `-INF` and `INF`, and a
/// position with legal moves, searched at least one ply deep, has a best
/// move; a loop that has or will find a best move ends with one.
#[verifier::spinoff_prover]
#[verifier::rlimit(80)]
proof fn lemma_ab_bound(
    pos: Position,
    z: &Zobrist,
    depth: int,
    ply: int,
    a: int,
    beta: int,
    evs: Seq<i32>,
    node: bool,
    i: int,
    best: int,
    bm: Option<Move>,
)
    requires
        0 <= ply,
        ply + depth <= 1000,
        !node ==> -INF <= best < INF,
        !node ==> (best > -INF ==> bm is Some),
        !node ==> best > -INF || (depth >= 1 && 0 <= i < legal_moves(pos, z).len()),
    ensures
        ({
            let r = alpha_beta(pos, z, depth, ply, a, beta, evs, node, i, best, bm);
            &&& -INF < r.0 < INF
            &&& !node ==> r.2 is Some
            &&& node && depth >= 1 && legal_ok(pos, z) && legal_moves(pos, z).len() > 0 ==> r.2 is Some
        }),
    decreases depth, (if node { 1int } else { 0int }), (if node { 0int } else { legal_moves(pos, z).len() - i }),
{
    reveal(alpha_beta);
    let ms = legal_moves(pos, z);
    if node {
        if depth > 0 && legal_ok(pos, z) && ms.len() > 0 {
            lemma_ab_bound(pos, z, depth, ply, a, beta, evs, false, 0, -INF as int, None);
        }
    } else if !(depth <= 0 || i < 0 || i >= ms.len()) {
        let np = make_move_spec(pos, ms[i], z);
        let child = alpha_beta(np, z, depth - 1, ply + 1, -beta, -a, evs, true, 0, 0, None);
        lemma_ab_bound(np, z, depth - 1, ply + 1, -beta, -a, evs, true, 0, 0, None);
        let score = -child.0;
        let best2 = if score > best { score } else { best };
        let bm2 = if score > best { Some(ms[i]) } else { bm };
        let a2 = if score > a { score } else { a };
        if a2 < beta {
            lemma_ab_bound(pos, z, depth, ply, a2, beta, evs.skip(child.1), false, i + 1, best2, bm2);
        }
    }
}

/// A search of a position with legal moves, at least one ply deep, has a
/// best move.
pub proof fn lemma_plain_move_some(pos: Position, z: &Zobrist, depth: int, ply: int, alpha: int, beta: int, evs: Seq<i32>)
    requires
        0 <= ply,
        1 <= depth,
        ply + depth <= 1000,
        legal_ok(pos, z),
        legal_moves(pos, z).len() > 0,
    ensures
        plain_value(pos, z, depth, ply, alpha, beta, evs).2 is Some,
{
    lemma_ab_bound(pos, z, depth, ply, alpha, beta, evs, true, 0, 0, None);
}

/// The captures among the legal moves of `pos`, in generation order.
pub open spec fn capture_list(pos: Position, z: &Zobrist) -> Seq<Move> {
    legal_moves(pos, z).filter(|m: Move| capture_spec(pos, m))
}

/// The quiescence value of `pos`, `ply` plies below the root, in the window
/// `alpha..beta`, taking the static evaluations in order from `evs` (move
/// ordering off); paired with the number of evaluations it takes. The
/// static evaluation stands (fail-hard at `beta`) unless a capture, searched
/// the same way, does better.
pub open spec fn quiet_value(pos: Position, z: &Zobrist, ply: int, alpha: int, beta: int, evs: Seq<i32>) -> (int, int)
    decreases MAX_PLY - ply, 1int, 0int,
{
    let sp = if evs.len() > 0 { evs[0] as int } else { 0 };
    if sp >= beta {
        (beta, 1)
    } else {
        let a = if sp > alpha { sp } else { alpha };
        if ply >= MAX_PLY || ply < 0 || !legal_ok(pos, z) {
            (a, 1)
        } else {
            let r = quiet_loop(pos, z, ply, beta, evs.skip(1), 0, a);
            (r.0, 1 + r.1)
        }
    }
}

/// The capture loop of `quiet_value` from the `i`-th capture on, with the
/// window's lower end raised to `a`: `beta` at once when a capture reaches
/// it, else the highest of `a` and the captures' scores.
pub open spec fn quiet_loop(pos: Position, z: &Zobrist, ply: int, beta: int, evs: Seq<i32>, i: int, a: int) -> (int, int)
    decreases MAX_PLY - ply, 0int, capture_list(pos, z).len() - i,
{
    let cs = capture_list(pos, z);
    if ply >= MAX_PLY || ply < 0 || i < 0 || i >= cs.len() {
        (a, 0)
    } else {
        let child = quiet_value(make_move_spec(pos, cs[i], z), z, ply + 1, -beta, -a, evs);
        let score = -child.0;
        if score >= beta {
            (beta, child.1)
        } else {
            let a2 = if score > a { score } else { a };
            let rest = quiet_loop(pos, z, ply, beta, evs.skip(child.1), i + 1, a2);
            (rest.0, child.1 + rest.1)
        }
    }
}

proof fn lemma_quiet_used(pos: Position, z: &Zobrist, ply: int, alpha: int, beta: int, evs: Seq<i32>)
    ensures
        quiet_value(pos, z, ply, alpha, beta, evs).1 >= 1,
    decreases MAX_PLY - ply, 1int, 0int,
{
    let sp = if evs.len() > 0 { evs[0] as int } else { 0 };
    let a = if sp > alpha { sp } else { alpha };
    if !(sp >= beta) && !(ply >= MAX_PLY || ply < 0 || !legal_ok(pos, z)) {
        lemma_quiet_loop_used(pos, z, ply, beta, evs.skip(1), 0, a);
    }
}

proof fn lemma_quiet_loop_used(pos: Position, z: &Zobrist, ply: int, beta: int, evs: Seq<i32>, i: int, a: int)
    ensures
        quiet_loop(pos, z, ply, beta, evs, i, a).1 >= 0,
    decreases MAX_PLY - ply, 0int, capture_list(pos, z).len() - i,
{
    let cs = capture_list(pos, z);
    if !(ply >= MAX_PLY || ply < 0 || i < 0 || i >= cs.len()) {
        let np = make_move_spec(pos, cs[i], z);
        let child = quiet_value(np, z, ply + 1, -beta, -a, evs);
        lemma_quiet_used(np, z, ply + 1, -beta, -a, evs);
        let score = -child.0;
        let a2 = if score > a { score } else { a };
        if score < beta {
            lemma_quiet_loop_used(pos, z, ply, beta, evs.skip(child.1), i + 1, a2);
        }
    }
}

/// A quiescence search that takes no more evaluations than `s` holds gives
/// the same value on any continuation of `s`.
pub proof fn lemma_quiet_prefix(pos: Position, z: &Zobrist, ply: int, alpha: int, beta: int, s: Seq<i32>, t: Seq<i32>)
    requires
        quiet_value(pos, z, ply, alpha, beta, s).1 <= s.len(),
    ensures
        quiet_value(pos, z, ply, alpha, beta, s + t) == quiet_value(pos, z, ply, alpha, beta, s),
    decreases MAX_PLY - ply, 1int, 0int,
{
    lemma_quiet_used(pos, z, ply, alpha, beta, s);
    assert((s + t)[0] == s[0]);
    let sp = s[0] as int;
    let a = if sp > alpha { sp } else { alpha };
    if !(sp >= beta) && !(ply >= MAX_PLY || ply < 0 || !legal_ok(pos, z)) {
        assert((s + t).skip(1) =~= s.skip(1) + t);
        lemma_quiet_loop_prefix(pos, z, ply, beta, s.skip(1), t, 0, a);
    }
}

#[verifier::spinoff_prover]
#[verifier::rlimit(60)]
proof fn lemma_quiet_loop_prefix(pos: Position, z: &Zobrist, ply: int, beta: int, s: Seq<i32>, t: Seq<i32>, i: int, a: int)
    requires
        quiet_loop(pos, z, ply, beta, s, i, a).1 <= s.len(),
    ensures
        quiet_loop(pos, z, ply, beta, s + t, i, a) == quiet_loop(pos, z, ply, beta, s, i, a),
    decreases MAX_PLY - ply, 0int, capture_list(pos, z).len() - i,
{
    let cs = capture_list(pos, z);
    if !(ply >= MAX_PLY || ply < 0 || i < 0 || i >= cs.len()) {
        let np = make_move_spec(pos, cs[i], z);
        let child = quiet_value(np, z, ply + 1, -beta, -a, s);
        let score = -child.0;
        let a2 = if score > a { score } else { a };
        lemma_quiet_used(np, z, ply + 1, -beta, -a, s);
        if score < beta {
            lemma_quiet_loop_used(pos, z, ply, beta, s.skip(child.1), i + 1, a2);
        }
        lemma_quiet_prefix(np, z, ply + 1, -beta, -a, s, t);
        if score < beta {
            assert((s + t).skip(child.1) =~= s.skip(child.1) + t);
            lemma_quiet_loop_prefix(pos, z, ply, beta, s.skip(child.1), t, i + 1, a2);
        }
    }
}

/// One step of the capture loop on evaluations `seg + fut`, where the search
/// of the `i`-th capture takes exactly the evaluations `seg`.
#[verifier::spinoff_prover]
#[verifier::rlimit(60)]
pub proof fn lemma_quiet_step(pos: Position, z: &Zobrist, ply: int, beta: int, seg: Seq<i32>, fut: Seq<i32>, i: int, a: int)
    requires
        0 <= ply < MAX_PLY,
        0 <= i < capture_list(pos, z).len(),
        quiet_value(make_move_spec(pos, capture_list(pos, z)[i], z), z, ply + 1, -beta, -a, seg).1 == seg.len(),
    ensures
        ({
            let c = quiet_value(make_move_spec(pos, capture_list(pos, z)[i], z), z, ply + 1, -beta, -a, seg).0;
            let score = -c;
            let a2 = if score > a { score } else { a };
            quiet_loop(pos, z, ply, beta, seg + fut, i, a) == if score >= beta {
                (beta, seg.len() as int)
            } else {
                let rest = quiet_loop(pos, z, ply, beta, fut, i + 1, a2);
                (rest.0, seg.len() + rest.1)
            }
        }),
{
    let np = make_move_spec(pos, capture_list(pos, z)[i], z);
    lemma_quiet_prefix(np, z, ply + 1, -beta, -a, seg, fut);
    assert((seg + fut).skip(seg.len() as int) =~= fut);
}

/// `b` continues `a`: `a` is a prefix of `b`.
pub open spec fn extends(a: Seq<i32>, b: Seq<i32>) -> bool {
    a.len() <= b.len() && b.take(a.len() as int) == a
}

pub proof fn lemma_extends_trans(a: Seq<i32>, b: Seq<i32>, c: Seq<i32>)
    requires
        extends(a, b),
        extends(b, c),
    ensures
        extends(a, c),
        c.skip(a.len() as int) =~= b.skip(a.len() as int) + c.skip(b.len() as int),
{
    assert forall|k: int| 0 <= k < a.len() implies c.take(a.len() as int)[k] == a[k] by {
        assert(c.take(b.len() as int)[k] == b[k]);
        assert(b.take(a.len() as int)[k] == a[k]);
    }
    assert(c.take(a.len() as int) =~= a);
    assert forall|k: int| 0 <= k < b.len() - a.len() implies c.skip(a.len() as int)[k] == (b.skip(a.len() as int) + c.skip(
        b.len() as int,
    ))[k] by {
        assert(c.take(b.len() as int)[a.len() + k] == b[a.len() + k]);
    }
}

} // verus!
