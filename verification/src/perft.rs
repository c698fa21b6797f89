//! perft(depth): the number of leaf nodes of the legal move tree at a fixed
//! depth, the standard check of move generation against published counts.
use vstd::prelude::*;
use crate::board::{Move, Position, Zobrist, uci_spec};
use crate::movegen::{
    Tables, gen_legal, try_gen_legal, make_move, legal_moves, legal_filter, legal_ok, make_ok,
    make_move_spec, pseudo_moves,
};

verus! {

/// Number of leaves of the legal move tree of depth `depth` below `pos`.
pub open spec fn perft_spec(pos: Position, z: &Zobrist, depth: nat) -> nat
    decreases depth, 0nat,
{
    if depth == 0 {
        1
    } else if depth == 1 {
        legal_moves(pos, z).len()
    } else {
        perft_sum(pos, z, legal_moves(pos, z), (depth - 1) as nat)
    }
}

/// Sum of the depth-`d` counts of the positions reached by the moves `ms`.
pub open spec fn perft_sum(pos: Position, z: &Zobrist, ms: Seq<Move>, d: nat) -> nat
    decreases d, ms.len(),
{
    if ms.len() == 0 {
        0
    } else {
        perft_sum(pos, z, ms.drop_last(), d) + perft_spec(make_move_spec(pos, ms.last(), z), z, d)
    }
}

/// Move generation is defined on every position of the tree that a perft of
/// depth `depth` visits.
pub open spec fn perft_ok(pos: Position, z: &Zobrist, depth: nat) -> bool
    decreases depth,
{
    depth == 0 || (legal_ok(pos, z) && (depth == 1 || forall|i: int|
        0 <= i < legal_moves(pos, z).len() ==> perft_ok(
            make_move_spec(pos, #[trigger] legal_moves(pos, z)[i], z),
            z,
            (depth - 1) as nat,
        )))
}

/// Every legal move is one of the candidate moves it was filtered from.
pub proof fn lemma_legal_filter_subset(pos: Position, z: &Zobrist, ms: Seq<Move>)
    ensures
        forall|i: int| 0 <= i < legal_filter(pos, z, ms).len() ==> #[trigger] ms.contains(
            legal_filter(pos, z, ms)[i],
        ),
    decreases ms.len(),
{
    if ms.len() > 0 {
        lemma_legal_filter_subset(pos, z, ms.drop_last());
        let rest = legal_filter(pos, z, ms.drop_last());
        assert forall|i: int| 0 <= i < legal_filter(pos, z, ms).len() implies #[trigger] ms.contains(
            legal_filter(pos, z, ms)[i],
        ) by {
            if i < rest.len() {
                assert(ms.drop_last().contains(rest[i]));
                let k = choose|k: int| 0 <= k < ms.drop_last().len() && ms.drop_last()[k] == rest[i];
                assert(ms[k] == rest[i]);
            } else {
                assert(ms[ms.len() - 1] == ms.last());
            }
        }
    }
}

/// Every legal move can be made.
pub proof fn lemma_legal_move_makeable(pos: Position, z: &Zobrist, mv: Move)
    requires
        legal_ok(pos, z),
        legal_moves(pos, z).contains(mv),
    ensures
        make_ok(pos, mv),
{
    lemma_legal_filter_subset(pos, z, pseudo_moves(pos));
    let k = choose|k: int| 0 <= k < legal_moves(pos, z).len() && legal_moves(pos, z)[k] == mv;
    assert(pseudo_moves(pos).contains(legal_filter(pos, z, pseudo_moves(pos))[k]));
    let k2 = choose|k2: int| 0 <= k2 < pseudo_moves(pos).len() && pseudo_moves(pos)[k2] == mv;
    assert(make_ok(pos, pseudo_moves(pos)[k2]));
}

proof fn lemma_perft_sum_monotone(pos: Position, z: &Zobrist, ms: Seq<Move>, d: nat, i: int)
    requires
        0 <= i <= ms.len(),
    ensures
        perft_sum(pos, z, ms.take(i), d) <= perft_sum(pos, z, ms, d),
    decreases ms.len() - i,
{
    if i < ms.len() {
        lemma_perft_sum_monotone(pos, z, ms, d, i + 1);
        assert(ms.take(i + 1).drop_last() =~= ms.take(i));
    } else {
        assert(ms.take(i) =~= ms);
    }
}

/// Counts the leaves of the legal move tree of depth `depth` below `pos`.
pub fn perft(t: &Tables, z: &Zobrist, pos: &Position, depth: u32) -> (n: u64)
    requires
        t.wf(),
        perft_ok(*pos, z, depth as nat),
        perft_spec(*pos, z, depth as nat) <= u64::MAX,
    ensures
        n == perft_spec(*pos, z, depth as nat),
    decreases depth,
{
    if depth == 0 {
        return 1;
    }
    let moves = gen_legal(t, z, pos);
    if depth == 1 {
        return moves.len() as u64;
    }
    proof {
        lemma_legal_filter_subset(*pos, z, pseudo_moves(*pos));
    }
    let mut nodes = 0u64;
    for i in 0..moves.len()
        invariant
            t.wf(),
            depth >= 2,
            legal_ok(*pos, z),
            moves@ == legal_moves(*pos, z),
            perft_ok(*pos, z, depth as nat),
            perft_spec(*pos, z, depth as nat) <= u64::MAX,
            nodes == perft_sum(*pos, z, moves@.take(i as int), (depth - 1) as nat),
    {
        let mv = moves[i];
        proof {
            lemma_legal_filter_subset(*pos, z, pseudo_moves(*pos));
            assert(pseudo_moves(*pos).contains(legal_filter(*pos, z, pseudo_moves(*pos))[i as int]));
            assert(pseudo_moves(*pos).contains(mv));
            let k = choose|k: int| 0 <= k < pseudo_moves(*pos).len() && pseudo_moves(*pos)[k] == mv;
            assert(make_ok(*pos, pseudo_moves(*pos)[k]));
        }
        let np = make_move(z, pos, &mv);
        assert(moves@.take(i + 1).drop_last() =~= moves@.take(i as int));
        proof {
            lemma_perft_sum_monotone(*pos, z, moves@, (depth - 1) as nat, i + 1);
        }
        let sub = perft(t, z, &np, depth - 1);
        nodes += sub;
    }
    assert(moves@.take(moves@.len() as int) =~= moves@);
    nodes
}

/// Per-move breakdown at the root: each legal move in UCI notation with the
/// perft count below it (1 at depth 0 or 1).
pub fn perft_divide(t: &Tables, z: &Zobrist, pos: &Position, depth: u32) -> (out: Vec<(String, u64)>)
    requires
        t.wf(),
        legal_ok(*pos, z),
        depth >= 2 ==> forall|i: int| 0 <= i < legal_moves(*pos, z).len() ==> {
            &&& perft_ok(make_move_spec(*pos, #[trigger] legal_moves(*pos, z)[i], z), z, (depth - 1) as nat)
            &&& perft_spec(make_move_spec(*pos, legal_moves(*pos, z)[i], z), z, (depth - 1) as nat) <= u64::MAX
        },
    ensures
        out.len() == legal_moves(*pos, z).len(),
        forall|i: int| 0 <= i < out.len() ==> {
            &&& (#[trigger] out@[i]).0@ == uci_spec(legal_moves(*pos, z)[i])
            &&& out@[i].1 == if depth <= 1 {
                1
            } else {
                perft_spec(make_move_spec(*pos, legal_moves(*pos, z)[i], z), z, (depth - 1) as nat)
            }
        },
{
    let moves = gen_legal(t, z, pos);
    let mut out: Vec<(String, u64)> = Vec::new();
    for i in 0..moves.len()
        invariant
            t.wf(),
            legal_ok(*pos, z),
            moves@ == legal_moves(*pos, z),
            out.len() == i,
            depth >= 2 ==> forall|k: int| 0 <= k < legal_moves(*pos, z).len() ==> {
                &&& perft_ok(make_move_spec(*pos, #[trigger] legal_moves(*pos, z)[k], z), z, (depth - 1) as nat)
                &&& perft_spec(make_move_spec(*pos, legal_moves(*pos, z)[k], z), z, (depth - 1) as nat) <= u64::MAX
            },
            forall|k: int| 0 <= k < i ==> {
                &&& (#[trigger] out@[k]).0@ == uci_spec(legal_moves(*pos, z)[k])
                &&& out@[k].1 == if depth <= 1 {
                    1
                } else {
                    perft_spec(make_move_spec(*pos, legal_moves(*pos, z)[k], z), z, (depth - 1) as nat)
                }
            },
    {
        let mv = moves[i];
        proof {
            lemma_legal_filter_subset(*pos, z, pseudo_moves(*pos));
            assert(pseudo_moves(*pos).contains(legal_filter(*pos, z, pseudo_moves(*pos))[i as int]));
            let k = choose|k: int| 0 <= k < pseudo_moves(*pos).len() && pseudo_moves(*pos)[k] == mv;
            assert(make_ok(*pos, pseudo_moves(*pos)[k]));
        }
        let np = make_move(z, pos, &mv);
        let n = if depth <= 1 { 1 } else { perft(t, z, &np, depth - 1) };
        out.push((mv.to_uci(), n));
    }
    out
}

/// A child of `pos` whose count is undefined or too large leaves the count
/// of `pos` undefined or too large.
proof fn lemma_perft_blocked(pos: Position, z: &Zobrist, depth: nat, i: int)
    requires
        depth >= 2,
        legal_ok(pos, z),
        0 <= i < legal_moves(pos, z).len(),
        !(perft_ok(make_move_spec(pos, legal_moves(pos, z)[i], z), z, (depth - 1) as nat)
            && perft_spec(make_move_spec(pos, legal_moves(pos, z)[i], z), z, (depth - 1) as nat)
            <= u64::MAX),
    ensures
        !(perft_ok(pos, z, depth) && perft_spec(pos, z, depth) <= u64::MAX),
{
    let ms = legal_moves(pos, z);
    let d1 = (depth - 1) as nat;
    if perft_ok(pos, z, depth) {
        assert(perft_ok(make_move_spec(pos, ms[i], z), z, d1));
        lemma_perft_sum_monotone(pos, z, ms, d1, i + 1);
        assert(ms.take(i + 1).drop_last() =~= ms.take(i));
        assert(ms.take(i + 1).last() == ms[i]);
    }
}

/// The perft count of `pos` at `depth` when move generation is defined on
/// every position the count visits and the count fits in a `u64`, else
/// `None`: `perft` for callers that cannot show its precondition.
#[verifier::rlimit(60)]
pub fn try_perft(t: &Tables, z: &Zobrist, pos: &Position, depth: u32) -> (r: Option<u64>)
    requires
        t.wf(),
    ensures
        match r {
            Some(n) => perft_ok(*pos, z, depth as nat) && n == perft_spec(*pos, z, depth as nat),
            None => !(perft_ok(*pos, z, depth as nat) && perft_spec(*pos, z, depth as nat) <= u64::MAX),
        },
    decreases depth,
{
    if depth == 0 {
        return Some(1);
    }
    let moves = match try_gen_legal(t, z, pos) {
        Some(m) => m,
        None => {
            return None;
        },
    };
    if depth == 1 {
        return Some(moves.len() as u64);
    }
    let ghost d1 = (depth - 1) as nat;
    let mut nodes = 0u64;
    for i in 0..moves.len()
        invariant
            t.wf(),
            depth >= 2,
            d1 == depth - 1,
            legal_ok(*pos, z),
            moves@ == legal_moves(*pos, z),
            nodes == perft_sum(*pos, z, moves@.take(i as int), d1),
            forall|k: int| 0 <= k < i ==> perft_ok(make_move_spec(*pos, #[trigger] moves@[k], z), z, d1),
    {
        let mv = moves[i];
        proof {
            lemma_legal_move_makeable(*pos, z, mv);
        }
        let np = make_move(z, pos, &mv);
        assert(moves@.take(i + 1).drop_last() =~= moves@.take(i as int));
        let sub = match try_perft(t, z, &np, depth - 1) {
            Some(n) => n,
            None => {
                proof {
                    lemma_perft_blocked(*pos, z, depth as nat, i as int);
                }
                return None;
            },
        };
        nodes = match nodes.checked_add(sub) {
            Some(v) => v,
            None => {
                proof {
                    lemma_perft_sum_monotone(*pos, z, moves@, d1, i + 1);
                }
                return None;
            },
        };
    }
    assert(moves@.take(moves@.len() as int) =~= moves@);
    Some(nodes)
}

/// Sum of the counts of a `perft_divide` breakdown.
pub open spec fn divide_total(out: Seq<(String, u64)>) -> int
    decreases out.len(),
{
    if out.len() == 0 {
        0
    } else {
        divide_total(out.drop_last()) + out.last().1
    }
}

/// The per-move counts of a breakdown that agrees with `perft_divide`'s
/// contract sum to the perft count of the position: for a depth of at least
/// 1, the counts of `perft_divide` add up to `perft` at the same depth.
pub proof fn lemma_divide_sums_to_perft(pos: Position, z: &Zobrist, depth: nat, out: Seq<(String, u64)>)
    requires
        depth >= 1,
        out.len() == legal_moves(pos, z).len(),
        forall|i: int| 0 <= i < out.len() ==> (#[trigger] out[i]).1 == if depth <= 1 {
            1
        } else {
            perft_spec(make_move_spec(pos, legal_moves(pos, z)[i], z), z, (depth - 1) as nat)
        },
    ensures
        divide_total(out) == perft_spec(pos, z, depth),
{
    let ms = legal_moves(pos, z);
    lemma_divide_prefix(pos, z, depth, out, out.len() as int);
    assert(out.take(out.len() as int) =~= out);
    assert(ms.take(ms.len() as int) =~= ms);
}

proof fn lemma_divide_prefix(pos: Position, z: &Zobrist, depth: nat, out: Seq<(String, u64)>, k: int)
    requires
        depth >= 1,
        0 <= k <= out.len(),
        out.len() == legal_moves(pos, z).len(),
        forall|i: int| 0 <= i < out.len() ==> (#[trigger] out[i]).1 == if depth <= 1 {
            1
        } else {
            perft_spec(make_move_spec(pos, legal_moves(pos, z)[i], z), z, (depth - 1) as nat)
        },
    ensures
        divide_total(out.take(k)) == if depth <= 1 {
            k
        } else {
            perft_sum(pos, z, legal_moves(pos, z).take(k), (depth - 1) as nat) as int
        },
    decreases k,
{
    let ms = legal_moves(pos, z);
    if k > 0 {
        lemma_divide_prefix(pos, z, depth, out, k - 1);
        assert(out.take(k).drop_last() =~= out.take(k - 1));
        assert(ms.take(k).drop_last() =~= ms.take(k - 1));
        assert(out.take(k).last() == out[k - 1]);
        assert(ms.take(k).last() == ms[k - 1]);
    }
}

} // verus!
