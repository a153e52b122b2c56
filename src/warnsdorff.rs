use vstd::prelude::*;

use crate::coord::Coord;
use crate::model::{
    BoardView, cell, is_knight_move, knight_moves, lemma_moved_grid_wf, lemma_open_not_full,
    lemma_pos_prefix, lemma_rolled_back_grid_wf, on_board, pos, target,
};

verus! {

/// Onward moves left after moving by `m`.
pub open spec fn mobility(v: BoardView, m: Coord) -> nat {
    v.moved(m).available().len()
}

/// Index, among the first `k` candidates, of the first one of least mobility.
pub open spec fn best_of(v: BoardView, cands: Seq<Coord>, k: int) -> int
    decreases k,
{
    if k <= 1 {
        0
    } else {
        let b = best_of(v, cands, k - 1);
        if mobility(v, cands[k - 1]) < mobility(v, cands[b]) {
            k - 1
        } else {
            b
        }
    }
}

/// The state after the Warnsdorff step: the first untried candidate of least
/// mobility is applied and removed from its list, and the new square's
/// available moves become the next depth's candidates.
pub open spec fn advanced(v: BoardView) -> BoardView {
    let top = v.moves_to_make.last();
    let i = best_of(v, top, top.len() as int);
    let w = v.moved(top[i]);
    BoardView {
        moves_to_make: v.moves_to_make.drop_last().push(top.remove(i)).push(w.available()),
        ..w
    }
}

/// The state after giving up the top depth: its empty candidate list is
/// dropped and, unless at the start square, the last move is undone.
pub open spec fn retreated(v: BoardView) -> BoardView {
    let t = BoardView { moves_to_make: v.moves_to_make.drop_last(), ..v };
    if v.depth() == 0 {
        t
    } else {
        t.rolled_back()
    }
}

/// One step of the search on an active state.
pub open spec fn step(v: BoardView) -> BoardView {
    if v.moves_to_make.last().len() == 0 {
        retreated(v)
    } else {
        advanced(v)
    }
}

/// One more knight move from the current square reaches the start square.
pub open spec fn closes(v: BoardView) -> bool {
    exists|i: int| 0 <= i < 8 && target(v.current, #[trigger] knight_moves()[i]) == (0int, 0int)
}

/// Every square is visited and the last one is a knight move from the start.
pub open spec fn tour_found(v: BoardView) -> bool {
    v.depth() == 63 && closes(v)
}

/// The closed tour of a full board: its moves, then the move back to the start.
pub open spec fn tour(v: BoardView) -> Seq<Coord> {
    v.moves_made.push(Coord((-v.current.0) as i8, (-v.current.1) as i8))
}

pub open spec fn pow10(e: nat) -> nat
    decreases e,
{
    if e == 0 {
        1
    } else {
        10 * pow10((e - 1) as nat)
    }
}

/// Termination measure of the search: depth `d` weighs `10^(63 - d)` per
/// candidate list and per candidate in it.
pub open spec fn potential(s: Seq<Seq<Coord>>) -> nat
    decreases s.len(),
{
    if s.len() == 0 {
        0
    } else {
        potential(s.drop_last()) + (s.last().len() + 1) * pow10((64 - s.len()) as nat)
    }
}

/// The state in which the search next finds a tour, with that tour, or the
/// exhausted state and `None`.
pub open spec fn run(v: BoardView) -> (BoardView, Option<Seq<Coord>>)
    decreases potential(v.moves_to_make),
{
    if !v.wf() || v.moves_to_make.len() == 0 {
        (v, None)
    } else {
        let w = step(v);
        proof {
            lemma_step(v);
        }
        if tour_found(w) {
            (w, Some(tour(w)))
        } else {
            run(w)
        }
    }
}

proof fn lemma_pow10_positive(e: nat)
    ensures
        pow10(e) > 0,
    decreases e,
{
    if e > 0 {
        lemma_pow10_positive((e - 1) as nat);
    }
}

/// The Warnsdorff choice: the chosen candidate has the least mobility among
/// the first `k`, and every earlier candidate has strictly more.
pub proof fn lemma_best_of(v: BoardView, cands: Seq<Coord>, k: int)
    requires
        1 <= k <= cands.len(),
    ensures
        0 <= best_of(v, cands, k) < k,
        forall|j: int|
            0 <= j < k ==> mobility(v, #[trigger] cands[j]) >= mobility(
                v,
                cands[best_of(v, cands, k)],
            ),
        forall|j: int|
            0 <= j < best_of(v, cands, k) ==> mobility(v, #[trigger] cands[j]) > mobility(
                v,
                cands[best_of(v, cands, k)],
            ),
    decreases k,
{
    if k > 1 {
        lemma_best_of(v, cands, k - 1);
    }
}

/// A candidate at the top of an active well-formed state leads to an
/// unvisited square.
pub proof fn lemma_top_candidate_open(v: BoardView, j: int)
    requires
        v.wf(),
        v.moves_to_make.len() > 0,
        0 <= j < v.moves_to_make.last().len(),
    ensures
        is_knight_move(v.moves_to_make.last()[j]),
        v.open_at(target(v.current, v.moves_to_make.last()[j])),
{
    let n = v.depth();
    assert(v.candidates_ok(n));
    let m = v.moves_to_make[n][j];
    let p = target(v.current, m);
    if v.value(p) != 0 {
        assert(v.board[cell(p)] != 0);
    }
}

/// A step keeps the state well formed and lowers the termination measure.
pub proof fn lemma_step(v: BoardView)
    requires
        v.wf(),
        v.moves_to_make.len() > 0,
    ensures
        step(v).wf(),
        potential(step(v).moves_to_make) < potential(v.moves_to_make),
{
    if v.moves_to_make.last().len() == 0 {
        lemma_retreated(v);
    } else {
        lemma_advanced(v);
    }
}

pub proof fn lemma_advanced(v: BoardView)
    requires
        v.wf(),
        v.moves_to_make.len() > 0,
        v.moves_to_make.last().len() > 0,
    ensures
        advanced(v).wf(),
        advanced(v).depth() == v.depth() + 1,
        potential(advanced(v).moves_to_make) < potential(v.moves_to_make),
{
    let n = v.depth();
    let s = v.moves_to_make;
    let top = s.last();
    let l = top.len() as int;
    lemma_best_of(v, top, l);
    let i = best_of(v, top, l);
    let m = top[i];
    lemma_top_candidate_open(v, i);
    let t = target(v.current, m);
    lemma_open_not_full(v, t);
    lemma_moved_grid_wf(v, m);
    let w = v.moved(m);
    let rest = top.remove(i);
    let u = w.available();
    let r = advanced(v);
    let s2 = r.moves_to_make;
    assert(s2.len() == n + 2);
    assert forall|k: int| 0 <= k <= n implies pos(w.moves_made, k) == pos(v.moves_made, k) by {
        lemma_pos_prefix(w.moves_made, v.moves_made, k);
    }
    assert forall|d: int| 0 <= d < s2.len() implies r.candidates_ok(d) by {
        if d < n {
            assert(s2[d] == s[d]);
            assert(v.candidates_ok(d));
            assert forall|j: int| 0 <= j < s2[d].len() implies {
                let c = #[trigger] s2[d][j];
                let p = (pos(r.moves_made, d).0 + c.0, pos(r.moves_made, d).1 + c.1);
                is_knight_move(c) && on_board(p) && (r.value(p) == 0 || r.value(p) > d + 1)
            } by {
                assert(s[d][j] == s2[d][j]);
            }
        } else if d == n {
            assert(s2[d] == rest);
            assert(v.candidates_ok(n));
            assert forall|j: int| 0 <= j < rest.len() implies {
                let c = #[trigger] s2[d][j];
                let p = (pos(r.moves_made, d).0 + c.0, pos(r.moves_made, d).1 + c.1);
                is_knight_move(c) && on_board(p) && (r.value(p) == 0 || r.value(p) > d + 1)
            } by {
                if j < i {
                    assert(rest[j] == s[n][j]);
                } else {
                    assert(rest[j] == s[n][j + 1]);
                }
            }
        } else {
            assert(s2[d] == u);
            assert forall|j: int| 0 <= j < u.len() implies {
                let c = #[trigger] s2[d][j];
                let p = (pos(r.moves_made, d).0 + c.0, pos(r.moves_made, d).1 + c.1);
                is_knight_move(c) && on_board(p) && (r.value(p) == 0 || r.value(p) > d + 1)
            } by {
                broadcast use Seq::lemma_filter_pred;

                assert(w.leads_open()(u[j]));
                assert(knight_moves().contains(u[j])) by {
                    knight_moves().lemma_filter_contains_rev(w.leads_open(), u[j]);
                }
            }
        }
    }
    // the measure
    knight_moves().lemma_filter_len(w.leads_open());
    let e = (64 - s.len() - 1) as nat;
    lemma_pow10_positive(e);
    let p = pow10(e);
    assert(s2.drop_last() =~= s.drop_last().push(rest));
    assert(s2.drop_last().drop_last() =~= s.drop_last());
    assert(pow10((64 - s.len()) as nat) == 10 * p);
    assert((u.len() + 1) * p < 10 * p) by (nonlinear_arith)
        requires
            u.len() <= 8,
            p > 0,
    ;
    assert(l * (10 * p) + 10 * p == (l + 1) * (10 * p)) by (nonlinear_arith);
    let base = potential(s.drop_last());
    assert(potential(s) == base + (l + 1) * (10 * p));
    assert(potential(s2.drop_last()) == base + ((l - 1) + 1) * (10 * p));
    assert(potential(s2) == potential(s2.drop_last()) + (u.len() + 1) * p);
}

pub proof fn lemma_retreated(v: BoardView)
    requires
        v.wf(),
        v.moves_to_make.len() > 0,
        v.moves_to_make.last().len() == 0,
    ensures
        retreated(v).wf(),
        potential(retreated(v).moves_to_make) < potential(v.moves_to_make),
{
    let n = v.depth();
    let s = v.moves_to_make;
    let r = retreated(v);
    lemma_pow10_positive((64 - s.len()) as nat);
    assert(r.moves_to_make == s.drop_last());
    let q = pow10((64 - s.len()) as nat);
    assert(potential(s) == potential(s.drop_last()) + (s.last().len() + 1) * q);
    let z = s.last().len();
    assert((z + 1) * q == q) by (nonlinear_arith)
        requires
            z == 0,
    ;
    if n > 0 {
        let t = BoardView { moves_to_make: s.drop_last(), ..v };
        lemma_rolled_back_grid_wf(t);
        let c = (v.current.0 as int, v.current.1 as int);
        assert forall|k: int| 0 <= k <= n - 1 implies pos(r.moves_made, k) == pos(
            v.moves_made,
            k,
        ) by {
            lemma_pos_prefix(r.moves_made, v.moves_made, k);
        }
        assert forall|d: int| 0 <= d < n implies r.candidates_ok(d) by {
            assert(v.candidates_ok(d));
            assert forall|j: int| 0 <= j < r.moves_to_make[d].len() implies {
                let c = #[trigger] r.moves_to_make[d][j];
                let p = (pos(r.moves_made, d).0 + c.0, pos(r.moves_made, d).1 + c.1);
                is_knight_move(c) && on_board(p) && (r.value(p) == 0 || r.value(p) > d + 1)
            } by {
                assert(s[d][j] == r.moves_to_make[d][j]);
            }
        }
    }
}

/// The state in which the run stops is well formed; when a tour was found
/// there, the search made progress.
pub proof fn lemma_run(v: BoardView)
    requires
        v.wf(),
    ensures
        run(v).0.wf(),
        run(v).1 is Some ==> potential(run(v).0.moves_to_make) < potential(v.moves_to_make)
            && tour_found(run(v).0),
        run(v).1 is None ==> run(v).0.moves_to_make.len() == 0,
    decreases potential(v.moves_to_make),
{
    if v.moves_to_make.len() > 0 {
        lemma_step(v);
        let w = step(v);
        if !tour_found(w) {
            lemma_run(w);
        }
    }
}

/// A tour that the search finds is a closed knight's tour from (0, 0): 64
/// knight moves over 64 distinct squares of the board, the last of them
/// being the start square again.
pub proof fn lemma_tour_valid(v: BoardView)
    requires
        v.wf(),
        tour_found(v),
    ensures
        tour(v).len() == 64,
        forall|k: int| 0 <= k < 64 ==> is_knight_move(#[trigger] tour(v)[k]),
        forall|k: int| 0 <= k <= 64 ==> on_board(#[trigger] pos(tour(v), k)),
        pos(tour(v), 64) == (0int, 0int),
        forall|a: int, b: int|
            1 <= a < b <= 64 ==> #[trigger] pos(tour(v), a) != #[trigger] pos(tour(v), b),
{
    let t = tour(v);
    let ms = v.moves_made;
    assert forall|k: int| 0 <= k <= 63 implies pos(t, k) == pos(ms, k) by {
        lemma_pos_prefix(t, ms, k);
    }
    let i = choose|i: int| 0 <= i < 8 && target(v.current, #[trigger] knight_moves()[i]) == (
    0int, 0int);
    let m = knight_moves()[i];
    assert(t[63] == Coord((-v.current.0) as i8, (-v.current.1) as i8));
    assert(is_knight_move(t[63]));
    assert(pos(t, 64) == (0int, 0int));
    assert forall|k: int| 0 <= k < 64 implies is_knight_move(#[trigger] t[k]) by {
        if k < 63 {
            assert(t[k] == ms[k]);
        }
    }
    assert forall|a: int, b: int| 1 <= a < b <= 64 implies #[trigger] pos(t, a) != #[trigger] pos(
        t,
        b,
    ) by {
        let pb = if b == 64 {
            pos(ms, 0)
        } else {
            pos(ms, b)
        };
        assert(v.board[cell(pos(ms, a))] == a + 1);
        assert(v.board[cell(pb)] == if b == 64 {
            1
        } else {
            b + 1
        });
    }
}

} // verus!
