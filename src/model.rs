use vstd::prelude::*;

use crate::coord::Coord;

verus! {

/// Side length of the board.
pub const SIZE: i8 = 8;

/// Number of knight moves in a closed tour of the whole board.
pub const TOUR_LEN: usize = 64;

/// The eight knight offsets, in the order in which moves are enumerated.
pub open spec fn knight_moves() -> Seq<Coord> {
    seq![
        Coord(1i8, 2i8),
        Coord(1i8, -2i8),
        Coord(2i8, 1i8),
        Coord(2i8, -1i8),
        Coord(-1i8, 2i8),
        Coord(-1i8, -2i8),
        Coord(-2i8, 1i8),
        Coord(-2i8, -1i8),
    ]
}

pub open spec fn is_knight_move(m: Coord) -> bool {
    ((m.0 == 1 || m.0 == -1) && (m.1 == 2 || m.1 == -2))
        || ((m.0 == 2 || m.0 == -2) && (m.1 == 1 || m.1 == -1))
}

pub open spec fn on_board(p: (int, int)) -> bool {
    0 <= p.0 < 8 && 0 <= p.1 < 8
}

/// Index of a square in the row-major grid.
pub open spec fn cell(p: (int, int)) -> int {
    p.0 * 8 + p.1
}

/// The square reached from `c` by the displacement `m`.
pub open spec fn target(c: Coord, m: Coord) -> (int, int) {
    (c.0 + m.0, c.1 + m.1)
}

/// The square reached after the first `k` moves of `ms`, starting from (0, 0).
pub open spec fn pos(ms: Seq<Coord>, k: int) -> (int, int)
    decreases k,
{
    if k <= 0 {
        (0, 0)
    } else {
        let p = pos(ms, k - 1);
        (p.0 + ms[k - 1].0, p.1 + ms[k - 1].1)
    }
}

/// Number of unvisited cells.
pub open spec fn zeros(s: Seq<i8>) -> nat
    decreases s.len(),
{
    if s.len() == 0 {
        0
    } else {
        zeros(s.drop_last()) + if s.last() == 0 {
            1nat
        } else {
            0nat
        }
    }
}

/// The grid before the first move: only the start square, visited first.
pub open spec fn start_grid() -> Seq<i8> {
    Seq::new(64, |i: int| if i == 0 { 1i8 } else { 0i8 })
}

/// Holds of the displacements that lead from `c` to an unvisited square of `grid`.
pub open spec fn leads_open_from(c: Coord, grid: Seq<i8>) -> spec_fn(Coord) -> bool {
    |m: Coord| on_board(target(c, m)) && grid[cell(target(c, m))] == 0
}

/// Abstract state of a board.
pub struct BoardView {
    /// Displacements applied so far, in order.
    pub moves_made: Seq<Coord>,
    /// The knight's square.
    pub current: Coord,
    /// For each depth on the path, the candidate moves not yet tried there.
    pub moves_to_make: Seq<Seq<Coord>>,
    /// Visit order of each cell (0: unvisited), row-major.
    pub board: Seq<i8>,
}

impl BoardView {
    pub open spec fn depth(self) -> int {
        self.moves_made.len() as int
    }

    pub open spec fn value(self, p: (int, int)) -> int {
        self.board[cell(p)] as int
    }

    /// `p` is on the board and not yet visited.
    pub open spec fn open_at(self, p: (int, int)) -> bool {
        on_board(p) && self.value(p) == 0
    }

    /// The knight moves that lead from the current square to an unvisited one.
    pub open spec fn available(self) -> Seq<Coord> {
        knight_moves().filter(self.leads_open())
    }

    /// Holds of the displacements that lead from the current square to an
    /// unvisited one.
    pub open spec fn leads_open(self) -> spec_fn(Coord) -> bool {
        leads_open_from(self.current, self.board)
    }

    /// The state after moving by `m` and marking the new square.
    pub open spec fn moved(self, m: Coord) -> BoardView {
        BoardView {
            moves_made: self.moves_made.push(m),
            current: Coord((self.current.0 + m.0) as i8, (self.current.1 + m.1) as i8),
            moves_to_make: self.moves_to_make,
            board: self.board.update(cell(target(self.current, m)), (self.depth() + 2) as i8),
        }
    }

    /// The state after undoing the last move.
    pub open spec fn rolled_back(self) -> BoardView {
        let m = self.moves_made.last();
        BoardView {
            moves_made: self.moves_made.drop_last(),
            current: Coord((self.current.0 - m.0) as i8, (self.current.1 - m.1) as i8),
            moves_to_make: self.moves_to_make,
            board: self.board.update(cell((self.current.0 as int, self.current.1 as int)), 0),
        }
    }

    /// Grid, position and history agree: the start square holds 1, the square
    /// reached after `k` moves holds `k + 1`, and no other cell is marked.
    pub open spec fn grid_wf(self) -> bool {
        let n = self.depth();
        &&& self.board.len() == 64
        &&& n <= 63
        &&& self.current.0 == pos(self.moves_made, n).0
        &&& self.current.1 == pos(self.moves_made, n).1
        &&& forall|k: int| 0 <= k < n ==> is_knight_move(#[trigger] self.moves_made[k])
        &&& forall|k: int|
            0 <= k <= n ==> on_board(#[trigger] pos(self.moves_made, k)) && self.board[cell(
                pos(self.moves_made, k),
            )] == k + 1
        &&& forall|i: int|
            0 <= i < 64 && #[trigger] self.board[i] != 0 ==> 1 <= self.board[i] <= n + 1 && cell(
                pos(self.moves_made, self.board[i] - 1),
            ) == i
        &&& zeros(self.board) == 63 - n
    }

    /// Every candidate left at depth `d` is a knight move from the square of
    /// depth `d` to a square that is unvisited or was visited after depth `d`.
    pub open spec fn candidates_ok(self, d: int) -> bool {
        forall|j: int|
            0 <= j < self.moves_to_make[d].len() ==> {
                let m = #[trigger] self.moves_to_make[d][j];
                let p = (pos(self.moves_made, d).0 + m.0, pos(self.moves_made, d).1 + m.1);
                is_knight_move(m) && on_board(p) && (self.value(p) == 0 || self.value(p) > d + 1)
            }
    }

    /// The search is active (one candidate list per depth) or exhausted.
    pub open spec fn wf(self) -> bool {
        &&& self.grid_wf()
        &&& self.moves_to_make.len() == self.depth() + 1 || (self.moves_to_make.len() == 0
            && self.depth() == 0)
        &&& forall|d: int| 0 <= d < self.moves_to_make.len() ==> self.candidates_ok(d)
    }
}

/// The state of a new board: the knight on (0, 0), which is marked visited,
/// and the moves from there as the only candidate list.
pub open spec fn initial() -> BoardView {
    let v = BoardView {
        moves_made: Seq::empty(),
        current: Coord(0, 0),
        moves_to_make: Seq::empty(),
        board: start_grid(),
    };
    BoardView { moves_to_make: seq![v.available()], ..v }
}

/// Every entry of the move table is a knight move.
pub proof fn lemma_table_entry(m: Coord)
    requires
        knight_moves().contains(m),
    ensures
        is_knight_move(m),
{
    let k = choose|k: int| 0 <= k < 8 && knight_moves()[k] == m;
    assert(0 <= k < 8 && knight_moves()[k] == m);
}

pub proof fn lemma_pos_prefix(a: Seq<Coord>, b: Seq<Coord>, k: int)
    requires
        0 <= k <= a.len(),
        k <= b.len(),
        forall|i: int| 0 <= i < k ==> a[i] == b[i],
    ensures
        pos(a, k) == pos(b, k),
    decreases k,
{
    if k > 0 {
        lemma_pos_prefix(a, b, k - 1);
    }
}

pub proof fn lemma_zeros_update(s: Seq<i8>, i: int, v: i8)
    requires
        0 <= i < s.len(),
    ensures
        zeros(s.update(i, v)) == zeros(s) as int - (if s[i] == 0 {
            1int
        } else {
            0
        }) + (if v == 0 {
            1int
        } else {
            0
        }),
    decreases s.len(),
{
    let t = s.update(i, v);
    if i == s.len() - 1 {
        assert(t.drop_last() =~= s.drop_last());
    } else {
        assert(t.drop_last() =~= s.drop_last().update(i, v));
        lemma_zeros_update(s.drop_last(), i, v);
    }
}

pub proof fn lemma_zeros_positive(s: Seq<i8>, i: int)
    requires
        0 <= i < s.len(),
        s[i] == 0,
    ensures
        zeros(s) > 0,
    decreases s.len(),
{
    if i < s.len() - 1 {
        lemma_zeros_positive(s.drop_last(), i);
    }
}

pub proof fn lemma_zeros_all(s: Seq<i8>)
    requires
        forall|i: int| 0 <= i < s.len() ==> s[i] == 0,
    ensures
        zeros(s) == s.len(),
    decreases s.len(),
{
    if s.len() > 0 {
        lemma_zeros_all(s.drop_last());
    }
}

pub proof fn lemma_initial_wf()
    ensures
        initial().wf(),
{
    let v = initial();
    let g = start_grid();
    let z = Seq::new(64, |i: int| 0i8);
    assert(g =~= z.update(0, 1));
    lemma_zeros_all(z);
    lemma_zeros_update(z, 0, 1);
    assert(pos(v.moves_made, 0) == (0int, 0int));
    assert forall|i: int| 0 <= i < 64 && #[trigger] v.board[i] != 0 implies 1 <= v.board[i] <= 1
        && cell(pos(v.moves_made, v.board[i] - 1)) == i by {
        assert(i == 0);
    }
    let u = v.available();
    assert forall|j: int| 0 <= j < u.len() implies {
        let c = #[trigger] v.moves_to_make[0][j];
        let p = (pos(v.moves_made, 0).0 + c.0, pos(v.moves_made, 0).1 + c.1);
        is_knight_move(c) && on_board(p) && (v.value(p) == 0 || v.value(p) > 1)
    } by {
        broadcast use Seq::lemma_filter_pred;

        assert(v.moves_to_make[0] == u);
        assert(v.leads_open()(u[j]));
        assert(knight_moves().contains(u[j])) by {
            knight_moves().lemma_filter_contains_rev(v.leads_open(), u[j]);
        }
    }
    assert(v.candidates_ok(0));
}

/// A knight move from an on-board square to an unvisited square is legal in
/// any well-formed grid; such a grid has a free cell, so it is not full.
pub proof fn lemma_open_not_full(v: BoardView, p: (int, int))
    requires
        v.grid_wf(),
        v.open_at(p),
    ensures
        v.depth() <= 62,
{
    lemma_zeros_positive(v.board, cell(p));
}

/// Moving to an unvisited square keeps the grid well formed.
pub proof fn lemma_moved_grid_wf(v: BoardView, m: Coord)
    requires
        v.grid_wf(),
        is_knight_move(m),
        v.open_at(target(v.current, m)),
    ensures
        v.moved(m).grid_wf(),
        v.moved(m).depth() == v.depth() + 1,
{
    let n = v.depth();
    let t = target(v.current, m);
    let w = v.moved(m);
    let ms = v.moves_made;
    let ms2 = w.moves_made;
    lemma_open_not_full(v, t);
    assert forall|k: int| 0 <= k <= n implies pos(ms2, k) == pos(ms, k) by {
        lemma_pos_prefix(ms2, ms, k);
    }
    assert(pos(ms2, n + 1) == t);
    assert forall|k: int| 0 <= k <= n + 1 implies on_board(#[trigger] pos(ms2, k)) && w.board[cell(
        pos(ms2, k),
    )] == k + 1 by {
        if k <= n {
            assert(v.board[cell(pos(ms, k))] == k + 1);
        }
    }
    assert forall|i: int|
        0 <= i < 64 && #[trigger] w.board[i] != 0 implies 1 <= w.board[i] <= n + 2 && cell(
        pos(ms2, w.board[i] - 1),
    ) == i by {
        if i != cell(t) {
            assert(v.board[i] != 0);
        }
    }
    assert forall|k: int| 0 <= k < n + 1 implies is_knight_move(#[trigger] ms2[k]) by {
        if k < n {
            assert(ms2[k] == ms[k]);
        }
    }
    lemma_zeros_update(v.board, cell(t), (n + 2) as i8);
}

/// Undoing the last move keeps the grid well formed.
pub proof fn lemma_rolled_back_grid_wf(v: BoardView)
    requires
        v.grid_wf(),
        v.depth() >= 1,
    ensures
        v.rolled_back().grid_wf(),
        v.rolled_back().depth() == v.depth() - 1,
{
    let n = v.depth();
    let w = v.rolled_back();
    let ms = v.moves_made;
    let ms2 = w.moves_made;
    let c = (v.current.0 as int, v.current.1 as int);
    assert forall|k: int| 0 <= k <= n - 1 implies pos(ms2, k) == pos(ms, k) by {
        lemma_pos_prefix(ms2, ms, k);
    }
    assert(c == pos(ms, n));
    assert(v.board[cell(c)] == n + 1);
    assert forall|k: int| 0 <= k <= n - 1 implies on_board(#[trigger] pos(ms2, k)) && w.board[cell(
        pos(ms2, k),
    )] == k + 1 by {
        assert(v.board[cell(pos(ms, k))] == k + 1);
    }
    assert forall|i: int|
        0 <= i < 64 && #[trigger] w.board[i] != 0 implies 1 <= w.board[i] <= n && cell(
        pos(ms2, w.board[i] - 1),
    ) == i by {
        assert(v.board[i] != 0);
    }
    assert forall|k: int| 0 <= k < n - 1 implies is_knight_move(#[trigger] ms2[k]) by {
        assert(ms2[k] == ms[k]);
    }
    lemma_zeros_update(v.board, cell(c), 0);
}

/// Undoing a move restores the state before it exactly.
pub proof fn lemma_rollback_inverts_move(v: BoardView, m: Coord)
    requires
        v.grid_wf(),
        is_knight_move(m),
        v.open_at(target(v.current, m)),
    ensures
        v.moved(m).rolled_back() == v,
{
    let w = v.moved(m).rolled_back();
    assert(w.moves_made =~= v.moves_made);
    assert(w.board =~= v.board);
}

/// Some cell of `grid` holds the visit order `k`.
pub open spec fn holds_order(grid: Seq<i8>, k: int) -> bool {
    exists|i: int| 0 <= i < grid.len() && grid[i] == k
}

/// While the search is active there is one candidate list per depth: one
/// for the start square and one after each move made.
pub proof fn lemma_one_list_per_depth(v: BoardView)
    requires
        v.wf(),
        v.moves_to_make.len() > 0,
    ensures
        v.moves_to_make.len() == v.moves_made.len() + 1,
{
}

/// The visit orders on a well-formed grid are exactly `1 ..= n + 1` for `n`
/// moves made, each on one cell, and the knight's square holds the last.
pub proof fn lemma_visit_orders(v: BoardView)
    requires
        v.grid_wf(),
    ensures
        forall|i: int| 0 <= i < 64 && #[trigger] v.board[i] != 0 ==> 1 <= v.board[i] <= v.depth() + 1,
        forall|k: int| 1 <= k <= v.depth() + 1 ==> #[trigger] holds_order(v.board, k),
        forall|i: int, j: int|
            0 <= i < 64 && 0 <= j < 64 && i != j && #[trigger] v.board[i] != 0 ==> v.board[i]
                != #[trigger] v.board[j],
        v.value((v.current.0 as int, v.current.1 as int)) == v.depth() + 1,
{
    let ms = v.moves_made;
    assert forall|k: int| 1 <= k <= v.depth() + 1 implies #[trigger] holds_order(v.board, k) by {
        let p = pos(ms, k - 1);
        assert(on_board(p) && v.board[cell(p)] == k);
    }
    assert(on_board(pos(ms, v.depth())));
}

} // verus!
