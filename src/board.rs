use vstd::prelude::*;

use std::sync::mpsc::Sender;

use crate::coord::Coord;
use crate::model::{
    BoardView, SIZE, TOUR_LEN, cell, initial, is_knight_move, knight_moves, lemma_initial_wf,
    lemma_moved_grid_wf, lemma_open_not_full, lemma_pos_prefix, lemma_rollback_inverts_move,
    lemma_rolled_back_grid_wf, lemma_table_entry, on_board, start_grid, target,
};
use crate::warnsdorff::{
    advanced, best_of, closes, lemma_advanced, lemma_best_of, lemma_run, lemma_step,
    lemma_top_candidate_open, mobility, potential, retreated, run, step, tour, tour_found,
};

verus! {

/// Search state for a closed knight's tour from (0, 0).
#[derive(Debug)]
pub struct Board {
    moves_made: Vec<Coord>,
    current: Coord,
    moves_to_make: Vec<Vec<Coord>>,
    board: Vec<i8>,
    moves: Vec<Coord>,
}

/// What the search does next.
#[derive(Clone, Copy, Debug, PartialEq, Eq, Structural)]
pub enum Mutation {
    Move,
    Rollback,
    Stop,
}

impl View for Board {
    type V = BoardView;

    closed spec fn view(&self) -> BoardView {
        BoardView {
            moves_made: self.moves_made@,
            current: self.current,
            moves_to_make: self.moves_to_make@.map_values(|v: Vec<Coord>| v@),
            board: self.board@,
        }
    }
}

impl Board {
    /// The move table holds the eight knight offsets in enumeration order.
    pub closed spec fn table_ok(&self) -> bool {
        self.moves@ == knight_moves()
    }

    /// Invariant of every board reachable through the search.
    pub open spec fn inv(&self) -> bool {
        self.table_ok() && self@.wf()
    }

    /// Visit order of the square `coord` (0: unvisited).
    pub fn value_at(&self, coord: Coord) -> (r: i8)
        requires
            self@.board.len() == 64,
            on_board((coord.0 as int, coord.1 as int)),
        ensures
            r == self@.value((coord.0 as int, coord.1 as int)),
    {
        self.board[Board::index_of(coord)]
    }

    fn index_of(coord: Coord) -> (r: usize)
        requires
            on_board((coord.0 as int, coord.1 as int)),
        ensures
            r == cell((coord.0 as int, coord.1 as int)),
            r < 64,
    {
        (coord.0 as usize) * 8 + coord.1 as usize
    }

    /// Records `val` as the visit order of the square `coord`.
    pub fn set_value_at(&mut self, coord: Coord, val: i8)
        requires
            old(self)@.board.len() == 64,
            on_board((coord.0 as int, coord.1 as int)),
        ensures
            final(self)@ == (BoardView {
                board: old(self)@.board.update(cell((coord.0 as int, coord.1 as int)), val),
                ..old(self)@
            }),
            final(self).table_ok() == old(self).table_ok(),
    {
        let i = Board::index_of(coord);
        self.board.set(i, val);
    }

    /// Both components lie in `0..8`.
    pub fn is_on_board(c: Coord) -> (r: bool)
        ensures
            r == on_board((c.0 as int, c.1 as int)),
    {
        c.0 >= 0 && c.0 < SIZE && c.1 >= 0 && c.1 < SIZE
    }

    /// The square `c` has not been visited.
    pub fn can_move(&self, c: Coord) -> (r: bool)
        requires
            self@.board.len() == 64,
            on_board((c.0 as int, c.1 as int)),
        ensures
            r == (self@.value((c.0 as int, c.1 as int)) == 0),
    {
        self.value_at(c) == 0i8
    }

    /// The knight offsets, in table order, that lead from the current square
    /// to an unvisited square on the board.
    pub fn available_moves(&self) -> (r: Vec<Coord>)
        requires
            self.table_ok(),
            self@.grid_wf(),
        ensures
            r@ == self@.available(),
            r@.len() <= 8,
            forall|i: int|
                0 <= i < r@.len() ==> is_knight_move(#[trigger] r@[i]) && self@.open_at(
                    target(self@.current, r@[i]),
                ),
    {
        let ghost v = self@;
        let ghost pred = v.leads_open();
        let mut r: Vec<Coord> = Vec::new();
        let mut i: usize = 0;
        while i < self.moves.len()
            invariant
                self.table_ok(),
                v == self@,
                pred == v.leads_open(),
                v.grid_wf(),
                0 <= i <= 8,
                self.moves@ == knight_moves(),
                r@ == knight_moves().take(i as int).filter(pred),
            decreases 8 - i,
        {
            let m = self.moves[i];
            let c = self.current.add(m);
            let ok = Board::is_on_board(c) && self.can_move(c);
            if ok {
                r.push(m);
            }
            proof {
                let s = knight_moves().take(i as int);
                assert(knight_moves().take(i + 1) =~= s.push(m));
                s.lemma_filter_push(m, pred);
                assert(ok == pred(m));
            }
            i = i + 1;
        }
        proof {
            assert(knight_moves().take(8) =~= knight_moves());
            broadcast use Seq::lemma_filter_len, Seq::lemma_filter_pred;
            assert forall|k: int| 0 <= k < r@.len() implies is_knight_move(#[trigger] r@[k])
                && self@.open_at(target(self@.current, r@[k])) by {
                assert(pred(r@[k]));
                assert(knight_moves().filter(pred).contains(r@[k]));
                knight_moves().lemma_filter_contains_rev(pred, r@[k]);
                lemma_table_entry(r@[k]);
            }
        }
        r
    }

    /// Moves the knight by `c` and marks the square it lands on with the next
    /// visit order.
    pub fn make_move(&mut self, c: Coord)
        requires
            old(self)@.grid_wf(),
            is_knight_move(c),
            old(self)@.open_at(target(old(self)@.current, c)),
        ensures
            final(self)@ == old(self)@.moved(c),
            final(self)@.grid_wf(),
            final(self).table_ok() == old(self).table_ok(),
    {
        proof {
            lemma_moved_grid_wf(self@, c);
            lemma_open_not_full(self@, target(self@.current, c));
        }
        let ghost v = self@;
        self.current.add_assign(c);
        self.moves_made.push(c);
        let cur = self.current;
        let order = (self.moves_made.len() + 1) as i8;
        self.set_value_at(cur, order);
        proof {
            assert(self@ =~= v.moved(c));
        }
    }

    /// Undoes the last move: clears the current square and steps back.
    pub fn rollback(&mut self)
        requires
            old(self)@.grid_wf(),
            old(self)@.depth() >= 1,
        ensures
            final(self)@ == old(self)@.rolled_back(),
            final(self)@.grid_wf(),
            final(self).table_ok() == old(self).table_ok(),
    {
        proof {
            lemma_rolled_back_grid_wf(self@);
        }
        let ghost v = self@;
        let cur = self.current;
        self.set_value_at(cur, 0);
        let rb = self.moves_made.pop().unwrap();
        proof {
            let n = v.depth();
            lemma_pos_prefix(v.moves_made.drop_last(), v.moves_made, n - 1);
            assert(is_knight_move(v.moves_made[n - 1]));
        }
        self.current.sub_assign(rb);
        proof {
            assert(self@ =~= v.rolled_back());
        }
    }

    /// The moves made so far, in order.
    pub fn moves_made(&self) -> (r: &Vec<Coord>)
        ensures
            r@ == self@.moves_made,
    {
        &self.moves_made
    }

    /// The knight's square.
    pub fn current(&self) -> (r: Coord)
        ensures
            r == self@.current,
    {
        self.current
    }

    /// The untried candidates of each depth on the path.
    pub fn moves_to_make(&self) -> (r: &Vec<Vec<Coord>>)
        ensures
            r@.map_values(|v: Vec<Coord>| v@) == self@.moves_to_make,
    {
        &self.moves_to_make
    }

    /// A board with the knight on (0, 0), that square marked as visited
    /// first, and the moves from there as the candidates of depth 0.
    pub fn new() -> (r: Board)
        ensures
            r@ == initial(),
            r.inv(),
    {
        let moves = vec![
            Coord(1, 2),
            Coord(1, -2),
            Coord(2, 1),
            Coord(2, -1),
            Coord(-1, 2),
            Coord(-1, -2),
            Coord(-2, 1),
            Coord(-2, -1),
        ];
        let mut board: Vec<i8> = Vec::new();
        let mut i: usize = 0;
        while i < 64
            invariant
                i <= 64,
                board@.len() == i,
                forall|j: int| 0 <= j < i ==> board@[j] == 0,
            decreases 64 - i,
        {
            board.push(0);
            i = i + 1;
        }
        board.set(0, 1);
        let mut ret = Board {
            moves_made: Vec::new(),
            current: Coord(0, 0),
            moves_to_make: Vec::new(),
            board,
            moves,
        };
        proof {
            assert(ret.moves@ =~= knight_moves());
            assert(ret.board@ =~= start_grid());
            lemma_initial_wf();
            let v = initial();
            assert(ret@.moves_to_make =~= Seq::<Seq<Coord>>::empty());
            assert(ret@ == BoardView { moves_to_make: Seq::empty(), ..v });
            assert(ret@.grid_wf());
        }
        let am = ret.available_moves();
        ret.moves_to_make.push(am);
        proof {
            assert(ret@.moves_to_make =~= initial().moves_to_make);
            assert(ret@ == initial());
        }
        ret
    }

    /// The Warnsdorff step: among the untried candidates of the current depth,
    /// applies the first one after which the fewest moves remain, removes it
    /// from the candidates and pushes the candidates of the new square.
    pub fn apply_best_move(&mut self)
        requires
            old(self).inv(),
            old(self)@.moves_to_make.len() > 0,
            old(self)@.moves_to_make.last().len() > 0,
        ensures
            final(self).inv(),
            final(self)@ == advanced(old(self)@),
    {
        let ghost v = self@;
        proof {
            lemma_advanced(v);
        }
        let top_i = self.moves_to_make.len() - 1;
        let cnt = self.moves_to_make[top_i].len();
        let ghost top = v.moves_to_make.last();
        let mut best: Option<(Coord, usize, usize)> = None;
        let mut i: usize = 0;
        while i < cnt
            invariant
                self.table_ok(),
                self@ == v,
                v.wf(),
                top_i == v.moves_to_make.len() - 1,
                top == v.moves_to_make[top_i as int],
                cnt == top.len(),
                cnt > 0,
                i <= cnt,
                match best {
                    None => i == 0,
                    Some((c, len, idx)) => i > 0 && idx == best_of(v, top, i as int) && c
                        == top[idx as int] && len == mobility(v, c),
                },
            decreases cnt - i,
        {
            let available_move = self.moves_to_make[top_i][i];
            proof {
                lemma_top_candidate_open(v, i as int);
            }
            self.make_move(available_move);
            let am = self.available_moves();
            let new_len = am.len();
            self.rollback();
            proof {
                lemma_rollback_inverts_move(v, available_move);
            }
            best = match best {
                None => Some((available_move, new_len, i)),
                Some((c, best_len, idx)) => {
                    if new_len < best_len {
                        Some((available_move, new_len, i))
                    } else {
                        Some((c, best_len, idx))
                    }
                },
            };
            i = i + 1;
        }
        let (c, _, idx) = best.unwrap();
        proof {
            lemma_best_of(v, top, cnt as int);
            lemma_top_candidate_open(v, idx as int);
        }
        self.make_move(c);
        let mut top_moves = self.moves_to_make.pop().unwrap();
        top_moves.remove(idx);
        self.moves_to_make.push(top_moves);
        let am = self.available_moves();
        self.moves_to_make.push(am);
        proof {
            assert(self@.moves_to_make =~= advanced(v).moves_to_make);
            assert(self@ == advanced(v));
        }
    }

    /// What the search does next: advance while the current depth has
    /// untried candidates, step back when it has none, stop when no depth is
    /// left.
    pub fn get_action(&self) -> (r: Mutation)
        ensures
            r == (if self@.moves_to_make.len() == 0 {
                Mutation::Stop
            } else if self@.moves_to_make.last().len() == 0 {
                Mutation::Rollback
            } else {
                Mutation::Move
            }),
    {
        let n = self.moves_to_make.len();
        if n == 0 {
            Mutation::Stop
        } else if self.moves_to_make[n - 1].len() == 0 {
            Mutation::Rollback
        } else {
            Mutation::Move
        }
    }

    /// One more knight move from the current square returns to (0, 0).
    pub fn is_closed_tour(&self) -> (r: bool)
        requires
            self.table_ok(),
            self@.grid_wf(),
        ensures
            r == closes(self@),
    {
        let mut i: usize = 0;
        while i < self.moves.len()
            invariant
                self.table_ok(),
                self@.grid_wf(),
                i <= 8,
                forall|j: int| 0 <= j < i ==> target(self@.current, #[trigger] knight_moves()[j]) != (
                0int, 0int),
            decreases 8 - i,
        {
            let c = self.current.add(self.moves[i]);
            proof {
                assert(self.moves@[i as int] == knight_moves()[i as int]);
            }
            if c.0 == 0 && c.1 == 0 {
                assert(target(self@.current, knight_moves()[i as int]) == (0int, 0int));
                return true;
            }
            assert(target(self@.current, knight_moves()[i as int]) != (0int, 0int));
            i = i + 1;
        }
        false
    }

    /// Gives up the current depth, whose candidates are exhausted: drops its
    /// list and undoes the move that led there, if any.
    pub fn step_back(&mut self)
        requires
            old(self).inv(),
            old(self)@.moves_to_make.len() > 0,
            old(self)@.moves_to_make.last().len() == 0,
        ensures
            final(self).inv(),
            final(self)@ == retreated(old(self)@),
    {
        let ghost v = self@;
        proof {
            lemma_step(v);
        }
        self.moves_to_make.pop();
        proof {
            assert(self@.moves_to_make =~= v.moves_to_make.drop_last());
            assert(self@ == BoardView { moves_to_make: v.moves_to_make.drop_last(), ..v });
        }
        if self.moves_made.len() > 0 {
            self.rollback();
        }
    }

    /// The found tour: the moves made, then the move back to (0, 0).
    fn tour_moves(&self) -> (r: Vec<Coord>)
        requires
            self@.grid_wf(),
        ensures
            r@ == tour(self@),
    {
        let mut r: Vec<Coord> = Vec::new();
        let mut i: usize = 0;
        while i < self.moves_made.len()
            invariant
                i <= self@.moves_made.len(),
                r@ == self@.moves_made.take(i as int),
            decreases self@.moves_made.len() - i,
        {
            r.push(self.moves_made[i]);
            i = i + 1;
            proof {
                assert(r@ =~= self@.moves_made.take(i as int));
            }
        }
        r.push(Coord(-self.current.0, -self.current.1));
        proof {
            assert(self@.moves_made.take(i as int) =~= self@.moves_made);
            assert(r@ =~= tour(self@));
        }
        r
    }

    /// Runs the search until it completes a closed tour, which it returns, or
    /// until it has exhausted every branch, when it returns `None`.
    pub fn next_tour(&mut self) -> (r: Option<Vec<Coord>>)
        requires
            old(self).inv(),
        ensures
            final(self).inv(),
            final(self)@ == run(old(self)@).0,
            match r {
                Some(t) => run(old(self)@).1 == Some(t@),
                None => run(old(self)@).1 is None,
            },
    {
        let ghost v0 = self@;
        loop
            invariant
                self.inv(),
                v0 == old(self)@,
                run(self@) == run(v0),
            decreases potential(self@.moves_to_make),
        {
            let ghost v = self@;
            proof {
                if v.moves_to_make.len() > 0 {
                    lemma_step(v);
                }
            }
            match self.get_action() {
                Mutation::Move => {
                    self.apply_best_move();
                    assert(self@ == step(v));
                    if self.moves_made.len() == TOUR_LEN - 1 && self.is_closed_tour() {
                        assert(tour_found(self@));
                        let t = self.tour_moves();
                        assert(run(v) == (self@, Some(tour(self@))));
                        return Some(t);
                    }
                    assert(!tour_found(self@));
                },
                Mutation::Rollback => {
                    self.step_back();
                },
                Mutation::Stop => {
                    assert(run(v) == (v, None::<Seq<Coord>>));
                    assert(self@ == v);
                    return None;
                },
            }
        }
    }

    /// Runs the search and sends each closed tour it finds, until the search
    /// is exhausted or the receiving side has gone.
    pub fn do_loop(&mut self, sender: Sender<Vec<Coord>>)
        requires
            old(self).inv(),
        ensures
            final(self).inv(),
            final(self)@.moves_to_make.len() == 0 || tour_found(final(self)@),
    {
        loop
            invariant_except_break
                self.inv(),
            ensures
                self.inv(),
                self@.moves_to_make.len() == 0 || tour_found(self@),
            decreases potential(self@.moves_to_make),
        {
            let ghost v = self@;
            proof {
                lemma_run(v);
            }
            match self.next_tour() {
                Some(t) => {
                    if !send_tour(&sender, t) {
                        break;
                    }
                },
                None => {
                    break;
                },
            }
        }
    }
}

#[verifier::external_type_specification]
#[verifier::external_body]
#[verifier::reject_recursive_types(T)]
pub struct ExSender<T>(Sender<T>);

/// Relies on std's `Sender::send`, which hands the tour to the receiving side
/// and fails only once that side has been dropped; the result tells which.
#[verifier::external_body]
fn send_tour(sender: &Sender<Vec<Coord>>, tour: Vec<Coord>) -> (r: bool) {
    sender.send(tour).is_ok()
}

} // verus!
