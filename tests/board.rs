use knights_tour::{Board, Coord, Mutation};

fn grid(b: &Board) -> Vec<i8> {
    let mut g = Vec::new();
    for x in 0..8i8 {
        for y in 0..8i8 {
            g.push(b.value_at(Coord(x, y)));
        }
    }
    g
}

#[test]
fn new_board_marks_start_and_seeds_candidates() {
    let b = Board::new();
    assert_eq!(b.current(), Coord(0, 0));
    assert!(b.moves_made().is_empty());
    assert_eq!(b.value_at(Coord(0, 0)), 1);
    assert_eq!(grid(&b).iter().filter(|v| **v != 0).count(), 1);
    assert_eq!(b.moves_to_make().len(), 1);
    assert_eq!(b.moves_to_make()[0], vec![Coord(1, 2), Coord(2, 1)]);
    assert_eq!(b.get_action(), Mutation::Move);
}

#[test]
fn on_board_bounds() {
    assert!(Board::is_on_board(Coord(0, 0)));
    assert!(Board::is_on_board(Coord(7, 7)));
    assert!(Board::is_on_board(Coord(3, 5)));
    assert!(!Board::is_on_board(Coord(8, 0)));
    assert!(!Board::is_on_board(Coord(0, 8)));
    assert!(!Board::is_on_board(Coord(-1, 3)));
    assert!(!Board::is_on_board(Coord(3, -2)));
}

#[test]
fn set_and_read_values() {
    let mut b = Board::new();
    assert!(b.can_move(Coord(3, 4)));
    b.set_value_at(Coord(3, 4), 5);
    assert_eq!(b.value_at(Coord(3, 4)), 5);
    assert!(!b.can_move(Coord(3, 4)));
    assert!(!b.can_move(Coord(0, 0)));
    assert_eq!(b.value_at(Coord(4, 3)), 0);
}

#[test]
fn available_moves_in_table_order() {
    let mut b = Board::new();
    assert_eq!(b.available_moves(), vec![Coord(1, 2), Coord(2, 1)]);
    b.make_move(Coord(2, 1));
    // from (2, 1): (0, 0) is visited, (4, 0), (4, 2), (3, 3), (1, 3), (0, 2) are open
    assert_eq!(
        b.available_moves(),
        vec![Coord(1, 2), Coord(2, 1), Coord(2, -1), Coord(-1, 2), Coord(-2, 1)]
    );
    for m in b.available_moves() {
        let c = b.current().add(m);
        assert!(Board::is_on_board(c));
        assert!(b.can_move(c));
    }
}

#[test]
fn make_move_marks_next_order() {
    let mut b = Board::new();
    b.make_move(Coord(1, 2));
    assert_eq!(b.current(), Coord(1, 2));
    assert_eq!(b.value_at(Coord(1, 2)), 2);
    b.make_move(Coord(2, 1));
    assert_eq!(b.current(), Coord(3, 3));
    assert_eq!(b.value_at(Coord(3, 3)), 3);
    assert_eq!(b.moves_made(), &vec![Coord(1, 2), Coord(2, 1)]);
}

#[test]
fn rollback_restores_state() {
    let mut b = Board::new();
    b.make_move(Coord(1, 2));
    let before = grid(&b);
    let cur = b.current();
    let n = b.moves_made().len();
    b.make_move(Coord(2, -1));
    assert_ne!(grid(&b), before);
    b.rollback();
    assert_eq!(grid(&b), before);
    assert_eq!(b.current(), cur);
    assert_eq!(b.moves_made().len(), n);
}

#[test]
fn best_move_takes_first_of_equal_mobility() {
    // from the corner both (1, 2) and (2, 1) leave five onward moves
    let mut b = Board::new();
    b.apply_best_move();
    assert_eq!(b.moves_made(), &vec![Coord(1, 2)]);
    assert_eq!(b.moves_to_make().len(), 2);
    assert_eq!(b.moves_to_make()[0], vec![Coord(2, 1)]);
    assert_eq!(b.moves_to_make()[1], b.available_moves());
    assert_eq!(b.value_at(Coord(1, 2)), 2);
}

#[test]
fn best_move_prefers_least_mobility() {
    let mut b = Board::new();
    b.apply_best_move();
    // from (1, 2) the onward counts are 7, 3, 7, 5, 3: the first 3 wins
    assert_eq!(
        b.moves_to_make()[1],
        vec![Coord(1, 2), Coord(1, -2), Coord(2, 1), Coord(2, -1), Coord(-1, 2)]
    );
    b.apply_best_move();
    assert_eq!(b.current(), Coord(2, 0));
    assert_eq!(b.value_at(Coord(2, 0)), 3);
    assert_eq!(b.moves_to_make()[1], vec![Coord(1, 2), Coord(2, 1), Coord(2, -1), Coord(-1, 2)]);
    assert_eq!(b.moves_to_make()[2], vec![Coord(1, 2), Coord(2, 1), Coord(-2, 1)]);
}

#[test]
fn closed_tour_check() {
    let mut b = Board::new();
    assert!(!b.is_closed_tour());
    b.make_move(Coord(1, 2));
    assert!(b.is_closed_tour());
    b.make_move(Coord(2, 1));
    assert!(!b.is_closed_tour());
}

#[test]
fn coord_arithmetic() {
    assert_eq!(Coord(1, 2).add(Coord(-2, 1)), Coord(-1, 3));
    let mut c = Coord(3, 3);
    c.add_assign(Coord(2, -1));
    assert_eq!(c, Coord(5, 2));
    c.sub_assign(Coord(1, 2));
    assert_eq!(c, Coord(4, 0));
}
