use std::collections::HashSet;
use std::sync::mpsc;

use knights_tour::{Board, Coord, Mutation};

const FIRST_TOUR: [(i8, i8); 64] = [(1, 2), (1, -2), (-2, 1), (1, 2), (-1, 2), (1, 2), (2, -1), (2, 1), (2, -1), (-1, -2), (1, -2), (-1, -2), (-2, 1), (2, 1), (1, -2), (-2, 1), (-2, -1), (-2, 1), (-1, 2), (1, 2), (-1, 2), (2, -1), (2, 1), (2, -1), (1, -2), (-2, 1), (1, 2), (1, -2), (-1, -2), (1, -2), (-2, -1), (-2, 1), (-2, -1), (1, 2), (2, 1), (-2, 1), (1, -2), (1, -2), (1, 2), (2, 1), (-1, -2), (-1, 2), (-1, 2), (-1, 2), (-2, -1), (-1, -2), (2, 1), (-2, 1), (2, 1), (2, -1), (-1, -2), (1, -2), (1, 2), (-2, -1), (-2, 1), (2, 1), (2, 1), (2, 1), (-1, -2), (-2, -1), (-2, -1), (-2, -1), (2, -1), (-2, -1)];

const SECOND_TOUR: [(i8, i8); 64] = [(1, 2), (1, -2), (-2, 1), (1, 2), (-1, 2), (1, 2), (2, -1), (2, 1), (2, -1), (-1, -2), (1, -2), (-1, -2), (-2, 1), (2, 1), (1, -2), (-2, 1), (-2, -1), (-2, 1), (-1, 2), (1, 2), (-1, 2), (2, -1), (2, 1), (2, -1), (1, -2), (-2, 1), (1, 2), (1, -2), (-1, -2), (1, -2), (-2, -1), (-2, 1), (-2, -1), (1, 2), (2, 1), (-2, 1), (1, -2), (1, -2), (1, 2), (2, 1), (-1, -2), (-1, 2), (-1, 2), (-1, 2), (-2, -1), (-1, -2), (2, 1), (-2, 1), (2, 1), (2, -1), (-1, -2), (1, -2), (1, 2), (-2, 1), (2, 1), (2, 1), (-1, -2), (-2, -1), (-2, -1), (-2, -1), (1, 2), (2, -1), (-1, -2), (-2, -1)];

fn pairs(t: &[Coord]) -> Vec<(i8, i8)> {
    t.iter().map(|c| (c.0, c.1)).collect()
}

fn is_knight_offset(c: Coord) -> bool {
    let (a, b) = (c.0.abs(), c.1.abs());
    (a == 1 && b == 2) || (a == 2 && b == 1)
}

fn check_invariants(b: &Board) {
    let n = b.moves_made().len();
    if !b.moves_to_make().is_empty() {
        assert_eq!(b.moves_to_make().len(), n + 1);
    }
    let mut orders: Vec<i8> = Vec::new();
    for x in 0..8i8 {
        for y in 0..8i8 {
            let v = b.value_at(Coord(x, y));
            if v != 0 {
                orders.push(v);
            }
        }
    }
    orders.sort();
    let expected: Vec<i8> = (1..=(n as i8 + 1)).collect();
    assert_eq!(orders, expected);
    assert_eq!(b.value_at(b.current()), n as i8 + 1);
}

#[test]
fn first_tour_is_a_closed_knights_tour() {
    let mut b = Board::new();
    let t = b.next_tour().expect("a tour");
    assert_eq!(t.len(), 64);
    let mut seen: HashSet<(i8, i8)> = HashSet::new();
    let mut cur = Coord(0, 0);
    for m in t.iter() {
        assert!(is_knight_offset(*m));
        cur = cur.add(*m);
        assert!(Board::is_on_board(cur));
        assert!(seen.insert((cur.0, cur.1)));
    }
    assert_eq!(seen.len(), 64);
    assert_eq!(cur, Coord(0, 0));
}

#[test]
fn first_tour_has_expected_moves() {
    let mut b = Board::new();
    let t = b.next_tour().expect("a tour");
    assert_eq!(pairs(&t), FIRST_TOUR.to_vec());
    assert_eq!(b.moves_made().len(), 63);
    assert!(b.is_closed_tour());
}

#[test]
fn search_is_deterministic() {
    let mut a = Board::new();
    let mut b = Board::new();
    let ta = a.next_tour().expect("a tour");
    let tb = b.next_tour().expect("a tour");
    assert_eq!(ta, tb);
    let ua = a.next_tour().expect("a second tour");
    let ub = b.next_tour().expect("a second tour");
    assert_eq!(ua, ub);
    assert_eq!(pairs(&ua), SECOND_TOUR.to_vec());
}

#[test]
fn invariants_hold_along_the_search() {
    let mut b = Board::new();
    check_invariants(&b);
    let mut rollbacks = 0;
    loop {
        match b.get_action() {
            Mutation::Move => {
                b.apply_best_move();
                check_invariants(&b);
                if b.moves_made().len() == 63 && b.is_closed_tour() {
                    break;
                }
            }
            Mutation::Rollback => {
                b.step_back();
                rollbacks += 1;
                check_invariants(&b);
            }
            Mutation::Stop => panic!("search exhausted before a tour"),
        }
    }
    assert!(rollbacks > 0);
}

#[test]
fn do_loop_stops_when_receiver_already_dropped() {
    let (tx, rx) = mpsc::channel::<Vec<Coord>>();
    drop(rx);
    let mut b = Board::new();
    b.do_loop(tx);
    assert_eq!(b.moves_made().len(), 63);
    assert!(b.is_closed_tour());
    assert_eq!(pairs(b.moves_made()), FIRST_TOUR[..63].to_vec());
}
