use minefield::board::{Board, Cell};
use minefield::coord::Coordinate;
use minefield::oracle::{is_bomb, neighbor_count, Config};

fn at(x: i64, y: i64) -> Coordinate {
    Coordinate::new(x, y)
}

fn board(divisor: u64) -> Board {
    Board::new(Config::new(divisor, 100, 1000).unwrap())
}

#[test]
fn new_board_is_empty() {
    let b = board(10);
    assert!(!b.contains(at(0, 0)));
    assert_eq!(b.query(at(0, 0)), None);
    assert_eq!(b.config(), Config { divisor: 10, step_limit: 100, idle_limit: 1000 });
}

#[test]
fn default_board_is_empty_with_default_config() {
    let b = Board::default();
    assert!(!b.contains(at(3, 4)));
    assert_eq!(b.config(), Config::default());
}

#[test]
fn materialize_stores_the_oracle_cell() {
    let mut b = board(10);
    assert_eq!(b.materialize(at(0, 1), false), (false, false));
    assert!(b.contains(at(0, 1)));
    assert_eq!(
        b.query(at(0, 1)),
        Some(Cell { pos: at(0, 1), is_bomb: false, neighbor_count: 2, revealed: false })
    );
    assert_eq!(b.materialize(at(1, 0), true), (false, true));
    assert_eq!(
        b.query(at(1, 0)),
        Some(Cell { pos: at(1, 0), is_bomb: true, neighbor_count: 0, revealed: true })
    );
    assert_eq!(b.materialize(at(0, 3), true), (false, true));
    assert_eq!(
        b.query(at(0, 3)),
        Some(Cell { pos: at(0, 3), is_bomb: false, neighbor_count: 0, revealed: true })
    );
    assert!(!b.contains(at(1, 1)));
}

#[test]
fn materialize_twice_changes_nothing() {
    let mut b = board(10);
    assert_eq!(b.materialize(at(0, 1), false), (false, false));
    let first = b.query(at(0, 1));
    assert_eq!(b.materialize(at(0, 1), true), (true, false));
    assert_eq!(b.query(at(0, 1)), first);
    assert_eq!(b.materialize(at(0, 3), true), (false, true));
    let clear = b.query(at(0, 3));
    assert_eq!(b.materialize(at(0, 3), false), (true, true));
    assert_eq!(b.query(at(0, 3)), clear);
}

#[test]
fn place_hands_back_the_stored_cell() {
    let mut b = board(10);
    let (existed, cell) = b.place(at(-1, 1), true);
    assert!(!existed);
    assert_eq!(cell, Cell { pos: at(-1, 1), is_bomb: true, neighbor_count: 0, revealed: true });
    let (existed, again) = b.place(at(-1, 1), false);
    assert!(existed);
    assert_eq!(again, cell);
}

#[test]
fn distinct_coordinates_are_distinct_cells() {
    let mut b = board(10);
    b.materialize(at(1, 2), false);
    assert!(!b.contains(at(2, 1)));
    assert!(!b.contains(at(-1, 2)));
    assert!(!b.contains(at(1, -2)));
    b.materialize(at(i64::MIN, i64::MAX), false);
    assert!(b.contains(at(i64::MIN, i64::MAX)));
    assert!(!b.contains(at(i64::MAX, i64::MIN)));
    assert_eq!(b.query(at(i64::MIN, i64::MAX)).unwrap().pos, at(i64::MIN, i64::MAX));
}

#[test]
fn mark_revealed_uncovers_once() {
    let mut b = board(10);
    b.materialize(at(0, 1), false);
    b.mark_revealed(at(0, 1));
    let shown = Cell { pos: at(0, 1), is_bomb: false, neighbor_count: 2, revealed: true };
    assert_eq!(b.query(at(0, 1)), Some(shown));
    b.mark_revealed(at(0, 1));
    assert_eq!(b.query(at(0, 1)), Some(shown));
}

#[test]
fn mark_revealed_ignores_missing_cells() {
    let mut b = board(10);
    b.mark_revealed(at(4, 4));
    assert!(!b.contains(at(4, 4)));
}

#[test]
fn stored_cells_agree_with_the_oracle() {
    let cfg = Config::new(5, 100, 1000).unwrap();
    let mut b = Board::new(cfg);
    for x in -6..6 {
        for y in -6..6 {
            if (x + y) % 3 == 0 {
                b.materialize(at(x, y), x % 2 == 0);
            }
        }
    }
    for x in -6..6 {
        for y in -6..6 {
            let p = at(x, y);
            match b.query(p) {
                Some(c) => {
                    assert_eq!(c.pos, p);
                    assert_eq!(c.is_bomb, is_bomb(&cfg, p));
                    assert_eq!(c.neighbor_count, neighbor_count(&cfg, p));
                    assert_eq!(c.revealed, x % 2 == 0);
                }
                None => assert!((x + y) % 3 != 0),
            }
        }
    }
}
