use minefield::board::{Board, Cell};
use minefield::coord::Coordinate;
use minefield::oracle::{is_bomb, neighbor_count, Config};

fn at(x: i64, y: i64) -> Coordinate {
    Coordinate::new(x, y)
}

fn board(divisor: u64, step_limit: usize, idle_limit: usize) -> Board {
    Board::new(Config::new(divisor, step_limit, idle_limit).unwrap())
}

fn cell(x: i64, y: i64, is_bomb: bool, neighbor_count: u8, revealed: bool) -> Cell {
    Cell { pos: at(x, y), is_bomb, neighbor_count, revealed }
}

#[test]
fn reveal_origin_with_divisor_five() {
    let mut b = board(5, 100, 1000);
    assert!(!is_bomb(&b.config(), at(0, 0)));
    let out = b.reveal_at(at(0, 0));
    assert!(!out.cells.is_empty());
    assert!(out.cells.contains(&cell(0, 0, false, 2, true)));
    assert_eq!(out.cells[0], cell(0, 0, false, 2, true));
    assert_eq!(out.cells.len(), 25);
    assert_eq!(out.steps, 1);
    assert_eq!(out.idle_steps, 0);
    assert_eq!(
        out.cells[1..12].to_vec(),
        vec![
            cell(-1, 0, false, 1, true),
            cell(1, 0, true, 0, true),
            cell(0, -1, false, 2, true),
            cell(0, 1, false, 2, true),
            cell(-1, -1, false, 2, true),
            cell(-1, 1, true, 0, true),
            cell(1, -1, false, 1, true),
            cell(1, 1, false, 1, true),
            cell(-2, 0, false, 1, false),
            cell(-2, -1, false, 2, false),
            cell(-2, 1, false, 1, false),
        ]
    );
    assert_eq!(out.cells.iter().filter(|c| c.revealed).count(), 9);
}

#[test]
fn reveal_clear_cell_with_divisor_ten() {
    let mut b = board(10, 100, 1000);
    let out = b.reveal_at(at(0, 3));
    assert_eq!(out.cells.len(), 118);
    assert_eq!(out.steps, 100);
    assert_eq!(out.idle_steps, 0);
    assert_eq!(out.cells.iter().filter(|c| c.revealed).count(), 79);
    assert_eq!(
        out.cells[..12].to_vec(),
        vec![
            cell(0, 3, false, 0, true),
            cell(-1, 3, false, 0, true),
            cell(1, 3, false, 0, true),
            cell(0, 2, false, 1, true),
            cell(0, 4, false, 0, true),
            cell(-1, 2, false, 1, true),
            cell(-1, 4, false, 1, true),
            cell(1, 2, false, 0, true),
            cell(1, 4, false, 0, true),
            cell(-2, 3, false, 0, true),
            cell(-2, 2, false, 1, true),
            cell(-2, 4, false, 1, true),
        ]
    );
}

#[test]
fn reveal_lists_each_cell_as_it_is_stored() {
    let mut b = board(10, 100, 1000);
    let out = b.reveal_at(at(0, 3));
    for c in out.cells.iter() {
        assert_eq!(b.query(c.pos), Some(*c));
        assert_eq!(c.is_bomb, is_bomb(&b.config(), c.pos));
        assert_eq!(c.neighbor_count, neighbor_count(&b.config(), c.pos));
    }
    for i in 0..out.cells.len() {
        for j in 0..i {
            assert_ne!(out.cells[i].pos, out.cells[j].pos);
        }
    }
}

#[test]
fn reveal_a_mine_returns_only_the_mine() {
    let mut b = board(10, 100, 1000);
    assert!(is_bomb(&b.config(), at(1, 0)));
    let out = b.reveal_at(at(1, 0));
    assert_eq!(out.cells, vec![cell(1, 0, true, 0, true)]);
    assert_eq!(out.steps, 0);
    assert_eq!(out.idle_steps, 0);
    for k in 0..8 {
        assert!(!b.contains(at(1, 0).neighbor(k)));
    }
    let again = b.reveal_at(at(1, 0));
    assert!(again.cells.is_empty());
}

#[test]
fn reveal_a_covered_mine_uncovers_it() {
    let mut b = board(10, 100, 1000);
    b.materialize(at(-1, 1), false);
    let out = b.reveal_at(at(-1, 1));
    assert_eq!(out.cells, vec![cell(-1, 1, true, 0, true)]);
    assert_eq!(b.query(at(-1, 1)), Some(cell(-1, 1, true, 0, true)));
}

#[test]
fn fill_does_not_pass_through_a_mine_with_no_mine_around_it() {
    let mut b = board(10, 100, 1000);
    assert_eq!(neighbor_count(&b.config(), at(1, 0)), 0);
    let out = b.reveal_at(at(0, 0));
    assert_eq!(out.steps, 1);
    assert!(out.cells.contains(&cell(1, 0, true, 0, true)));
    assert_eq!(b.query(at(2, 0)), Some(cell(2, 0, false, 1, false)));
}

#[test]
fn second_reveal_of_a_clear_cell_does_nothing() {
    let mut b = board(10, 100, 1000);
    assert_eq!(neighbor_count(&b.config(), at(0, 3)), 0);
    assert!(!is_bomb(&b.config(), at(0, 3)));
    let first = b.reveal_at(at(0, 3));
    assert!(!first.cells.is_empty());
    let mut snapshot = Vec::new();
    for c in first.cells.iter() {
        snapshot.push(b.query(c.pos));
    }
    let second = b.reveal_at(at(0, 3));
    assert!(second.cells.is_empty());
    assert_eq!(second.steps, 0);
    assert_eq!(second.idle_steps, 0);
    for (c, before) in first.cells.iter().zip(snapshot.iter()) {
        assert_eq!(b.query(c.pos), *before);
    }
}

#[test]
fn step_limit_bounds_the_expansion() {
    let mut b = board(10, 3, 1000);
    let out = b.reveal_at(at(0, 3));
    assert_eq!(out.steps, 3);
    assert_eq!(out.idle_steps, 0);
    assert_eq!(out.cells.len(), 27);
    assert_eq!(out.cells.iter().filter(|c| c.revealed).count(), 15);
    let again = b.reveal_at(at(0, 3));
    assert!(again.cells.is_empty());
    assert_eq!(again.steps, 0);
    let onward = b.reveal_at(at(0, 4));
    assert_eq!(onward.steps, 3);
    assert_eq!(onward.idle_steps, 1);
    assert_eq!(onward.cells.len(), 5);
    assert_eq!(
        onward.cells[..3].to_vec(),
        vec![cell(1, 5, false, 0, true), cell(2, 5, false, 0, true), cell(-1, 6, false, 2, false)]
    );
}

#[test]
fn idle_limit_bounds_the_expansion() {
    let mut b = board(10, 100, 2);
    let out = b.reveal_at(at(0, 3));
    assert_eq!(out.steps, 14);
    assert_eq!(out.idle_steps, 2);
    assert_eq!(out.cells.len(), 57);
}

#[test]
fn zero_step_limit_uncovers_the_origin_alone() {
    let mut b = board(10, 0, 5);
    let out = b.reveal_at(at(0, 3));
    assert_eq!(out.cells, vec![cell(0, 3, false, 0, true)]);
    assert_eq!(out.steps, 0);
    let again = b.reveal_at(at(0, 3));
    assert!(again.cells.is_empty());
    assert_eq!(again.steps, 0);
    assert_eq!(again.idle_steps, 0);
}

#[test]
fn budgets_are_never_exceeded() {
    for (steps, idle) in [(0usize, 0usize), (1, 1), (5, 1), (7, 3), (40, 2), (100, 1000)] {
        let mut b = board(10, steps, idle);
        for p in [at(0, 3), at(1, 4), at(0, 1), at(20, 20), at(0, 3)] {
            let out = b.reveal_at(p);
            assert!(out.steps <= steps);
            assert!(out.idle_steps <= idle);
            assert!(out.cells.iter().filter(|c| c.revealed).count() <= 1 + 8 * out.steps);
            for c in out.cells.iter() {
                assert!((c.pos.x - p.x).abs() <= out.steps as i64 + 1);
                assert!((c.pos.y - p.y).abs() <= out.steps as i64 + 1);
            }
        }
    }
}

#[test]
fn mine_free_plane_fills_until_the_budget_ends() {
    let mut b = board(1, 4, 5);
    let out = b.reveal_at(at(7, 7));
    assert_eq!(out.steps, 4);
    assert_eq!(out.idle_steps, 0);
    assert_eq!(out.cells.len(), 18);
    assert!(out.cells.iter().all(|c| c.revealed && !c.is_bomb && c.neighbor_count == 0));
    assert_eq!(out.cells[17], cell(8, 5, false, 0, true));
}

#[test]
fn covered_cells_in_the_way_stay_covered() {
    let mut b = board(10, 100, 1000);
    assert_eq!(b.materialize(at(0, 2), false), (false, false));
    let out = b.reveal_at(at(0, 3));
    assert_eq!(out.cells.len(), 117);
    assert!(out.cells.iter().all(|c| c.pos != at(0, 2)));
    assert_eq!(b.query(at(0, 2)), Some(cell(0, 2, false, 1, false)));
    let next = b.reveal_at(at(0, 2));
    assert_eq!(next.cells[0], cell(0, 2, false, 1, true));
    assert_eq!(next.cells.len(), 2);
    assert_eq!(next.steps, 100);
    assert_eq!(next.idle_steps, 100);
    assert_eq!(b.query(at(0, 2)), Some(cell(0, 2, false, 1, true)));
}

#[test]
fn uncovered_cells_are_never_covered_again() {
    let mut b = board(10, 20, 1000);
    let mut shown: Vec<Coordinate> = Vec::new();
    for p in [at(0, 3), at(2, 5), at(0, 1), at(1, 0), at(9, 9), at(0, 3), at(3, 1)] {
        let out = b.reveal_at(p);
        for c in out.cells.iter() {
            if c.revealed {
                shown.push(c.pos);
            }
        }
        b.materialize(p.neighbor(3), false);
        b.mark_revealed(p.neighbor(0));
        if b.contains(p.neighbor(0)) {
            shown.push(p.neighbor(0));
        }
        for q in shown.iter() {
            assert!(b.query(*q).unwrap().revealed);
        }
    }
}

#[test]
fn fill_uncovers_the_clear_region_and_its_ring() {
    let mut b = board(10, 100, 1000);
    let cfg = b.config();
    b.reveal_at(at(0, 3));
    for k in 0..8 {
        let n = at(0, 3).neighbor(k);
        assert!(b.query(n).unwrap().revealed);
        if neighbor_count(&cfg, n) == 0 {
            for j in 0..8 {
                assert!(b.query(n.neighbor(j)).unwrap().revealed);
            }
        }
    }
    assert_eq!(b.query(at(0, 2)), Some(cell(0, 2, false, 1, true)));
    assert_eq!(b.query(at(-1, 1)), Some(cell(-1, 1, true, 0, false)));
    assert!(!b.contains(at(0, -3)));
}

#[test]
fn uncovered_cells_lie_beside_the_clear_region() {
    let mut b = board(10, 100, 1000);
    let cfg = b.config();
    let origin = at(0, 3);
    let out = b.reveal_at(origin);
    for c in out.cells.iter() {
        let mut beside_clear = c.pos == origin;
        for k in 0..8 {
            let n = c.pos.neighbor(k);
            if neighbor_count(&cfg, n) == 0 && !is_bomb(&cfg, n) {
                beside_clear = true;
            }
        }
        if c.revealed {
            assert!(beside_clear);
        }
    }
}
