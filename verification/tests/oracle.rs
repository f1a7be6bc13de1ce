use minefield::coord::Coordinate;
use minefield::oracle::{cell_hash, is_bomb, neighbor_count, Config};

fn at(x: i64, y: i64) -> Coordinate {
    Coordinate::new(x, y)
}

fn config(divisor: u64) -> Config {
    Config::new(divisor, 100, 1000).unwrap()
}

#[test]
fn config_rejects_zero_divisor() {
    assert_eq!(Config::new(0, 100, 1000), None);
    assert_eq!(
        Config::new(5, 7, 9),
        Some(Config { divisor: 5, step_limit: 7, idle_limit: 9 })
    );
}

#[test]
fn default_config_values() {
    let c = Config::default();
    assert_eq!(c.divisor, 10);
    assert_eq!(c.step_limit, 100);
    assert_eq!(c.idle_limit, 1000);
}

#[test]
fn neighbor_order_is_sides_then_diagonals() {
    let p = at(10, 20);
    let expected = [
        (9, 20),
        (11, 20),
        (10, 19),
        (10, 21),
        (9, 19),
        (9, 21),
        (11, 19),
        (11, 21),
    ];
    for k in 0..8 {
        assert_eq!(p.neighbor(k), at(expected[k].0, expected[k].1));
    }
}

#[test]
fn neighbors_wrap_at_the_edge_of_the_plane() {
    let p = at(i64::MAX, i64::MIN);
    assert_eq!(p.neighbor(1), at(i64::MIN, i64::MIN));
    assert_eq!(p.neighbor(2), at(i64::MAX, i64::MAX));
    assert_eq!(p.neighbor(7), at(i64::MIN, i64::MIN + 1));
    assert_eq!(p.neighbor(0), at(i64::MAX - 1, i64::MIN));
}

#[test]
fn hash_exact_values() {
    assert_eq!(cell_hash(at(0, 0)), 12804074314212919245);
    assert_eq!(cell_hash(at(1, 2)), 8031926490300119127);
    assert_eq!(cell_hash(at(-1, -1)), 8398221556230466369);
    assert_eq!(cell_hash(at(i64::MAX, i64::MIN)), 11740505882149479690);
    assert_eq!(cell_hash(at(3, -7)), 361615576147200974);
}

#[test]
fn hash_depends_on_both_axes() {
    assert_ne!(cell_hash(at(1, 2)), cell_hash(at(2, 1)));
    assert_ne!(cell_hash(at(1, 2)), cell_hash(at(1, 3)));
    assert_ne!(cell_hash(at(1, 2)), cell_hash(at(0, 2)));
}

#[test]
fn mines_near_the_origin_divisor_ten() {
    let cfg = config(10);
    let expected = [
        (-6, 4), (-5, 3), (-4, -6), (-4, -3), (-4, 1), (-4, 3), (-3, -5), (-2, -2), (-2, 5),
        (-1, -2), (-1, 1), (1, 0), (4, 0), (4, 2), (6, 6),
    ];
    let mut found = Vec::new();
    for x in -6..7 {
        for y in -6..7 {
            if is_bomb(&cfg, at(x, y)) {
                found.push((x, y));
            }
        }
    }
    assert_eq!(found, expected.to_vec());
}

#[test]
fn mines_near_the_origin_divisor_five() {
    let cfg = config(5);
    let expected = [
        (-2, -3), (-2, -2), (-1, -2), (-1, 1), (0, -3), (1, 0), (2, 3), (3, -2), (3, 0),
    ];
    let mut found = Vec::new();
    for x in -3..4 {
        for y in -3..4 {
            if is_bomb(&cfg, at(x, y)) {
                found.push((x, y));
            }
        }
    }
    assert_eq!(found, expected.to_vec());
}

#[test]
fn origin_is_never_a_mine() {
    for divisor in 1..50 {
        assert!(!is_bomb(&config(divisor), at(0, 0)));
    }
}

#[test]
fn divisor_one_leaves_the_plane_clear() {
    let cfg = config(1);
    for x in -10..10 {
        for y in -10..10 {
            assert!(!is_bomb(&cfg, at(x, y)));
            assert_eq!(neighbor_count(&cfg, at(x, y)), 0);
        }
    }
}

#[test]
fn density_is_about_one_in_ten() {
    let cfg = config(10);
    let mut mines = 0;
    for x in -20..21 {
        for y in -20..21 {
            if is_bomb(&cfg, at(x, y)) {
                mines += 1;
            }
        }
    }
    assert_eq!(mines, 156);
}

#[test]
fn neighbor_count_exact_values() {
    let cfg = config(10);
    assert_eq!(neighbor_count(&cfg, at(0, 0)), 2);
    assert_eq!(neighbor_count(&cfg, at(0, 1)), 2);
    assert_eq!(neighbor_count(&cfg, at(0, 2)), 1);
    assert_eq!(neighbor_count(&cfg, at(0, 3)), 0);
    assert_eq!(neighbor_count(&cfg, at(5, 5)), 1);
    assert_eq!(neighbor_count(&cfg, at(i64::MAX, i64::MIN)), 2);
    assert_eq!(neighbor_count(&config(5), at(0, 0)), 2);
}

#[test]
fn oracle_answers_do_not_change() {
    let cfg = config(10);
    for x in -8..8 {
        for y in -8..8 {
            let p = at(x, y);
            let first = (is_bomb(&cfg, p), neighbor_count(&cfg, p));
            assert_eq!(neighbor_count(&cfg, at(y, x)), neighbor_count(&cfg, at(y, x)));
            assert_eq!((is_bomb(&cfg, p), neighbor_count(&cfg, p)), first);
        }
    }
}

#[test]
fn neighbor_count_is_the_number_of_mined_neighbors() {
    for divisor in [2u64, 5, 10] {
        let cfg = config(divisor);
        for x in -12..12 {
            for y in -12..12 {
                let p = at(x, y);
                let mut n = 0u8;
                for k in 0..8 {
                    if is_bomb(&cfg, p.neighbor(k)) {
                        n += 1;
                    }
                }
                assert_eq!(neighbor_count(&cfg, p), n);
            }
        }
    }
}

#[test]
fn oracle_answers_ignore_the_board() {
    let cfg = config(10);
    let mut recorded = Vec::new();
    for x in -5..6 {
        for y in -5..6 {
            recorded.push((is_bomb(&cfg, at(x, y)), neighbor_count(&cfg, at(x, y))));
        }
    }
    let mut board = minefield::board::Board::new(cfg);
    board.reveal_at(at(0, 3));
    board.materialize(at(4, 4), false);
    let mut i = 0;
    for x in -5..6 {
        for y in -5..6 {
            assert_eq!((is_bomb(&cfg, at(x, y)), neighbor_count(&cfg, at(x, y))), recorded[i]);
            if let Some(c) = board.query(at(x, y)) {
                assert_eq!((c.is_bomb, c.neighbor_count), recorded[i]);
            }
            i += 1;
        }
    }
}
