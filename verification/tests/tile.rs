use minefield::board::Cell;
use minefield::coord::Coordinate;
use minefield::tile::{Caption, Shade};

fn cell(is_bomb: bool, neighbor_count: u8, revealed: bool) -> Cell {
    Cell { pos: Coordinate::new(3, -4), is_bomb, neighbor_count, revealed }
}

#[test]
fn covered_cells_show_nothing() {
    for is_bomb in [false, true] {
        for n in 0..9 {
            assert_eq!(cell(is_bomb, n, false).shade(), Shade::Unknown);
            assert_eq!(cell(is_bomb, n, false).caption(), Caption::Blank);
            assert!(!cell(is_bomb, n, false).mine_mark());
        }
    }
}

#[test]
fn uncovered_mine_is_shaded_by_its_count() {
    assert_eq!(cell(true, 0, true).shade(), Shade::Safe);
    assert_eq!(cell(true, 3, true).shade(), Shade::Suspect);
    assert_eq!(cell(true, 0, true).caption(), Caption::Blank);
    assert_eq!(cell(true, 3, true).caption(), Caption::Count(3));
    assert!(cell(true, 3, true).mine_mark());
    assert!(!cell(false, 3, true).mine_mark());
}

#[test]
fn clicked_mine_is_marked() {
    for revealed in [false, true] {
        for n in 0..9 {
            assert_eq!(cell(true, n, revealed).clicked_shade(), Shade::Mine);
        }
        assert_eq!(cell(false, 0, revealed).clicked_shade(), Shade::Safe);
        assert_eq!(cell(false, 5, revealed).clicked_shade(), Shade::Suspect);
    }
}

#[test]
fn uncovered_clear_cell_is_safe_and_blank() {
    assert_eq!(cell(false, 0, true).shade(), Shade::Safe);
    assert_eq!(cell(false, 0, true).caption(), Caption::Blank);
}

#[test]
fn uncovered_numbered_cell_shows_its_count() {
    for n in 1..9 {
        assert_eq!(cell(false, n, true).shade(), Shade::Suspect);
        assert_eq!(cell(false, n, true).caption(), Caption::Count(n));
    }
}
