use minesweeper::field::{Cell, CellHandle, CellState, Field, Mark, RevealResult};
use minesweeper::generate::lay_out;

fn h(x: usize, y: usize) -> CellHandle {
    CellHandle::new(x, y)
}

fn recount_unrevealed(f: &Field) -> usize {
    f.get_handles()
        .into_iter()
        .filter(|&c| *f.cell(c).get_state() != CellState::Revealed)
        .count()
}

fn brute_force_adjacent(f: &Field, c: CellHandle) -> usize {
    let mut n = 0;
    for x in 0..f.width {
        for y in 0..f.height {
            let dx = (x as i64 - c.x as i64).abs();
            let dy = (y as i64 - c.y as i64).abs();
            if (dx, dy) != (0, 0) && dx <= 1 && dy <= 1 && f.cell(h(x, y)).is_mine {
                n += 1;
            }
        }
    }
    n
}

#[test]
fn handle_new_and_default() {
    let c = CellHandle::new(3, 4);
    assert_eq!((c.x, c.y), (3, 4));
    let d = CellHandle::default();
    assert_eq!(d, CellHandle::new(0, 0));
    assert_ne!(c, d);
}

#[test]
fn cell_new_is_hidden_and_clean() {
    let c = Cell::new();
    assert_eq!(*c.get_state(), CellState::Hidden);
    assert!(!c.is_mine);
    assert!(!c.is_dirty);
    let d = Cell::default();
    assert_eq!(*d.get_state(), CellState::Hidden);
}

#[test]
fn cell_set_state_marks_changed() {
    let mut c = Cell::new();
    c.set_state(CellState::Marked(Mark::Mine));
    assert_eq!(*c.get_state(), CellState::Marked(Mark::Mine));
    assert!(c.is_dirty);
}

#[test]
fn new_field_counts_hidden_cells() {
    let mut cells = vec![Cell::new(); 6];
    cells[1].set_mine(true);
    cells[2].set_state(CellState::Revealed);
    let f = Field::new(2, 3, cells);
    // every unrevealed cell counts, the mine included
    assert_eq!(f.hidden_count(), 5);
    assert_eq!(f.hidden_count(), recount_unrevealed(&f));
    assert!(f.cell(h(0, 1)).is_mine);
    assert_eq!(*f.cell(h(0, 2)).get_state(), CellState::Revealed);
}

#[test]
fn neighbors_are_clipped_at_edges() {
    let f = lay_out(4, 3, &vec![]);
    assert_eq!(f.get_neighbors(h(0, 0)).len(), 3);
    assert_eq!(f.get_neighbors(h(3, 2)).len(), 3);
    assert_eq!(f.get_neighbors(h(1, 0)).len(), 5);
    let inner = f.get_neighbors(h(1, 1));
    assert_eq!(inner.len(), 8);
    assert!(!inner.contains(&h(1, 1)));
    for c in inner {
        assert!(c.x <= 2 && c.y <= 2);
    }
    let single = lay_out(1, 1, &vec![]);
    assert!(single.get_neighbors(h(0, 0)).is_empty());
}

#[test]
fn handles_cover_the_board_once() {
    let f = lay_out(3, 5, &vec![]);
    let all = f.get_handles();
    assert_eq!(all.len(), 15);
    for x in 0..3 {
        for y in 0..5 {
            assert_eq!(all.iter().filter(|&&c| c == h(x, y)).count(), 1);
        }
    }
}

#[test]
fn adjacent_mines_match_a_scan_and_are_stable() {
    // mines at (0,0), (1,1), (2,0) on a 3x3 board (index x * 3 + y)
    let mut f = lay_out(3, 3, &vec![0, 4, 6]);
    for c in f.get_handles() {
        let first = f.get_adjacent_mines(c);
        let second = f.get_adjacent_mines(c);
        assert_eq!(first, second);
        assert_eq!(first, brute_force_adjacent(&f, c));
    }
    assert_eq!(f.get_adjacent_mines(h(1, 0)), 3);
    assert_eq!(f.get_adjacent_mines(h(0, 2)), 1);
    assert_eq!(f.get_adjacent_mines(h(1, 1)), 2);
}

#[test]
fn try_reveal_does_not_change_the_board() {
    let f = lay_out(3, 3, &vec![0]);
    assert_eq!(f.try_reveal(h(0, 0)), RevealResult::Mine);
    assert_eq!(f.try_reveal(h(1, 1)), RevealResult::Empty(1));
    assert_eq!(f.try_reveal(h(2, 2)), RevealResult::Empty(0));
    assert_eq!(f.hidden_count(), 9);
    for c in f.get_handles() {
        assert_eq!(*f.cell(c).get_state(), CellState::Hidden);
        assert!(!f.cell(c).is_dirty);
    }
}

#[test]
fn reveal_twice_is_idempotent() {
    let mut f = lay_out(3, 3, &vec![0]);
    assert_eq!(f.reveal_cell(h(1, 1)), RevealResult::Empty(1));
    assert_eq!(f.hidden_count(), 8);
    let states: Vec<CellState> = f.get_handles().iter().map(|&c| *f.cell(c).get_state()).collect();
    assert_eq!(f.reveal_cell(h(1, 1)), RevealResult::AlreadyRevealed);
    let again: Vec<CellState> = f.get_handles().iter().map(|&c| *f.cell(c).get_state()).collect();
    assert_eq!(states, again);
    assert_eq!(f.hidden_count(), 8);
}

#[test]
fn revealing_a_mine_exposes_it() {
    let mut f = lay_out(2, 2, &vec![3]);
    assert_eq!(f.reveal_cell(h(1, 1)), RevealResult::Mine);
    assert_eq!(*f.cell(h(1, 1)).get_state(), CellState::Revealed);
    assert!(f.cell(h(1, 1)).is_dirty);
    // revealing a mine leaves the tracked count as it was
    assert_eq!(f.hidden_count(), 4);
    assert!(!f.is_won());
}

#[test]
fn revealing_a_marked_cell_clears_the_mark() {
    let mut f = lay_out(2, 2, &vec![3]);
    f.toggle_mark(h(0, 0));
    assert_eq!(*f.cell(h(0, 0)).get_state(), CellState::Marked(Mark::Mine));
    assert_eq!(f.reveal_cell(h(0, 0)), RevealResult::Empty(1));
    assert_eq!(*f.cell(h(0, 0)).get_state(), CellState::Revealed);
    assert_eq!(f.hidden_count(), 3);
}

#[test]
fn marking_cycle() {
    let mut f = lay_out(2, 2, &vec![0]);
    let c = h(1, 0);
    f.toggle_mark(c);
    assert_eq!(*f.cell(c).get_state(), CellState::Marked(Mark::Mine));
    assert!(f.cell(c).is_dirty);
    f.toggle_mark(c);
    assert_eq!(*f.cell(c).get_state(), CellState::Marked(Mark::Empty));
    f.toggle_mark(c);
    assert_eq!(*f.cell(c).get_state(), CellState::Hidden);
    assert_eq!(f.hidden_count(), 4);

    let r = h(1, 1);
    f.reveal_cell(r);
    f.clear_changed(r);
    f.toggle_mark(r);
    assert_eq!(*f.cell(r).get_state(), CellState::Revealed);
    assert!(!f.cell(r).is_dirty);
}

#[test]
fn clear_changed_resets_the_flag() {
    let mut f = lay_out(2, 1, &vec![]);
    f.reveal_cell(h(0, 0));
    assert!(f.cell(h(0, 0)).is_dirty);
    f.clear_changed(h(0, 0));
    assert!(!f.cell(h(0, 0)).is_dirty);
    assert_eq!(*f.cell(h(0, 0)).get_state(), CellState::Revealed);
}

#[test]
fn hidden_count_matches_recount_after_each_operation() {
    let mut f = lay_out(4, 4, &vec![1, 6, 11]);
    assert_eq!(f.hidden_count(), 16);
    let ops: Vec<(bool, CellHandle)> = vec![
        (true, h(0, 0)),
        (false, h(3, 3)),
        (true, h(3, 3)),
        (false, h(0, 1)),
        (true, h(0, 0)),
        (false, h(2, 2)),
        (false, h(2, 2)),
        (true, h(2, 0)),
        (false, h(2, 1)),
        (true, h(2, 1)),
    ];
    for (reveal, c) in ops {
        if reveal {
            f.reveal_cell(c);
        } else {
            f.toggle_mark(c);
        }
        assert_eq!(f.hidden_count(), recount_unrevealed(&f));
    }
}

#[test]
fn won_after_revealing_all_safe_cells_in_any_order() {
    let mines = vec![2, 5];
    for order in [vec![0, 1, 3, 4], vec![4, 3, 1, 0], vec![3, 0, 4, 1]] {
        let mut f = lay_out(2, 3, &mines);
        assert!(!f.is_won());
        for i in order {
            assert!(!f.is_won());
            let r = f.reveal_cell(h(i / 3, i % 3));
            assert!(matches!(r, RevealResult::Empty(_)));
        }
        assert!(f.is_won());
        assert_eq!(f.hidden_count(), 2);
    }
}

#[test]
fn won_with_marks_toggled_in_between() {
    let mut f = lay_out(2, 2, &vec![0]);
    f.toggle_mark(h(0, 0));
    f.reveal_cell(h(1, 1));
    f.toggle_mark(h(0, 1));
    f.toggle_mark(h(1, 1));
    f.reveal_cell(h(0, 1));
    assert!(!f.is_won());
    f.reveal_cell(h(1, 0));
    assert!(f.is_won());
    assert_eq!(*f.cell(h(0, 0)).get_state(), CellState::Marked(Mark::Mine));
}

#[test]
fn width_and_height_getters() {
    let f = lay_out(4, 3, &vec![]);
    assert_eq!((f.width(), f.height()), (4, 3));
    assert_eq!((f.width, f.height), (4, 3));
}

#[test]
fn board_without_mines_is_won_only_when_all_revealed() {
    let mut f = lay_out(1, 2, &vec![]);
    assert!(!f.is_won());
    f.reveal_cell(h(0, 0));
    assert!(!f.is_won());
    f.reveal_cell(h(0, 1));
    assert!(f.is_won());
}

#[test]
fn handle_to_string() {
    assert_eq!(CellHandle::new(3, 14).to_string(), "3,14");
    assert_eq!(CellHandle::new(0, 0).to_string(), "0,0");
    assert_eq!(CellHandle::new(120, 7).to_string(), "120,7");
}
