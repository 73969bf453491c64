use minesweeper::field::{CellHandle, CellState, Field, RevealResult};
use minesweeper::generate::{lay_out, DefaultFieldGenerator, FieldGenerationOptions};
use minesweeper::revealing::{Revealer, RevealerImpl};

fn h(x: usize, y: usize) -> CellHandle {
    CellHandle::new(x, y)
}

fn revealed(f: &Field) -> Vec<CellHandle> {
    f.get_handles().into_iter().filter(|&c| *f.cell(c).get_state() == CellState::Revealed).collect()
}

fn run_scenario(mut f: Field) {
    assert!(f.cell(h(0, 0)).is_mine);
    assert_eq!(f.reveal_cell(h(2, 2)), RevealResult::Empty(0));
    RevealerImpl::reveal_area(&mut f, h(2, 2));
    for c in f.get_handles() {
        if c == h(0, 0) {
            assert_eq!(*f.cell(c).get_state(), CellState::Hidden);
        } else {
            assert_eq!(*f.cell(c).get_state(), CellState::Revealed);
        }
    }
    assert!(f.is_won());
    assert_eq!(f.hidden_count(), 1);
}

#[test]
fn cascade_scenario_with_laid_out_mine() {
    run_scenario(lay_out(3, 3, &vec![0]));
}

#[test]
fn cascade_scenario_with_seeded_generation() {
    let mut found = false;
    for seed in 0..1000u64 {
        let options = FieldGenerationOptions { width: 3, height: 3, mine_count: 1, seed };
        let f = DefaultFieldGenerator::generate(Some(options)).unwrap();
        if f.cell(h(0, 0)).is_mine {
            run_scenario(f);
            found = true;
            break;
        }
    }
    assert!(found);
}

#[test]
fn cascade_stops_next_to_a_mine() {
    let mut f = lay_out(3, 3, &vec![0]);
    assert_eq!(f.reveal_cell(h(1, 1)), RevealResult::Empty(1));
    RevealerImpl::reveal_area(&mut f, h(1, 1));
    assert_eq!(revealed(&f), vec![h(1, 1)]);
}

#[test]
fn cascade_opens_only_the_zero_region() {
    // 5 wide, 1 high: mine in the middle, cascade from the left end
    let mut f = lay_out(5, 1, &vec![2]);
    assert_eq!(f.reveal_cell(h(0, 0)), RevealResult::Empty(0));
    RevealerImpl::reveal_area(&mut f, h(0, 0));
    assert_eq!(revealed(&f), vec![h(0, 0), h(1, 0)]);
    assert_eq!(*f.cell(h(3, 0)).get_state(), CellState::Hidden);
    assert_eq!(f.hidden_count(), 3);
    assert!(!f.is_won());
}

#[test]
fn cascade_on_empty_board_reveals_everything() {
    let mut f = lay_out(6, 5, &vec![]);
    f.toggle_mark(h(5, 4));
    assert_eq!(f.reveal_cell(h(3, 2)), RevealResult::Empty(0));
    RevealerImpl::reveal_area(&mut f, h(3, 2));
    assert_eq!(revealed(&f).len(), 30);
    assert!(f.is_won());
    assert_eq!(f.hidden_count(), 0);
    for c in f.get_handles() {
        assert!(f.cell(c).is_dirty);
    }
}

#[test]
fn cascade_keeps_revealed_cells_and_never_opens_mines() {
    // 4x4, mines at (3,0) and (3,3)
    let mut f = lay_out(4, 4, &vec![12, 15]);
    f.reveal_cell(h(3, 1));
    let before = revealed(&f);
    assert_eq!(f.reveal_cell(h(0, 0)), RevealResult::Empty(0));
    RevealerImpl::reveal_area(&mut f, h(0, 0));
    let after = revealed(&f);
    for c in before {
        assert!(after.contains(&c));
    }
    assert_eq!(*f.cell(h(3, 0)).get_state(), CellState::Hidden);
    assert_eq!(*f.cell(h(3, 3)).get_state(), CellState::Hidden);
    // (3, 2) touches no cell without adjacent mines, so it stays hidden
    assert_eq!(*f.cell(h(3, 2)).get_state(), CellState::Hidden);
    assert_eq!(after.len(), 13);
    assert!(!f.is_won());
}

#[test]
fn cascade_result_does_not_depend_on_prior_marks() {
    let mut a = lay_out(4, 3, &vec![11]);
    let mut b = lay_out(4, 3, &vec![11]);
    b.toggle_mark(h(1, 1));
    b.toggle_mark(h(2, 0));
    b.toggle_mark(h(2, 0));
    a.reveal_cell(h(0, 0));
    b.reveal_cell(h(0, 0));
    RevealerImpl::reveal_area(&mut a, h(0, 0));
    RevealerImpl::reveal_area(&mut b, h(0, 0));
    assert_eq!(revealed(&a), revealed(&b));
}
