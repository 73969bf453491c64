use minesweeper::field::{CellHandle, CellState, Mark};
use minesweeper::generate::lay_out;
use minesweeper::interactions::{update_cell_interaction, FieldInteraction, GameOutcome};

fn h(x: usize, y: usize) -> CellHandle {
    CellHandle::new(x, y)
}

#[test]
fn revealing_a_mine_loses() {
    let mut f = lay_out(3, 3, &vec![0]);
    assert_eq!(update_cell_interaction(&mut f, FieldInteraction::Reveal, h(0, 0)), GameOutcome::Lost);
    assert_eq!(*f.cell(h(0, 0)).get_state(), CellState::Revealed);
}

#[test]
fn revealing_a_zero_cell_cascades_and_wins() {
    let mut f = lay_out(3, 3, &vec![0]);
    assert_eq!(update_cell_interaction(&mut f, FieldInteraction::Reveal, h(2, 2)), GameOutcome::Won);
    assert_eq!(*f.cell(h(0, 0)).get_state(), CellState::Hidden);
    assert_eq!(f.hidden_count(), 1);
}

#[test]
fn revealing_a_numbered_cell_keeps_playing() {
    let mut f = lay_out(3, 3, &vec![0]);
    assert_eq!(update_cell_interaction(&mut f, FieldInteraction::Reveal, h(1, 1)), GameOutcome::Playing);
    assert_eq!(f.hidden_count(), 8);
    assert_eq!(update_cell_interaction(&mut f, FieldInteraction::Reveal, h(1, 1)), GameOutcome::Playing);
    assert_eq!(f.hidden_count(), 8);
}

#[test]
fn marking_through_interactions() {
    let mut f = lay_out(2, 2, &vec![0]);
    assert_eq!(update_cell_interaction(&mut f, FieldInteraction::ToggleMark, h(0, 0)), GameOutcome::Playing);
    assert_eq!(*f.cell(h(0, 0)).get_state(), CellState::Marked(Mark::Mine));
    assert_eq!(update_cell_interaction(&mut f, FieldInteraction::RevealAll, h(0, 0)), GameOutcome::Playing);
    assert_eq!(*f.cell(h(0, 0)).get_state(), CellState::Marked(Mark::Mine));
}
