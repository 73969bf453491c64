use vstd::prelude::*;
use crate::field::{CellHandle, Field, RevealResult};
use crate::revealing::{cascade_result, Revealer, RevealerImpl};

verus! {

/// What the player can do to a cell.
#[derive(Debug, Clone, Copy, PartialEq, Eq, Structural)]
pub enum FieldInteraction {
    Reveal,
    ToggleMark,
    RevealAll,
}

/// Where a game stands after an interaction.
#[derive(Debug, Clone, Copy, PartialEq, Eq, Structural)]
pub enum GameOutcome {
    Playing,
    Lost,
    Won,
}

/// The outcome once the board reads `after` and the last reveal did or did
/// not hit a mine.
pub open spec fn outcome_of(after: Field, hit_mine: bool) -> GameOutcome {
    if hit_mine {
        GameOutcome::Lost
    } else if after.won() {
        GameOutcome::Won
    } else {
        GameOutcome::Playing
    }
}

/// `after` is `before` once `action` has been applied to `cell`.
pub open spec fn interaction_result(
    before: Field,
    after: Field,
    action: FieldInteraction,
    cell: CellHandle,
    r: GameOutcome,
) -> bool {
    match action {
        FieldInteraction::Reveal => exists|mid: Field, res: RevealResult|
            #[trigger] before.reveal_transition(&mid, cell, res) && (if res is Empty {
                cascade_result(mid, after, cell)
            } else {
                after == mid
            }) && r == outcome_of(after, res is Mine),
        FieldInteraction::ToggleMark => {
            &&& after.wf()
            &&& after.same_layout(&before)
            &&& after.same_except(&before, cell)
            &&& after.cell_at(cell).visibility() == crate::field::next_mark_state(
                before.cell_at(cell).visibility(),
            )
            &&& r == outcome_of(after, false)
        },
        FieldInteraction::RevealAll => after == before && r == outcome_of(after, false),
    }
}

/// Applies one interaction of the player: a reveal that finds a safe cell
/// opens the region around it, one that finds a mine loses the game; a mark
/// is toggled; the game is won once every safe cell is revealed.
pub fn update_cell_interaction(
    field: &mut Field,
    action: FieldInteraction,
    cell: CellHandle,
) -> (r: GameOutcome)
    requires
        old(field).wf(),
        old(field).contains(cell),
    ensures
        interaction_result(*old(field), *final(field), action, cell, r),
        final(field).wf(),
{
    let mut hit_mine = false;
    match action {
        FieldInteraction::Reveal => {
            let res = field.reveal_cell(cell);
            let ghost mid = *field;
            match res {
                RevealResult::Mine => {
                    hit_mine = true;
                },
                RevealResult::Empty(_) => {
                    RevealerImpl::reveal_area(field, cell);
                },
                RevealResult::AlreadyRevealed => {},
            }
            assert(old(field).reveal_transition(&mid, cell, res));
        },
        FieldInteraction::ToggleMark => {
            field.toggle_mark(cell);
        },
        FieldInteraction::RevealAll => {},
    }
    if hit_mine {
        GameOutcome::Lost
    } else if field.is_won() {
        GameOutcome::Won
    } else {
        GameOutcome::Playing
    }
}

} // verus!
