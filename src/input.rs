//! What a key press or a click asks of the configuration.
use vstd::prelude::*;

verus! {

#[derive(Clone, Copy, Debug, PartialEq, Eq, Structural)]
pub enum Action {
    /// Place a node at (column, row) of the grid.
    AddPathNode(u16, u16),
    /// Reset the field and render it.
    Start,
    Exit,
    Nothing,
}

/// A click lands on the grid when its column is inside the grid and its row
/// is one of the grid's rows at the bottom of the terminal, the terminal's
/// last row excepted.
pub open spec fn click_on_grid(column: int, row: int, bounds: (u16, u16), terminal_rows: int) -> bool {
    column < bounds.0 && terminal_rows <= row + bounds.1 && row + 1 < terminal_rows
}

/// The action for a mouse button pressed at terminal cell (`column`, `row`),
/// for a grid of `bounds.0` columns and `bounds.1` rows drawn at the bottom
/// of a terminal `terminal_rows` rows tall.
pub fn mouse_down_action(column: u16, row: u16, bounds: (u16, u16), terminal_rows: u16) -> (r: Action)
    ensures
        click_on_grid(column as int, row as int, bounds, terminal_rows as int) ==> r == Action::AddPathNode(
            column,
            (row + bounds.1 - terminal_rows) as u16,
        ),
        !click_on_grid(column as int, row as int, bounds, terminal_rows as int) ==> r == Action::Nothing,
        r is AddPathNode ==> r->AddPathNode_0 < bounds.0 && r->AddPathNode_1 < bounds.1,
{
    let shifted = row as u32 + bounds.1 as u32;
    if column < bounds.0 && terminal_rows as u32 <= shifted && (row as u32) + 1 < terminal_rows as u32 {
        Action::AddPathNode(column, (shifted - terminal_rows as u32) as u16)
    } else {
        Action::Nothing
    }
}

/// The action for a key press: `s` starts rendering, control-`c` exits.
pub fn key_press_action(key: char, control: bool) -> (r: Action)
    ensures
        key == 's' ==> r == Action::Start,
        key == 'c' && control ==> r == Action::Exit,
        key != 's' && !(key == 'c' && control) ==> r == Action::Nothing,
{
    if key == 's' {
        Action::Start
    } else if key == 'c' && control {
        Action::Exit
    } else {
        Action::Nothing
    }
}

} // verus!
