use crate::controls::{alphanumeric, is_cell_edit_start_text, navigation_delta_for_key_code, KEY_DOWN_ARROW, KEY_LEFT_ARROW, KEY_RIGHT_ARROW, KEY_UP_ARROW};
use crate::panels::{same_chars, VisibleColumn};
use crate::selection::Cell;
use vstd::prelude::*;
use vstd::string::StrSliceExecFns;

verus! {

/// Key code of the return key.
pub const KEY_RETURN: u16 = 36;

/// Key code of the enter key of the keypad.
pub const KEY_KEYPAD_ENTER: u16 = 76;

/// Key code of the backspace key.
pub const KEY_BACKSPACE: u16 = 51;

/// Key code of the forward delete key.
pub const KEY_FORWARD_DELETE: u16 = 117;

/// A key press on the table: its code and the modifier keys held.
#[derive(Debug, Clone, Copy, PartialEq, Eq, Structural)]
pub struct KeyPress {
    pub key_code: u16,
    pub command: bool,
    pub shift: bool,
    pub control: bool,
    pub option: bool,
}

/// What a key press on the table does.
#[derive(Debug, Clone, Copy, PartialEq, Eq, Structural)]
pub enum KeyAction {
    /// Taken and ignored: a save is under way.
    Ignore,
    Copy,
    Find,
    Undo,
    Redo,
    /// Clear the texts of the selected cells.
    ClearSelection,
    /// Move (or extend) the selection.
    Navigate { rows: isize, columns: isize, extending: bool },
    /// Start editing the active cell.
    EditActiveCell,
    /// Start editing the active cell with the typed text.
    StartEditing,
    /// Not for the table.
    NotHandled,
}

/// The text is one letter, given in either case.
pub open spec fn is_letter(t: Seq<char>, lower: char, upper: char) -> bool {
    t == seq![lower] || t == seq![upper]
}

/// What a key press on the table does, given the characters it types with
/// and without its modifiers.
pub open spec fn key_action_spec(
    press: KeyPress,
    saving: bool,
    plain: Seq<char>,
    typed: Seq<char>,
) -> KeyAction {
    let other_modifier = press.command || press.control || press.option;
    if saving {
        KeyAction::Ignore
    } else if press.command && is_letter(plain, 'c', 'C') {
        KeyAction::Copy
    } else if press.command && is_letter(plain, 'f', 'F') {
        KeyAction::Find
    } else if press.command && is_letter(plain, 'z', 'Z') {
        if press.shift {
            KeyAction::Redo
        } else {
            KeyAction::Undo
        }
    } else if (press.key_code == KEY_BACKSPACE || press.key_code == KEY_FORWARD_DELETE)
        && !other_modifier {
        KeyAction::ClearSelection
    } else if press.key_code == KEY_UP_ARROW {
        KeyAction::Navigate { rows: -1isize, columns: 0isize, extending: press.shift }
    } else if press.key_code == KEY_DOWN_ARROW {
        KeyAction::Navigate { rows: 1isize, columns: 0isize, extending: press.shift }
    } else if press.key_code == KEY_LEFT_ARROW {
        KeyAction::Navigate { rows: 0isize, columns: -1isize, extending: press.shift }
    } else if press.key_code == KEY_RIGHT_ARROW {
        KeyAction::Navigate { rows: 0isize, columns: 1isize, extending: press.shift }
    } else if press.key_code == KEY_RETURN || press.key_code == KEY_KEYPAD_ENTER {
        KeyAction::EditActiveCell
    } else if other_modifier {
        KeyAction::NotHandled
    } else if typed.len() == 1 && alphanumeric(typed[0]) {
        KeyAction::StartEditing
    } else {
        KeyAction::NotHandled
    }
}

/// Whether a text is one given letter, in either case.
fn letter_is(text: &str, lower: char, upper: char) -> (r: bool)
    ensures
        r == is_letter(text@, lower, upper),
{
    if text.unicode_len() != 1 {
        return false;
    }
    let c = text.get_char(0);
    let r = c == lower || c == upper;
    proof {
        if c == lower {
            assert(text@ =~= seq![lower]);
        } else if c == upper {
            assert(text@ =~= seq![upper]);
        }
    }
    r
}

/// Decides what a key press on the table does: shortcuts for copy, find,
/// undo and redo; delete keys clear the selection; arrows move it (shift
/// extends it); return edits the active cell; typing a letter or digit
/// starts editing it.
pub fn table_key_action(press: KeyPress, saving: bool, plain: &str, typed: &str) -> (a: KeyAction)
    ensures
        a == key_action_spec(press, saving, plain@, typed@),
{
    let other_modifier = press.command || press.control || press.option;
    if saving {
        return KeyAction::Ignore;
    }
    if press.command && letter_is(plain, 'c', 'C') {
        return KeyAction::Copy;
    }
    if press.command && letter_is(plain, 'f', 'F') {
        return KeyAction::Find;
    }
    if press.command && letter_is(plain, 'z', 'Z') {
        return if press.shift {
            KeyAction::Redo
        } else {
            KeyAction::Undo
        };
    }
    if (press.key_code == KEY_BACKSPACE || press.key_code == KEY_FORWARD_DELETE) && !other_modifier {
        return KeyAction::ClearSelection;
    }
    match navigation_delta_for_key_code(press.key_code) {
        Some((rows, columns)) => {
            return KeyAction::Navigate { rows, columns, extending: press.shift };
        },
        None => {},
    }
    if press.key_code == KEY_RETURN || press.key_code == KEY_KEYPAD_ENTER {
        return KeyAction::EditActiveCell;
    }
    if other_modifier {
        return KeyAction::NotHandled;
    }
    if is_cell_edit_start_text(typed) {
        KeyAction::StartEditing
    } else {
        KeyAction::NotHandled
    }
}

/// Where a click or drag on the table landed.
#[derive(Debug, Clone, Copy, PartialEq, Eq, Structural)]
pub enum TableHit {
    RowNumber(usize),
    Data { cell: Cell, table_column: isize },
}

/// What a drag that started on the table is doing.
#[derive(Debug, Clone, Copy, PartialEq, Eq, Structural)]
pub enum DragSelection {
    Cells { anchor: Cell },
    Range { anchor: Cell, selected: bool },
    ToggleCells { selected: bool, last: Cell },
    Rows,
}

/// What a mouse press on the table does.
#[derive(Debug, Clone, Copy, PartialEq, Eq, Structural)]
pub enum MouseAction {
    /// Nothing: a save is under way, or the press missed the table.
    Nothing,
    /// Extend the row selection to this row.
    ExtendRows(usize),
    /// Select this row.
    SelectRow(usize),
    /// Select the cell and start editing it.
    EditCell { cell: Cell, table_column: isize },
    /// Toggle whether the cell is selected.
    ToggleCell(Cell),
    /// Select or deselect the range from the anchor to the cell.
    RangeToCell(Cell),
    /// Select the cell alone.
    SelectCell(Cell),
}

/// What a mouse press on the table does, and the drag it starts.
pub open spec fn mouse_down_spec(
    saving: bool,
    hit: Option<TableHit>,
    shift: bool,
    command: bool,
    click_count: isize,
) -> (MouseAction, Option<Option<DragSelection>>) {
    if saving {
        (MouseAction::Nothing, None)
    } else {
        match hit {
            None => (MouseAction::Nothing, None),
            Some(TableHit::RowNumber(row)) => (
                if shift {
                    MouseAction::ExtendRows(row)
                } else {
                    MouseAction::SelectRow(row)
                },
                Some(Some(DragSelection::Rows)),
            ),
            Some(TableHit::Data { cell, table_column }) => if click_count >= 2 {
                (MouseAction::EditCell { cell, table_column }, Some(None))
            } else if command {
                (MouseAction::ToggleCell(cell), None)
            } else if shift {
                (MouseAction::RangeToCell(cell), None)
            } else {
                (MouseAction::SelectCell(cell), Some(Some(DragSelection::Cells { anchor: cell })))
            },
        }
    }
}

/// Decides what a mouse press on the table does: on a row number it selects
/// (shift: extends to) the row and starts a row drag; on a cell a double
/// click edits it, command toggles it, shift selects the range to it, and a
/// plain click selects it and starts a cell drag. The second result is the
/// new drag state when the press sets one (toggle and range drags are set
/// by the caller, which knows whether the cell ends up selected).
pub fn table_mouse_down_action(
    saving: bool,
    hit: Option<TableHit>,
    shift: bool,
    command: bool,
    click_count: isize,
) -> (r: (MouseAction, Option<Option<DragSelection>>))
    ensures
        r == mouse_down_spec(saving, hit, shift, command, click_count),
{
    if saving {
        return (MouseAction::Nothing, None);
    }
    match hit {
        None => (MouseAction::Nothing, None),
        Some(TableHit::RowNumber(row)) => (
            if shift {
                MouseAction::ExtendRows(row)
            } else {
                MouseAction::SelectRow(row)
            },
            Some(Some(DragSelection::Rows)),
        ),
        Some(TableHit::Data { cell, table_column }) => if click_count >= 2 {
            (MouseAction::EditCell { cell, table_column }, Some(None))
        } else if command {
            (MouseAction::ToggleCell(cell), None)
        } else if shift {
            (MouseAction::RangeToCell(cell), None)
        } else {
            (MouseAction::SelectCell(cell), Some(Some(DragSelection::Cells { anchor: cell })))
        },
    }
}

/// What dragging over the table does.
#[derive(Debug, Clone, Copy, PartialEq, Eq, Structural)]
pub enum DragAction {
    Nothing,
    /// Extend the row selection to this row.
    ExtendRows(usize),
    /// Select the cells from the anchor to this cell.
    CellsFrom { anchor: Cell, cell: Cell },
    /// Set the range from the anchor to this cell selected or not.
    RangeFrom { anchor: Cell, cell: Cell, selected: bool },
    /// Set this cell selected or not (and remember it as the last one).
    SetCell { cell: Cell, selected: bool },
}

/// What dragging over the table does, given the drag under way.
pub open spec fn mouse_dragged_spec(saving: bool, drag: Option<DragSelection>, hit: Option<TableHit>) -> DragAction {
    if saving {
        DragAction::Nothing
    } else {
        match (drag, hit) {
            (Some(DragSelection::Rows), Some(TableHit::RowNumber(row))) => DragAction::ExtendRows(row),
            (Some(DragSelection::Rows), Some(TableHit::Data { cell, .. })) => DragAction::ExtendRows(
                cell.row,
            ),
            (Some(DragSelection::Cells { anchor }), Some(TableHit::Data { cell, .. })) => DragAction::CellsFrom {
                anchor,
                cell,
            },
            (Some(DragSelection::Range { anchor, selected }), Some(TableHit::Data { cell, .. })) => DragAction::RangeFrom {
                anchor,
                cell,
                selected,
            },
            (
                Some(DragSelection::ToggleCells { selected, last }),
                Some(TableHit::Data { cell, .. }),
            ) => if cell != last {
                DragAction::SetCell { cell, selected }
            } else {
                DragAction::Nothing
            },
            _ => DragAction::Nothing,
        }
    }
}

/// Decides what dragging over the table does: a row drag extends the rows,
/// a cell drag selects the rectangle from its anchor, a range drag sets the
/// range, and a toggle drag sets each new cell it enters.
pub fn table_mouse_dragged_action(saving: bool, drag: Option<DragSelection>, hit: Option<TableHit>) -> (a:
    DragAction)
    ensures
        a == mouse_dragged_spec(saving, drag, hit),
{
    if saving {
        return DragAction::Nothing;
    }
    match (drag, hit) {
        (Some(DragSelection::Rows), Some(TableHit::RowNumber(row))) => DragAction::ExtendRows(row),
        (Some(DragSelection::Rows), Some(TableHit::Data { cell, .. })) => DragAction::ExtendRows(
            cell.row,
        ),
        (Some(DragSelection::Cells { anchor }), Some(TableHit::Data { cell, .. })) => DragAction::CellsFrom {
            anchor,
            cell,
        },
        (Some(DragSelection::Range { anchor, selected }), Some(TableHit::Data { cell, .. })) => DragAction::RangeFrom {
            anchor,
            cell,
            selected,
        },
        (Some(DragSelection::ToggleCells { selected, last }), Some(TableHit::Data { cell, .. })) => {
            if cell != last {
                DragAction::SetCell { cell, selected }
            } else {
                DragAction::Nothing
            }
        },
        _ => DragAction::Nothing,
    }
}

/// The move a text-view navigation command asks for: rows, columns, and
/// whether it extends the selection.
pub open spec fn selector_delta(name: Seq<char>) -> Option<(isize, isize, bool)> {
    if name == "moveUp:"@ {
        Some((-1isize, 0isize, false))
    } else if name == "moveDown:"@ {
        Some((1isize, 0isize, false))
    } else if name == "moveLeft:"@ {
        Some((0isize, -1isize, false))
    } else if name == "moveRight:"@ {
        Some((0isize, 1isize, false))
    } else if name == "moveUpAndModifySelection:"@ {
        Some((-1isize, 0isize, true))
    } else if name == "moveDownAndModifySelection:"@ {
        Some((1isize, 0isize, true))
    } else if name == "moveLeftAndModifySelection:"@ {
        Some((0isize, -1isize, true))
    } else if name == "moveRightAndModifySelection:"@ {
        Some((0isize, 1isize, true))
    } else {
        None
    }
}

/// The move a navigation command (by its selector's name) asks for while a
/// cell is edited: the arrow moves, and with `AndModifySelection` the
/// extending ones.
pub fn navigation_delta_for_selector(name: &str) -> (r: Option<(isize, isize, bool)>)
    ensures
        r == selector_delta(name@),
{
    if same_chars(name, "moveUp:") {
        Some((-1, 0, false))
    } else if same_chars(name, "moveDown:") {
        Some((1, 0, false))
    } else if same_chars(name, "moveLeft:") {
        Some((0, -1, false))
    } else if same_chars(name, "moveRight:") {
        Some((0, 1, false))
    } else if same_chars(name, "moveUpAndModifySelection:") {
        Some((-1, 0, true))
    } else if same_chars(name, "moveDownAndModifySelection:") {
        Some((1, 0, true))
    } else if same_chars(name, "moveLeftAndModifySelection:") {
        Some((0, -1, true))
    } else if same_chars(name, "moveRightAndModifySelection:") {
        Some((0, 1, true))
    } else {
        None
    }
}

/// Where a point of the table landed, given the row and table column under
/// it (negative when none) and the column that table column shows.
pub open spec fn hit_at(row: isize, table_column: isize, column: Option<VisibleColumn>) -> Option<TableHit> {
    if row < 0 || table_column < 0 {
        None
    } else {
        match column {
            None => None,
            Some(VisibleColumn::RowNumber) => Some(TableHit::RowNumber(row as usize)),
            Some(VisibleColumn::Data(c)) => Some(
                TableHit::Data { cell: Cell { row: row as usize, column: c }, table_column },
            ),
        }
    }
}

/// Decides where a click landed: nothing off the rows or columns, the row
/// number of a row, or a data cell with its table column.
pub fn table_hit(row: isize, table_column: isize, column: Option<VisibleColumn>) -> (r: Option<TableHit>)
    ensures
        r == hit_at(row, table_column, column),
{
    if row < 0 || table_column < 0 {
        return None;
    }
    match column {
        None => None,
        Some(VisibleColumn::RowNumber) => Some(TableHit::RowNumber(row as usize)),
        Some(VisibleColumn::Data(c)) => Some(
            TableHit::Data { cell: Cell { row: row as usize, column: c }, table_column },
        ),
    }
}

} // verus!
