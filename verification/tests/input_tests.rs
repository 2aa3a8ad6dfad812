use editable::controls::{KEY_DOWN_ARROW, KEY_LEFT_ARROW, KEY_RIGHT_ARROW, KEY_UP_ARROW};
use editable::input::{
    navigation_delta_for_selector, table_hit, table_key_action, table_mouse_down_action, table_mouse_dragged_action, DragAction,
    DragSelection, KeyAction, KeyPress, MouseAction, TableHit, KEY_BACKSPACE, KEY_FORWARD_DELETE,
    KEY_KEYPAD_ENTER, KEY_RETURN,
};
use editable::panels::VisibleColumn;
use editable::selection::Cell;

fn press(key_code: u16) -> KeyPress {
    KeyPress { key_code, command: false, shift: false, control: false, option: false }
}

fn command(key_code: u16) -> KeyPress {
    KeyPress { key_code, command: true, shift: false, control: false, option: false }
}

#[test]
fn saving_ignores_every_key() {
    assert_eq!(table_key_action(command(8), true, "c", "c"), KeyAction::Ignore);
    assert_eq!(table_key_action(press(0), true, "a", "a"), KeyAction::Ignore);
}

#[test]
fn command_shortcuts() {
    assert_eq!(table_key_action(command(8), false, "c", "c"), KeyAction::Copy);
    assert_eq!(table_key_action(command(8), false, "C", "C"), KeyAction::Copy);
    assert_eq!(table_key_action(command(3), false, "f", "f"), KeyAction::Find);
    assert_eq!(table_key_action(command(6), false, "z", "z"), KeyAction::Undo);
    let mut redo = command(6);
    redo.shift = true;
    assert_eq!(table_key_action(redo, false, "Z", "Z"), KeyAction::Redo);
    // Command with another letter is not for the table.
    assert_eq!(table_key_action(command(0), false, "a", "a"), KeyAction::NotHandled);
}

#[test]
fn delete_keys_clear_unless_a_modifier_is_held() {
    assert_eq!(table_key_action(press(KEY_BACKSPACE), false, "", ""), KeyAction::ClearSelection);
    assert_eq!(
        table_key_action(press(KEY_FORWARD_DELETE), false, "", ""),
        KeyAction::ClearSelection
    );
    let mut with_option = press(KEY_BACKSPACE);
    with_option.option = true;
    assert_eq!(table_key_action(with_option, false, "", ""), KeyAction::NotHandled);
}

#[test]
fn arrows_navigate_and_shift_extends() {
    assert_eq!(
        table_key_action(press(KEY_UP_ARROW), false, "", ""),
        KeyAction::Navigate { rows: -1, columns: 0, extending: false }
    );
    assert_eq!(
        table_key_action(press(KEY_DOWN_ARROW), false, "", ""),
        KeyAction::Navigate { rows: 1, columns: 0, extending: false }
    );
    assert_eq!(
        table_key_action(press(KEY_LEFT_ARROW), false, "", ""),
        KeyAction::Navigate { rows: 0, columns: -1, extending: false }
    );
    let mut right = press(KEY_RIGHT_ARROW);
    right.shift = true;
    assert_eq!(
        table_key_action(right, false, "", ""),
        KeyAction::Navigate { rows: 0, columns: 1, extending: true }
    );
}

#[test]
fn return_edits_and_letters_start_editing() {
    assert_eq!(table_key_action(press(KEY_RETURN), false, "\r", "\r"), KeyAction::EditActiveCell);
    assert_eq!(table_key_action(press(KEY_KEYPAD_ENTER), false, "\u{3}", "\u{3}"), KeyAction::EditActiveCell);
    assert_eq!(table_key_action(press(0), false, "a", "a"), KeyAction::StartEditing);
    assert_eq!(table_key_action(press(18), false, "1", "1"), KeyAction::StartEditing);
    assert_eq!(table_key_action(press(49), false, " ", " "), KeyAction::NotHandled);
    assert_eq!(table_key_action(press(0), false, "ab", "ab"), KeyAction::NotHandled);
    let mut control = press(0);
    control.control = true;
    assert_eq!(table_key_action(control, false, "a", "a"), KeyAction::NotHandled);
}

#[test]
fn mouse_down_on_row_numbers_and_cells() {
    let cell = Cell { row: 2, column: 3 };
    let data = Some(TableHit::Data { cell, table_column: 4 });
    assert_eq!(table_mouse_down_action(true, data, false, false, 1), (MouseAction::Nothing, None));
    assert_eq!(table_mouse_down_action(false, None, false, false, 1), (MouseAction::Nothing, None));
    assert_eq!(
        table_mouse_down_action(false, Some(TableHit::RowNumber(5)), false, false, 1),
        (MouseAction::SelectRow(5), Some(Some(DragSelection::Rows)))
    );
    assert_eq!(
        table_mouse_down_action(false, Some(TableHit::RowNumber(5)), true, false, 1),
        (MouseAction::ExtendRows(5), Some(Some(DragSelection::Rows)))
    );
    assert_eq!(
        table_mouse_down_action(false, data, false, false, 2),
        (MouseAction::EditCell { cell, table_column: 4 }, Some(None))
    );
    assert_eq!(table_mouse_down_action(false, data, false, true, 1), (MouseAction::ToggleCell(cell), None));
    assert_eq!(table_mouse_down_action(false, data, true, false, 1), (MouseAction::RangeToCell(cell), None));
    assert_eq!(
        table_mouse_down_action(false, data, false, false, 1),
        (MouseAction::SelectCell(cell), Some(Some(DragSelection::Cells { anchor: cell })))
    );
}

#[test]
fn dragging_follows_the_drag_under_way() {
    let anchor = Cell { row: 0, column: 0 };
    let cell = Cell { row: 4, column: 1 };
    let data = Some(TableHit::Data { cell, table_column: 2 });
    assert_eq!(table_mouse_dragged_action(true, Some(DragSelection::Rows), data), DragAction::Nothing);
    assert_eq!(table_mouse_dragged_action(false, None, data), DragAction::Nothing);
    assert_eq!(
        table_mouse_dragged_action(false, Some(DragSelection::Rows), Some(TableHit::RowNumber(7))),
        DragAction::ExtendRows(7)
    );
    assert_eq!(table_mouse_dragged_action(false, Some(DragSelection::Rows), data), DragAction::ExtendRows(4));
    assert_eq!(
        table_mouse_dragged_action(false, Some(DragSelection::Cells { anchor }), data),
        DragAction::CellsFrom { anchor, cell }
    );
    assert_eq!(
        table_mouse_dragged_action(false, Some(DragSelection::Range { anchor, selected: false }), data),
        DragAction::RangeFrom { anchor, cell, selected: false }
    );
    assert_eq!(
        table_mouse_dragged_action(
            false,
            Some(DragSelection::ToggleCells { selected: true, last: anchor }),
            data
        ),
        DragAction::SetCell { cell, selected: true }
    );
    assert_eq!(
        table_mouse_dragged_action(
            false,
            Some(DragSelection::ToggleCells { selected: true, last: cell }),
            data
        ),
        DragAction::Nothing
    );
    assert_eq!(
        table_mouse_dragged_action(false, Some(DragSelection::Cells { anchor }), Some(TableHit::RowNumber(1))),
        DragAction::Nothing
    );
}

#[test]
fn navigation_commands_while_editing() {
    assert_eq!(navigation_delta_for_selector("moveUp:"), Some((-1, 0, false)));
    assert_eq!(navigation_delta_for_selector("moveRight:"), Some((0, 1, false)));
    assert_eq!(navigation_delta_for_selector("moveLeftAndModifySelection:"), Some((0, -1, true)));
    assert_eq!(navigation_delta_for_selector("moveDownAndModifySelection:"), Some((1, 0, true)));
    assert_eq!(navigation_delta_for_selector("insertNewline:"), None);
    assert_eq!(navigation_delta_for_selector("moveUp"), None);
}

#[test]
fn hits_on_the_table() {
    assert_eq!(table_hit(-1, 2, Some(VisibleColumn::Data(1))), None);
    assert_eq!(table_hit(3, -1, Some(VisibleColumn::Data(1))), None);
    assert_eq!(table_hit(3, 2, None), None);
    assert_eq!(table_hit(3, 0, Some(VisibleColumn::RowNumber)), Some(TableHit::RowNumber(3)));
    assert_eq!(
        table_hit(3, 2, Some(VisibleColumn::Data(1))),
        Some(TableHit::Data { cell: Cell { row: 3, column: 1 }, table_column: 2 })
    );
}
