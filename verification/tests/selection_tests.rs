use editable::selection::{step_position, Cell, RectSelection, Selection};

#[test]
fn normalizes_rectangular_bounds() {
    let mut selection = RectSelection::new(Cell { row: 5, column: 4 });
    selection.extend_to(Cell { row: 1, column: 7 });
    assert_eq!(selection.bounds(), (1, 4, 5, 7));
}

#[test]
fn default_selection_is_the_first_cell() {
    let s = Selection::default();
    assert_eq!(s.active_cell(), Cell { row: 0, column: 0 });
}

#[test]
fn active_cell_of_each_selection() {
    let rect = RectSelection { anchor: Cell { row: 1, column: 1 }, focus: Cell { row: 3, column: 2 } };
    assert_eq!(Selection::Cell(rect).active_cell(), Cell { row: 3, column: 2 });
    assert_eq!(Selection::Row { anchor: 1, focus: 4 }.active_cell(), Cell { row: 4, column: 0 });
    assert_eq!(Selection::Column { anchor: 2, focus: 6 }.active_cell(), Cell { row: 0, column: 6 });
    assert_eq!(Selection::All.active_cell(), Cell { row: 0, column: 0 });
}

#[test]
fn moving_stays_inside_the_table() {
    let mut s = Selection::default();
    s.move_by(-3, -1, 10, 5);
    assert_eq!(s, Selection::Cell(RectSelection::new(Cell { row: 0, column: 0 })));
    s.move_by(25, 2, 10, 5);
    assert_eq!(s.active_cell(), Cell { row: 9, column: 2 });
    s.move_by(1, 100, 10, 5);
    assert_eq!(s.active_cell(), Cell { row: 9, column: 4 });
    s.move_by(isize::MAX, isize::MIN, 0, 0);
    assert_eq!(s.active_cell(), Cell { row: 0, column: 0 });
}

#[test]
fn extending_keeps_the_anchor() {
    let mut s = Selection::Cell(RectSelection::new(Cell { row: 2, column: 2 }));
    s.extend_by(2, -1, 10, 10);
    match s {
        Selection::Cell(rect) => {
            assert_eq!(rect.anchor, Cell { row: 2, column: 2 });
            assert_eq!(rect.focus, Cell { row: 4, column: 1 });
            assert_eq!(rect.bounds(), (2, 1, 4, 2));
        }
        _ => panic!("expected a cell selection"),
    }
    let mut rows = Selection::Row { anchor: 1, focus: 3 };
    rows.extend_by(1, 1, 10, 10);
    assert_eq!(rows, Selection::Cell(RectSelection::new(Cell { row: 4, column: 1 })));
}

#[test]
fn steps_saturate_then_clamp() {
    assert_eq!(step_position(5, -10, 20), 0);
    assert_eq!(step_position(5, 3, 20), 8);
    assert_eq!(step_position(usize::MAX, 1, usize::MAX), usize::MAX - 1);
    assert_eq!(step_position(7, 0, 0), 0);
}
