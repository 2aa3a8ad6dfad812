use editable::rules::{FilterOperator, FilterRule, SortDirection, SortKey};
use editable::selection::{Cell, RectSelection, Selection};
use editable::state::{title_for, EditableState};
use editable::stats::SelectionStat;
use editable::{CsvDocument, CsvError, OpenOptions};

fn numbers(text: &str) -> Option<u64> {
    text.parse::<f64>().ok().map(f64::to_bits)
}

fn state_with(bytes: &[u8]) -> EditableState {
    let mut state = EditableState::default();
    state.document = Some(CsvDocument::from_bytes(bytes.to_vec(), OpenOptions::default()).unwrap());
    state
}

fn cell(state: &EditableState, row: usize, column: usize) -> Option<String> {
    state.document.as_ref().unwrap().cell(row, column)
}

#[test]
fn empty_state_texts() {
    let state = EditableState::default();
    assert_eq!(state.status_text(), "Open a CSV file to start editing.");
    assert_eq!(state.preview_grid_text(5, 5), "Open a CSV file to start editing.");
    assert_eq!(state.title(), "Editable");
    assert_eq!(state.column_title(27), "AB");
    assert!(!state.can_undo());
    assert!(!state.can_redo());
}

#[test]
fn status_and_preview() {
    let mut state = state_with(b"name,age\nAda,36\nGrace,85\n");
    assert_eq!(state.status_text(), "2 rows x 2 columns");
    state.select_cell(1, 1);
    state.set_cell("86").unwrap();
    assert_eq!(
        state.status_text(),
        "2 rows x 2 columns - edited: 1 cells, +0 rows, -0 rows, +0 columns, -0 columns"
    );
    let preview = state.preview_grid_text(1, 1);
    let expected = format!(
        "{:18}\n{}\n{:18}\n\n2 rows x 2 columns - edited",
        "name",
        "-".repeat(21),
        "Ada"
    );
    assert_eq!(preview, expected);
    assert_eq!(state.column_title(0), "name");
    assert_eq!(state.column_title(5), "F");
}

#[test]
fn preview_flattens_line_breaks() {
    let state = state_with(b"a\n\"x\ny\"\n");
    let preview = state.preview_grid_text(10, 10);
    assert!(preview.contains("x y"));
}

#[test]
fn titles() {
    assert_eq!(title_for(Some("data.csv")), "data.csv - Editable");
    assert_eq!(title_for(None), "Editable");
    let mut state = EditableState::default();
    state.document = Some(
        CsvDocument::from_source(Some("/tmp/data.csv".to_string()), b"a\n1\n".to_vec(), OpenOptions::default())
            .unwrap(),
    );
    assert_eq!(state.title(), "data.csv - Editable");
    state.document = Some(
        CsvDocument::from_source(Some("people.csv".to_string()), b"a\n1\n".to_vec(), OpenOptions::default())
            .unwrap(),
    );
    assert_eq!(state.title(), "people.csv - Editable");
    for (path, title) in [("dir/sub/file.csv", "file.csv - Editable"), ("/a//b.csv", "b.csv - Editable")] {
        state.document = Some(
            CsvDocument::from_source(Some(path.to_string()), b"a\n1\n".to_vec(), OpenOptions::default())
                .unwrap(),
        );
        assert_eq!(state.title(), title);
    }
}

#[test]
fn inserting_before_the_active_row_and_column() {
    let mut state = state_with(b"a,b\n1,2\n3,4\n");
    state.select_cell(1, 1);
    state.insert_row().unwrap();
    assert_eq!(cell(&state, 0, 0), Some("1".to_string()));
    assert_eq!(cell(&state, 1, 0), Some("3".to_string()));
    assert_eq!(cell(&state, 2, 0), Some(String::new()));
    state.insert_column().unwrap();
    assert_eq!(cell(&state, 0, 0), Some("1".to_string()));
    assert_eq!(cell(&state, 0, 1), Some(String::new()));
    assert_eq!(cell(&state, 0, 2), Some("2".to_string()));
}

#[test]
fn failed_change_is_rolled_back_and_clears_the_error() {
    let mut state = state_with(b"a,b\n1,2\n");
    state.last_error = Some("old".to_string());
    state.select_cell(5, 0);
    let before = state.begin_undoable();
    let outcome = state.set_cell("x");
    assert!(state.finish_undoable(before, outcome).is_err());
    assert_eq!(state.last_error, None);
    assert!(!state.can_undo());
}

#[test]
fn skipping_every_row_without_a_header_opens() {
    let options = OpenOptions { first_row_is_header: false, skip_rows: usize::MAX, delimiter: None };
    let doc = CsvDocument::from_bytes(b"a\n1\n".to_vec(), options).unwrap();
    assert_eq!(doc.row_count(), 0);
}

#[test]
fn undo_and_redo_a_cell_edit() {
    let mut state = state_with(b"a,b\n1,2\n");
    state.select_cell(0, 1);
    let before = state.begin_undoable();
    let outcome = state.set_cell("20");
    state.finish_undoable(before, outcome).unwrap();
    assert_eq!(cell(&state, 0, 1).unwrap(), "20");
    assert!(state.can_undo());

    assert!(state.undo());
    assert_eq!(cell(&state, 0, 1).unwrap(), "2");
    assert!(!state.document.as_ref().unwrap().is_dirty());
    assert!(state.can_redo());

    assert!(state.redo());
    assert_eq!(cell(&state, 0, 1).unwrap(), "20");
    assert!(state.document.as_ref().unwrap().is_dirty());
    assert!(!state.redo());
}

#[test]
fn failed_change_is_rolled_back_and_not_recorded() {
    let mut state = state_with(b"a,b\n1,2\n");
    state.select_cell(0, 9);
    let before = state.begin_undoable();
    let outcome = state.set_cell("x");
    let result = state.finish_undoable(before, outcome);
    assert!(matches!(result, Err(CsvError::InvalidColumn { column: 9 })));
    assert!(!state.can_undo());
}

#[test]
fn unchanged_state_is_not_recorded() {
    let mut state = state_with(b"a,b\n1,2\n");
    let before = state.begin_undoable();
    state.finish_undoable(before, Ok(())).unwrap();
    assert!(!state.can_undo());
}

#[test]
fn undo_history_keeps_the_last_ten() {
    let mut state = state_with(b"a\n0\n");
    for i in 0..12 {
        let before = state.begin_undoable();
        let outcome = state.set_cell(&i.to_string());
        state.finish_undoable(before, outcome).unwrap();
    }
    let mut undone = 0;
    while state.undo() {
        undone += 1;
    }
    assert_eq!(undone, 10);
    assert_eq!(cell(&state, 0, 0).unwrap(), "1");
}

#[test]
fn delete_selection_variants() {
    let mut state = state_with(b"a,b,c\n1,2,3\n4,5,6\n7,8,9\n");
    state.selection = Selection::Cell(RectSelection {
        anchor: Cell { row: 1, column: 2 },
        focus: Cell { row: 0, column: 1 },
    });
    state.delete_selection().unwrap();
    assert_eq!(cell(&state, 0, 1).unwrap(), "");
    assert_eq!(cell(&state, 1, 2).unwrap(), "");
    assert_eq!(cell(&state, 0, 0).unwrap(), "1");
    assert_eq!(cell(&state, 2, 2).unwrap(), "9");

    state.selection = Selection::Row { anchor: 2, focus: 1 };
    state.delete_selection().unwrap();
    assert_eq!(state.document.as_ref().unwrap().row_count(), 1);

    state.selection = Selection::Column { anchor: 0, focus: 1 };
    state.delete_selection().unwrap();
    assert_eq!(state.document.as_ref().unwrap().column_count(), 1);
    assert_eq!(cell(&state, 0, 0).unwrap(), "");

    state.selection = Selection::All;
    state.delete_selection().unwrap();
    assert_eq!(state.document.as_ref().unwrap().row_count(), 0);

    state.selection = Selection::Row { anchor: 0, focus: 0 };
    assert!(matches!(state.delete_selection(), Err(CsvError::InvalidRow { row: 0 })));
}

#[test]
fn clearing_beyond_the_table_reports_the_first_bad_cell() {
    let mut state = state_with(b"a,b\n1,2\n");
    state.selection = Selection::Cell(RectSelection {
        anchor: Cell { row: 0, column: 0 },
        focus: Cell { row: 0, column: 3 },
    });
    assert!(matches!(state.delete_selection(), Err(CsvError::InvalidColumn { column: 2 })));
    // The cells before the bad one were cleared.
    assert_eq!(cell(&state, 0, 0), Some(String::new()));
    assert_eq!(cell(&state, 0, 1), Some(String::new()));
    let mut state = state_with(b"a,b\n1,2\n");
    state.selection = Selection::Cell(RectSelection {
        anchor: Cell { row: 0, column: 0 },
        focus: Cell { row: 4, column: 0 },
    });
    assert!(matches!(state.delete_selection(), Err(CsvError::InvalidRow { row: 1 })));
    assert_eq!(cell(&state, 0, 0), Some(String::new()));
    assert_eq!(cell(&state, 0, 1), Some("2".to_string()));
}

#[test]
fn deleting_selected_rows_and_columns() {
    let mut state = state_with(b"h1,h2,h3\na,b,c\nd,e,f\ng,h,i\n");
    state.select_row(0);
    state.select_row_range_to(1);
    state.delete_selection().unwrap();
    assert_eq!(state.document.as_ref().unwrap().row_count(), 1);
    assert_eq!(cell(&state, 0, 0), Some("g".to_string()));
    state.select_column(0);
    state.delete_selection().unwrap();
    assert_eq!(state.document.as_ref().unwrap().column_count(), 2);
    assert_eq!(cell(&state, 0, 0), Some("h".to_string()));
    state.selection = Selection::All;
    state.delete_selection().unwrap();
    assert_eq!(state.document.as_ref().unwrap().row_count(), 0);
}

#[test]
fn moving_rows_and_columns_follows_the_selection() {
    let mut state = state_with(b"a,b\n1,2\n3,4\n5,6\n");
    state.select_cell(0, 0);
    state.move_active_row(5).unwrap();
    assert_eq!(state.selection.active_cell(), Cell { row: 2, column: 0 });
    assert_eq!(cell(&state, 2, 0).unwrap(), "1");
    state.move_active_column(1).unwrap();
    assert_eq!(state.selection.active_cell(), Cell { row: 2, column: 1 });
    assert_eq!(cell(&state, 2, 1).unwrap(), "1");
    state.move_selection(-1, -1, true);
    match state.selection {
        Selection::Cell(rect) => {
            assert_eq!(rect.anchor, Cell { row: 2, column: 1 });
            assert_eq!(rect.focus, Cell { row: 1, column: 0 });
        }
        _ => panic!("expected a cell selection"),
    }
}

#[test]
fn sorting_and_filtering_from_the_state() {
    let mut state = state_with(b"name,age\nB,2\nA,10\nC,1\n");
    state.select_cell(0, 1);
    state.sort_active_column(SortDirection::Ascending, &numbers).unwrap();
    assert_eq!(cell(&state, 0, 0).unwrap(), "C");
    assert_eq!(state.sort_keys(), vec![SortKey { column: 1, direction: SortDirection::Ascending }]);
    state.select_cell(0, 0);
    state.filter_active_column_contains("B".to_string(), &numbers).unwrap();
    assert_eq!(state.filter_text, "B");
    assert_eq!(state.document.as_ref().unwrap().row_count(), 1);
    state.apply_sort_filter_rules(
        vec![SortKey { column: 0, direction: SortDirection::Descending }],
        vec![FilterRule { column: 1, operator: FilterOperator::LessThan, value: "5".to_string() }],
        &numbers,
    )
    .unwrap();
    assert_eq!(state.filter_text, "");
    assert_eq!(cell(&state, 0, 0).unwrap(), "C");
    assert_eq!(cell(&state, 1, 0).unwrap(), "B");
    assert_eq!(state.filter_rules().len(), 1);
}

#[test]
fn selection_summary_of_a_column() {
    let mut state = state_with(b"x,y\n1,a\n2,b\n3,\n");
    state.select_column(0);
    let (stats, values) = state.selection_stats(&numbers);
    let shown: Vec<String> = stats.iter().map(SelectionStat::display_text).collect();
    assert_eq!(shown, vec!["Values: 3", "Blanks: 0", "Distinct: 3", "Total: 3"]);
    let values: Vec<f64> = values.unwrap().into_iter().map(f64::from_bits).collect();
    assert_eq!(values, vec![1.0, 2.0, 3.0]);
    state.select_column(1);
    let (stats, values) = state.selection_stats(&numbers);
    assert_eq!(stats[1].value, "1");
    assert!(values.is_none());
    state.select_cell(0, 0);
    let (stats, _) = state.selection_stats(&numbers);
    assert!(stats.is_empty());
}

#[test]
fn inserting_from_the_state() {
    let mut state = state_with(b"a,b\n1,2\n");
    state.select_cell(0, 0);
    state.insert_row().unwrap();
    assert_eq!(state.document.as_ref().unwrap().row_count(), 2);
    state.insert_column().unwrap();
    assert_eq!(state.document.as_ref().unwrap().column_count(), 4);
    state.select_row(0);
    state.select_row_range_to(1);
    assert_eq!(state.selection, Selection::Row { anchor: 0, focus: 1 });
}

#[test]
fn opening_resets_the_selection_error_and_history() {
    let mut state = state_with(b"a,b\n1,2\n");
    state.select_cell(0, 1);
    let before = state.begin_undoable();
    let outcome = state.set_cell("x");
    state.finish_undoable(before, outcome).unwrap();
    assert!(state.can_undo());
    state.last_error = Some("old".to_string());
    state.first_row_is_header = false;
    state.skip_rows = 1;
    state
        .open_path(Some("/tmp/table.csv".to_string()), b"skip me\nc,d\n3,4\n".to_vec())
        .unwrap();
    let doc = state.document.as_ref().unwrap();
    assert_eq!(doc.path(), Some("/tmp/table.csv"));
    assert_eq!(doc.headers(), None);
    assert_eq!(doc.row_count(), 2);
    assert_eq!(cell(&state, 0, 0), Some("c".to_string()));
    assert_eq!(state.selection, Selection::default());
    assert_eq!(state.last_error, None);
    assert!(!state.can_undo());
    assert!(!state.can_redo());
}

#[test]
fn refused_source_leaves_the_state_alone() {
    let mut state = state_with(b"a,b\n1,2\n");
    state.select_cell(0, 1);
    let result = state.open_path(None, vec![0xFF, 0xFE, b'a', 0]);
    assert!(matches!(result, Err(CsvError::UnsupportedEncoding(_))));
    assert_eq!(cell(&state, 0, 1), Some("2".to_string()));
    assert_eq!(state.selection, Selection::Cell(RectSelection::new(Cell { row: 0, column: 1 })));
}

#[test]
fn reopening_uses_the_state_options() {
    // No document: the bytes open as the sample, with the default options.
    let mut state = EditableState::default();
    state.first_row_is_header = false;
    state.last_error = Some("kept".to_string());
    state.reopen_with_options(b"name,age\nAda,36\n".to_vec()).unwrap();
    let headers: Vec<String> = state.document.as_ref().unwrap().headers().unwrap().to_vec();
    assert_eq!(headers, vec!["name".to_string(), "age".to_string()]);
    assert_eq!(state.document.as_ref().unwrap().path(), None);
    assert_eq!(state.last_error, Some("kept".to_string()));

    // A document open: it is read again with the state's options, and keeps
    // its path.
    state.open_path(Some("/tmp/people.csv".to_string()), b"name,age\nAda,36\n".to_vec()).unwrap();
    state.skip_rows = 1;
    state.first_row_is_header = false;
    state.last_error = Some("stale".to_string());
    state.select_cell(0, 1);
    state.reopen_with_options(b"name,age\nAda,36\nGrace,85\n".to_vec()).unwrap();
    let doc = state.document.as_ref().unwrap();
    assert_eq!(doc.path(), Some("/tmp/people.csv"));
    assert_eq!(doc.headers(), None);
    assert_eq!(doc.row_count(), 2);
    assert_eq!(cell(&state, 1, 0), Some("Grace".to_string()));
    assert_eq!(state.last_error, None);
    assert_eq!(state.selection, Selection::default());
}

#[test]
fn sample_opens_untitled_with_default_options() {
    let mut state = EditableState::default();
    state.first_row_is_header = false;
    state.skip_rows = 3;
    state.open_sample(b"city,pop\nOslo,700000\n".to_vec()).unwrap();
    let doc = state.document.as_ref().unwrap();
    assert_eq!(doc.path(), None);
    assert_eq!(doc.headers().unwrap().to_vec(), vec!["city".to_string(), "pop".to_string()]);
    assert_eq!(doc.row_count(), 1);
    assert_eq!(state.skip_rows, 3);
}

#[test]
fn save_target_prefers_the_choice_then_the_file() {
    let mut state = EditableState::default();
    assert_eq!(state.save_path(Some("x.csv".to_string())), None);
    state.document = Some(CsvDocument::from_bytes(b"a\n1\n".to_vec(), OpenOptions::default()).unwrap());
    assert_eq!(state.save_path(None), Some("Editable.csv".to_string()));
    assert_eq!(state.save_path(Some("out.csv".to_string())), Some("out.csv".to_string()));
    state.open_path(Some("/tmp/in.csv".to_string()), b"a\n1\n".to_vec()).unwrap();
    assert_eq!(state.save_path(None), Some("/tmp/in.csv".to_string()));
}

#[test]
fn results_set_or_clear_the_last_error() {
    let mut state = state_with(b"a\n1\n");
    state.handle_result(Err(CsvError::InvalidRow { row: 7 }));
    assert_eq!(state.last_error, Some("invalid row index 7".to_string()));
    state.handle_result(Ok(()));
    assert_eq!(state.last_error, None);
}
