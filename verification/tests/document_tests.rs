use editable::rules::{ColumnFilter, FilterOperator, FilterRule, SortDirection, SortKey};
use editable::{CsvDocument, CsvError, OpenOptions};

fn numbers(text: &str) -> Option<u64> {
    text.parse::<f64>().ok().map(f64::to_bits)
}

fn text(bytes: Vec<u8>) -> String {
    String::from_utf8(bytes).unwrap()
}

#[test]
fn opens_with_header_and_skip_rows() {
    let doc = CsvDocument::from_bytes(
        b"metadata\nname,age\nAda,36\nGrace,85\n".to_vec(),
        OpenOptions {
            first_row_is_header: true,
            skip_rows: 1,
            ..OpenOptions::default()
        },
    )
    .unwrap();
    let headers = doc.headers().unwrap();
    assert_eq!(headers[0], "name");
    assert_eq!(headers[1], "age");
    assert_eq!(doc.row_count(), 2);
    assert_eq!(doc.cell(0, 0).unwrap(), "Ada");
}

#[test]
fn edits_and_saves_with_quotes() {
    let mut doc =
        CsvDocument::from_bytes(b"name,note\nAda,ok\n".to_vec(), OpenOptions::default()).unwrap();
    doc.set_cell(0, 1, "hello, \"world\"").unwrap();
    let text = text(doc.to_csv_bytes());
    assert_eq!(text, "name,note\nAda,\"hello, \"\"world\"\"\"");
}

#[test]
fn save_clears_dirty_state() {
    let mut doc =
        CsvDocument::from_bytes(b"name,note\nAda,ok\n".to_vec(), OpenOptions::default()).unwrap();
    doc.set_cell(0, 1, "saved").unwrap();
    assert!(doc.is_dirty());

    let path = "editable-save-clears-dirty.csv".to_string();
    let written = doc.to_csv_bytes();
    doc.save_to(path.clone(), written.clone(), &numbers).unwrap();

    assert!(!doc.is_dirty());
    assert_eq!(doc.path(), Some(path.as_str()));
    assert_eq!(text(written), "name,note\nAda,saved");
}

#[test]
fn save_rebases_in_memory_document_to_written_bytes() {
    let mut doc = CsvDocument::from_source(
        Some("first.csv".to_string()),
        b"first,second\ncell1,cell2".to_vec(),
        OpenOptions::default(),
    )
    .unwrap();
    doc.set_cell(0, 1, "updated").unwrap();
    let written = doc.to_csv_bytes();
    doc.save_to("first.csv".to_string(), written.clone(), &numbers).unwrap();

    assert!(!doc.is_dirty());
    assert_eq!(doc.edit_stats().edited_cells, 0);
    assert_eq!(doc.cell(0, 0).unwrap(), "cell1");
    assert_eq!(doc.cell(0, 1).unwrap(), "updated");
    assert_eq!(text(doc.to_csv_bytes()), text(written));
}

#[test]
fn filters_and_sorts() {
    let mut doc =
        CsvDocument::from_bytes(b"name,age\nB,2\nA,10\nC,1\n".to_vec(), OpenOptions::default())
            .unwrap();
    doc.set_filter(1, Some(ColumnFilter::NotEmpty), &numbers).unwrap();
    doc.sort_by(
        vec![SortKey {
            column: 1,
            direction: SortDirection::Ascending,
        }],
        &numbers,
    )
    .unwrap();
    assert_eq!(doc.cell(0, 0).unwrap(), "C");
    assert_eq!(doc.cell(2, 0).unwrap(), "A");
}

#[test]
fn empty_values_sort_last_in_both_directions() {
    let mut doc = CsvDocument::from_bytes(
        b"name,score\nBlank,\nLow,1\nHigh,9\n".to_vec(),
        OpenOptions::default(),
    )
    .unwrap();
    doc.sort_by(
        vec![SortKey {
            column: 1,
            direction: SortDirection::Ascending,
        }],
        &numbers,
    )
    .unwrap();
    assert_eq!(doc.cell(0, 0).unwrap(), "Low");
    assert_eq!(doc.cell(2, 0).unwrap(), "Blank");

    doc.sort_by(
        vec![SortKey {
            column: 1,
            direction: SortDirection::Descending,
        }],
        &numbers,
    )
    .unwrap();
    assert_eq!(doc.cell(0, 0).unwrap(), "High");
    assert_eq!(doc.cell(2, 0).unwrap(), "Blank");
}

#[test]
fn multiple_filter_rules_can_use_text_and_comparisons() {
    let mut doc = CsvDocument::from_bytes(
        b"name,age\nAda,36\nGrace,85\nAlan,41\n".to_vec(),
        OpenOptions::default(),
    )
    .unwrap();
    doc.set_filter_rules(
        vec![
            FilterRule {
                column: 0,
                operator: FilterOperator::StartsWith,
                value: "A".to_string(),
            },
            FilterRule {
                column: 1,
                operator: FilterOperator::GreaterThan,
                value: "40".to_string(),
            },
        ],
        &numbers,
    )
    .unwrap();
    assert_eq!(doc.row_count(), 1);
    assert_eq!(doc.cell(0, 0).unwrap(), "Alan");
}

#[test]
fn custom_delimiter_and_dot_decimal_numbers_drive_comparisons() {
    let mut doc = CsvDocument::from_bytes(
        b"name;amount\nSmall;1.25\nLarge;10.5\n".to_vec(),
        OpenOptions {
            delimiter: Some(b';'),
            ..OpenOptions::default()
        },
    )
    .unwrap();

    assert_eq!(doc.cell(0, 1).unwrap(), "1.25");
    doc.set_filter_rules(
        vec![FilterRule {
            column: 1,
            operator: FilterOperator::GreaterThan,
            value: "2.0".to_string(),
        }],
        &numbers,
    )
    .unwrap();
    assert_eq!(doc.cell(0, 0).unwrap(), "Large");

    let text = text(doc.to_csv_bytes());
    assert_eq!(text, "name;amount\nLarge;10.5");
}

#[test]
fn comma_decimal_values_remain_text_not_locale_numbers() {
    let mut doc = CsvDocument::from_bytes(
        b"name;amount\nSmall;1,25\nLarge;10,5\n".to_vec(),
        OpenOptions {
            delimiter: Some(b';'),
            ..OpenOptions::default()
        },
    )
    .unwrap();

    doc.set_filter_rules(
        vec![FilterRule {
            column: 1,
            operator: FilterOperator::GreaterThan,
            value: "2.0".to_string(),
        }],
        &numbers,
    )
    .unwrap();

    assert_eq!(doc.row_count(), 0);
}

#[test]
fn default_open_options_auto_detect_delimiter_before_saving() {
    let mut doc = CsvDocument::from_bytes(
        b"name;amount\nAda;1,23\nGrace;4,56\n".to_vec(),
        OpenOptions::default(),
    )
    .unwrap();

    assert_eq!(doc.dialect().delimiter, b';');
    assert_eq!(doc.column_count(), 2);
    assert_eq!(doc.cell(0, 0).unwrap(), "Ada");
    assert_eq!(doc.cell(0, 1).unwrap(), "1,23");

    doc.set_cell(0, 0, "Augusta").unwrap();
    let text = text(doc.to_csv_bytes());
    assert_eq!(text, "name;amount\nAugusta;1,23\nGrace;4,56");
}

#[test]
fn row_and_column_operations() {
    let mut doc =
        CsvDocument::from_bytes(b"a,b\n1,2\n3,4\n".to_vec(), OpenOptions::default()).unwrap();
    doc.reorder_row(1, 0).unwrap();
    assert_eq!(doc.cell(0, 0).unwrap(), "3");
    doc.reorder_column(1, 0).unwrap();
    assert_eq!(doc.cell(0, 0).unwrap(), "4");
    doc.delete_row(0).unwrap();
    assert_eq!(doc.row_count(), 1);
}

#[test]
fn saves_visible_column_order_and_skipped_rows() {
    let mut doc = CsvDocument::from_bytes(
        b"generated by tool\nname,year\nVisiCalc,1979\nExcel,1985\n".to_vec(),
        OpenOptions {
            first_row_is_header: true,
            skip_rows: 1,
            ..OpenOptions::default()
        },
    )
    .unwrap();
    doc.reorder_column(1, 0).unwrap();
    doc.delete_row(0).unwrap();
    let text = text(doc.to_csv_bytes());
    assert_eq!(text, "generated by tool\nyear,name\n1985,Excel");
}

#[test]
fn saving_trims_trailing_empty_rows_and_columns() {
    let doc = CsvDocument::from_bytes(
        b"name,year,,\nAda,1843,,\n,,,\n".to_vec(),
        OpenOptions::default(),
    )
    .unwrap();

    let text = text(doc.to_csv_bytes());
    assert_eq!(text, "name,year\nAda,1843");
}

#[test]
fn saving_preserves_empty_rows_and_columns_inside_data() {
    let doc = CsvDocument::from_bytes(
        b"name,,year,\nAda,,1843,\n,,,\nGrace,,1952,\n,,,\n".to_vec(),
        OpenOptions::default(),
    )
    .unwrap();

    let text = text(doc.to_csv_bytes());
    assert_eq!(text, "name,,year\nAda,,1843\n,,\nGrace,,1952");
}

#[test]
fn edits_follow_rows_after_sorting() {
    let mut doc =
        CsvDocument::from_bytes(b"name,age\nB,2\nA,10\n".to_vec(), OpenOptions::default()).unwrap();
    doc.set_cell(0, 0, "Bee").unwrap();
    doc.sort_by(
        vec![SortKey {
            column: 1,
            direction: SortDirection::Descending,
        }],
        &numbers,
    )
    .unwrap();
    assert_eq!(doc.cell(1, 0).unwrap(), "Bee");
}

#[test]
fn out_of_range_positions_are_errors() {
    let mut doc =
        CsvDocument::from_bytes(b"a,b\n1,2\n".to_vec(), OpenOptions::default()).unwrap();
    assert!(matches!(doc.set_cell(0, 5, "x"), Err(CsvError::InvalidColumn { column: 5 })));
    assert!(matches!(doc.set_cell(9, 0, "x"), Err(CsvError::InvalidRow { row: 9 })));
    assert!(matches!(doc.insert_row(3), Err(CsvError::InvalidRow { row: 3 })));
    assert!(matches!(doc.delete_row(1), Err(CsvError::InvalidRow { row: 1 })));
    assert!(matches!(doc.insert_column(3), Err(CsvError::InvalidColumn { column: 3 })));
    assert!(matches!(doc.delete_column(2), Err(CsvError::InvalidColumn { column: 2 })));
    assert!(matches!(doc.reorder_row(0, 1), Err(CsvError::InvalidReorder { from: 0, to: 1 })));
    assert!(matches!(doc.reorder_column(0, 2), Err(CsvError::InvalidReorder { from: 0, to: 2 })));
    assert!(matches!(
        doc.sort_by(vec![SortKey { column: 7, direction: SortDirection::Ascending }], &numbers),
        Err(CsvError::InvalidColumn { column: 7 })
    ));
    assert!(matches!(
        doc.set_filter(4, Some(ColumnFilter::Empty), &numbers),
        Err(CsvError::InvalidColumn { column: 4 })
    ));
    assert!(!doc.is_dirty());
    assert_eq!(doc.cell(0, 0).unwrap(), "1");
    assert_eq!(doc.cell(0, 2), None);
    assert_eq!(doc.cell(1, 0), None);
}

#[test]
fn utf16_source_is_refused() {
    match CsvDocument::from_bytes(b"\xFF\xFEa\x00".to_vec(), OpenOptions::default()) {
        Err(CsvError::UnsupportedEncoding(name)) => assert_eq!(name, "UTF-16 LE"),
        _ => panic!("expected an encoding error"),
    }
}

#[test]
fn written_cell_reads_back_and_others_stay() {
    let mut doc =
        CsvDocument::from_bytes(b"a,b\n1,2\n3,4\n".to_vec(), OpenOptions::default()).unwrap();
    doc.set_cell(1, 0, "x").unwrap();
    doc.set_cell(1, 0, "y").unwrap();
    assert_eq!(doc.cell(1, 0).unwrap(), "y");
    assert_eq!(doc.cell(0, 0).unwrap(), "1");
    assert_eq!(doc.cell(1, 1).unwrap(), "4");
    assert_eq!(doc.edit_stats().edited_cells, 1);
}

#[test]
fn inserted_rows_and_columns_are_counted() {
    let mut doc =
        CsvDocument::from_bytes(b"a,b\n1,2\n".to_vec(), OpenOptions::default()).unwrap();
    doc.insert_row(1).unwrap();
    assert_eq!(doc.row_count(), 2);
    assert_eq!(doc.cell(1, 0).unwrap(), "");
    doc.set_cell(1, 1, "new").unwrap();
    assert_eq!(doc.cell(1, 1).unwrap(), "new");
    doc.insert_column(0).unwrap();
    assert_eq!(doc.column_count(), 4);
    assert_eq!(doc.cell(0, 0).unwrap(), "");
    assert_eq!(doc.cell(0, 1).unwrap(), "1");
    doc.delete_column(0).unwrap();
    assert_eq!(doc.cell(0, 0).unwrap(), "1");
    let stats = doc.edit_stats();
    assert_eq!(stats.inserted_rows, 1);
    assert_eq!(stats.inserted_columns, 1);
    assert_eq!(stats.deleted_columns, 1);
    doc.delete_row(1).unwrap();
    assert_eq!(doc.row_count(), 1);
}

#[test]
fn snapshot_restores_overlay() {
    let mut doc =
        CsvDocument::from_bytes(b"a,b\n1,2\n3,4\n".to_vec(), OpenOptions::default()).unwrap();
    let snap = doc.snapshot();
    doc.set_cell(0, 0, "changed").unwrap();
    doc.delete_row(1).unwrap();
    doc.reorder_column(0, 1).unwrap();
    assert!(!doc.snapshot().same_as(&snap));
    assert!(snap.fits_document(&doc));
    doc.restore_snapshot(snap);
    assert!(!doc.is_dirty());
    assert_eq!(doc.row_count(), 2);
    assert_eq!(doc.cell(0, 0).unwrap(), "1");
    assert_eq!(doc.cell(1, 1).unwrap(), "4");
}

#[test]
fn filter_rules_and_sort_keys_report_display_columns() {
    let mut doc = CsvDocument::from_bytes(b"a,b,c\n1,2,3\n".to_vec(), OpenOptions::default())
        .unwrap();
    doc.reorder_column(2, 0).unwrap();
    doc.set_filter_rules(
        vec![FilterRule { column: 0, operator: FilterOperator::Equals, value: "3".to_string() }],
        &numbers,
    )
    .unwrap();
    doc.sort_by(vec![SortKey { column: 1, direction: SortDirection::Descending }], &numbers)
        .unwrap();
    let rules = doc.filter_rules();
    assert_eq!(rules.len(), 1);
    assert_eq!(rules[0].column, 0);
    assert_eq!(rules[0].value, "3");
    let keys = doc.sort_keys();
    assert_eq!(keys, vec![SortKey { column: 1, direction: SortDirection::Descending }]);
    assert_eq!(doc.row_count(), 1);
    doc.delete_column(0).unwrap();
    assert_eq!(doc.filter_rules().len(), 0);
}

#[test]
fn untrimmed_output_keeps_empty_edges() {
    let doc = CsvDocument::from_bytes(b"a,b,\n1,,\n,,\n".to_vec(), OpenOptions::default()).unwrap();
    assert_eq!(text(doc.to_csv_bytes_with_delimiter_untrimmed(b';')), "a;b;\n1;;\n;;");
    assert_eq!(text(doc.to_csv_bytes_with_delimiter(b';')), "a;b\n1;");
}

#[test]
fn header_lookup_by_display_column() {
    let mut doc = CsvDocument::from_bytes(b"x,y\n1,2\n".to_vec(), OpenOptions::default()).unwrap();
    assert_eq!(doc.header(1), Some("y"));
    doc.reorder_column(1, 0).unwrap();
    assert_eq!(doc.header(0), Some("y"));
    assert_eq!(doc.header(2), None);
    let no_header = CsvDocument::from_bytes(
        b"x,y\n".to_vec(),
        OpenOptions { first_row_is_header: false, ..OpenOptions::default() },
    )
    .unwrap();
    assert_eq!(no_header.header(0), None);
    assert_eq!(no_header.row_count(), 1);
}

#[test]
fn error_messages() {
    assert_eq!(CsvError::InvalidRow { row: 12 }.message(), "invalid row index 12");
    assert_eq!(CsvError::InvalidColumn { column: 0 }.message(), "invalid column index 0");
    assert_eq!(
        CsvError::InvalidReorder { from: 3, to: 105 }.message(),
        "cannot reorder item from 3 to 105"
    );
    assert_eq!(CsvError::UnsupportedEncoding("UTF-16 LE").message(), "unsupported encoding: UTF-16 LE");
    assert_eq!(CsvError::Parse("bad".to_string()).message(), "CSV parse error: bad");
}

#[test]
fn rebasing_keeps_filters_and_sort_keys_on_existing_columns() {
    let mut doc =
        CsvDocument::from_bytes(b"name,age\nB,2\nA,10\nC,1\n".to_vec(), OpenOptions::default())
            .unwrap();
    doc.sort_by(vec![SortKey { column: 1, direction: SortDirection::Ascending }], &numbers).unwrap();
    let written = doc.to_csv_bytes();
    doc.rebase_saved_bytes("people.csv".to_string(), written, &numbers).unwrap();
    assert_eq!(doc.sort_keys(), vec![SortKey { column: 1, direction: SortDirection::Ascending }]);
    assert_eq!(doc.cell(0, 0).unwrap(), "C");
    assert_eq!(doc.cell(2, 0).unwrap(), "A");
    assert_eq!(doc.path(), Some("people.csv"));
}

#[test]
fn dirty_flag_can_be_set_and_cleared() {
    let mut doc = CsvDocument::from_bytes(b"a\n1\n".to_vec(), OpenOptions::default()).unwrap();
    assert!(!doc.is_dirty());
    doc.set_dirty(true);
    assert!(doc.is_dirty());
    assert_eq!(doc.cell(0, 0).unwrap(), "1");
    doc.set_dirty(false);
    assert!(!doc.is_dirty());
}
