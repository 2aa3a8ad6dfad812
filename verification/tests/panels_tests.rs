use editable::panels::{
    formatting_draft, parse_count, skip_rows_from_text, sort_filter_draft,
    visible_column_from_identifier, FilterRowChoice, FormattingDraft, SortRowChoice,
    VisibleColumn,
};
use editable::rules::{FilterOperator, FilterRule, SortDirection, SortKey};
use editable::state::EditableState;
use editable::stats::{preferred_stat_index, SelectionMetric, SelectionStat};
use editable::{CsvDocument, OpenOptions};

#[test]
fn counts_read_like_usize_parsing() {
    assert_eq!(parse_count("0"), Some(0));
    assert_eq!(parse_count("42"), Some(42));
    assert_eq!(parse_count("+7"), Some(7));
    assert_eq!(parse_count("007"), Some(7));
    assert_eq!(parse_count(""), None);
    assert_eq!(parse_count("+"), None);
    assert_eq!(parse_count("-1"), None);
    assert_eq!(parse_count(" 3"), None);
    assert_eq!(parse_count("1_000"), None);
    assert_eq!(parse_count("12a"), None);
    let max = usize::MAX.to_string();
    assert_eq!(parse_count(&max), Some(usize::MAX));
    let over = format!("{}0", usize::MAX);
    assert_eq!(parse_count(&over), None);
    for text in ["", "+", "5", "+19", "x", "99999999999999999999999", "٣"] {
        assert_eq!(parse_count(text), text.parse::<usize>().ok(), "{text:?}");
    }
}

#[test]
fn skip_rows_field_falls_back_to_zero() {
    assert_eq!(skip_rows_from_text("  3 \n"), 3);
    assert_eq!(skip_rows_from_text("three"), 0);
    assert_eq!(skip_rows_from_text(""), 0);
}

#[test]
fn formatting_panel_values() {
    assert_eq!(
        formatting_draft(true, " 2 ", 1, ""),
        Ok(FormattingDraft { first_row_is_header: true, skip_rows: 2, delimiter: b';' })
    );
    assert_eq!(
        formatting_draft(false, "0", 5, "\\t"),
        Ok(FormattingDraft { first_row_is_header: false, skip_rows: 0, delimiter: b'\t' })
    );
    assert_eq!(
        formatting_draft(true, "two", 0, ""),
        Err("Skip rows must be a whole number.".to_string())
    );
    assert_eq!(
        formatting_draft(true, "1", 5, "ab"),
        Err("Custom separator must be one character.".to_string())
    );
}

#[test]
fn sort_and_filter_panel_rows() {
    let sort_rows = vec![
        SortRowChoice { column: 1, direction: 1 },
        SortRowChoice { column: -1, direction: 0 },
        SortRowChoice { column: 0, direction: 0 },
    ];
    let filter_rows = vec![
        FilterRowChoice { column: 0, operator: 0, value: "Ada".to_string() },
        FilterRowChoice { column: 1, operator: 2, value: String::new() },
        FilterRowChoice { column: 2, operator: 10, value: String::new() },
        FilterRowChoice { column: -1, operator: 0, value: "x".to_string() },
    ];
    let (sorts, filters) = sort_filter_draft(&sort_rows, &filter_rows);
    assert_eq!(
        sorts,
        vec![
            SortKey { column: 1, direction: SortDirection::Descending },
            SortKey { column: 0, direction: SortDirection::Ascending },
        ]
    );
    assert_eq!(
        filters,
        vec![
            FilterRule { column: 0, operator: FilterOperator::Contains, value: "Ada".to_string() },
            FilterRule { column: 2, operator: FilterOperator::IsEmpty, value: String::new() },
        ]
    );
}

#[test]
fn table_column_identifiers() {
    assert_eq!(visible_column_from_identifier("__row_number__"), Some(VisibleColumn::RowNumber));
    assert_eq!(visible_column_from_identifier("c:12"), Some(VisibleColumn::Data(12)));
    assert_eq!(visible_column_from_identifier("c:"), None);
    assert_eq!(visible_column_from_identifier("c:x"), None);
    assert_eq!(visible_column_from_identifier("d:1"), None);
}

#[test]
fn column_titles_of_the_state() {
    let mut state = EditableState::default();
    assert!(state.column_titles().is_empty());
    state.document =
        Some(CsvDocument::from_bytes(b"name,,x\n1,2,3\n".to_vec(), OpenOptions::default()).unwrap());
    assert_eq!(state.column_titles(), vec!["name".to_string(), "B".to_string(), "x".to_string()]);
}

#[test]
fn launch_path_skips_process_serial_numbers() {
    let args = vec!["-psn_0_12345".to_string(), "/tmp/a.csv".to_string(), "b.csv".to_string()];
    assert_eq!(editable::panels::launch_path_arg(&args), Some(1));
    let only_serial = vec!["-psn_1".to_string()];
    assert_eq!(editable::panels::launch_path_arg(&only_serial), None);
    assert_eq!(editable::panels::launch_path_arg(&Vec::new()), None);
    let short = vec!["-psn".to_string()];
    assert_eq!(editable::panels::launch_path_arg(&short), Some(0));
}

#[test]
fn preferred_summary_figure() {
    let stats = vec![
        SelectionStat { metric: SelectionMetric::Values, value: "3".to_string() },
        SelectionStat { metric: SelectionMetric::Total, value: "9".to_string() },
    ];
    assert_eq!(preferred_stat_index(&stats, SelectionMetric::Total), 1);
    assert_eq!(preferred_stat_index(&stats, SelectionMetric::Median), 0);
}
