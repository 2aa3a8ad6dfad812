use editable::bundle::{icns_bytes, icns_entries, info_plist, APP_NAME, BUNDLE_ID};
use editable::controls::{
    custom_delimiter, custom_delimiter_text, delimiter_at, delimiter_index, delimiter_titles,
    filter_operator_at, filter_operator_index, filter_operator_titles, is_cell_edit_start_text,
    navigation_delta_for_key_code, single_character, ToolbarIcon,
};
use editable::find::FindState;
use editable::formatting::{decimal_text, fit, format_count, spreadsheet_column_name};
use editable::rules::FilterOperator;
use editable::selection::Cell;
use editable::stats::{compute_stats, SelectionMetric, SelectionStat};

fn numbers(text: &str) -> Option<u64> {
    text.parse::<f64>().ok().map(f64::to_bits)
}

#[test]
fn separator_menu() {
    assert_eq!(
        delimiter_titles(),
        vec!["Comma", "Semicolon", "Tab", "Pipe", "Colon", "Custom"]
    );
    assert_eq!(delimiter_index(b','), 0);
    assert_eq!(delimiter_index(b';'), 1);
    assert_eq!(delimiter_index(b'\t'), 2);
    assert_eq!(delimiter_index(b'|'), 3);
    assert_eq!(delimiter_index(b':'), 4);
    assert_eq!(delimiter_index(b'#'), 5);
    assert_eq!(custom_delimiter_text(b'#'), "#");
    assert_eq!(custom_delimiter_text(b','), "");
    assert_eq!(delimiter_at(2, ""), Ok(b'\t'));
    assert_eq!(delimiter_at(5, "#"), Ok(b'#'));
    assert_eq!(delimiter_at(-1, "\\t"), Ok(b'\t'));
}

#[test]
fn custom_separator_rules() {
    assert_eq!(custom_delimiter("\\t"), Ok(b'\t'));
    assert_eq!(custom_delimiter("#"), Ok(b'#'));
    assert_eq!(
        custom_delimiter(""),
        Err("Custom separator must be one character.".to_string())
    );
    assert_eq!(
        custom_delimiter("ab"),
        Err("Custom separator must be one character.".to_string())
    );
    assert_eq!(
        custom_delimiter("\""),
        Err("Custom separator cannot be a quote or line break.".to_string())
    );
    assert_eq!(
        custom_delimiter("é"),
        Err("Custom separator must be one ASCII character.".to_string())
    );
    assert_eq!(single_character("x", "Quote"), Ok('x'));
    assert_eq!(
        single_character("xy", "Quote"),
        Err("Quote must be one character.".to_string())
    );
}

#[test]
fn operator_menu_round_trips() {
    let titles = filter_operator_titles();
    assert_eq!(titles.len(), 12);
    assert_eq!(titles[0], "Contains");
    assert_eq!(titles[11], "Is not empty");
    for i in 0..12isize {
        let op = filter_operator_at(i);
        assert_eq!(filter_operator_index(op), i as usize);
    }
    assert_eq!(filter_operator_at(99), FilterOperator::Contains);
    assert_eq!(filter_operator_at(7), FilterOperator::GreaterThanOrEqual);
}

#[test]
fn arrow_keys() {
    assert_eq!(navigation_delta_for_key_code(126), Some((-1, 0)));
    assert_eq!(navigation_delta_for_key_code(125), Some((1, 0)));
    assert_eq!(navigation_delta_for_key_code(123), Some((0, -1)));
    assert_eq!(navigation_delta_for_key_code(124), Some((0, 1)));
    assert_eq!(navigation_delta_for_key_code(36), None);
}

#[test]
fn typing_starts_editing() {
    assert!(is_cell_edit_start_text("a"));
    assert!(is_cell_edit_start_text("7"));
    assert!(is_cell_edit_start_text("é"));
    assert!(!is_cell_edit_start_text(" "));
    assert!(!is_cell_edit_start_text("ab"));
    assert!(!is_cell_edit_start_text(""));
}

#[test]
fn toolbar_symbols_and_labels() {
    assert_eq!(ToolbarIcon::Find.symbols(), &["magnifyingglass"]);
    assert_eq!(ToolbarIcon::AddRow.symbols().len(), 3);
    assert_eq!(ToolbarIcon::Save.accessibility_label(), "save");
    assert_eq!(ToolbarIcon::MoveColumnLeft.accessibility_label(), "move column left");
}

#[test]
fn counts_and_names() {
    assert_eq!(format_count(0), "0");
    assert_eq!(format_count(999), "999");
    assert_eq!(format_count(1000), "1,000");
    assert_eq!(format_count(1234567), "1,234,567");
    assert_eq!(format_count(1000001), "1,000,001");
    assert_eq!(decimal_text(42), "42");
    assert_eq!(decimal_text(usize::MAX), usize::MAX.to_string());
    assert_eq!(spreadsheet_column_name(0), "A");
    assert_eq!(spreadsheet_column_name(25), "Z");
    assert_eq!(spreadsheet_column_name(26), "AA");
    assert_eq!(spreadsheet_column_name(27), "AB");
    assert_eq!(spreadsheet_column_name(701), "ZZ");
    assert_eq!(spreadsheet_column_name(702), "AAA");
}

#[test]
fn fitting_texts() {
    assert_eq!(fit("abc", 5), "abc  ");
    assert_eq!(fit("abcdef", 5), "abcd...");
    assert_eq!(fit("abcde", 5), "abcde");
    assert_eq!(fit("abc", 1), "a");
    assert_eq!(fit("abc", 0), "");
    assert_eq!(fit("", 2), "  ");
}

#[test]
fn selection_summary() {
    let values: Vec<String> = vec!["1".into(), " 2 ".into(), "".into(), "2".into()];
    let (stats, numbers_out) = compute_stats(&values, &numbers);
    let shown: Vec<String> = stats.iter().map(SelectionStat::display_text).collect();
    assert_eq!(shown, vec!["Values: 3", "Blanks: 1", "Distinct: 2", "Total: 4"]);
    let nums: Vec<f64> = numbers_out.unwrap().into_iter().map(f64::from_bits).collect();
    assert_eq!(nums, vec![1.0, 2.0, 2.0]);

    let mixed: Vec<String> = vec!["a".into(), "2".into()];
    let (stats, numbers_out) = compute_stats(&mixed, &numbers);
    assert_eq!(stats.len(), 4);
    assert!(numbers_out.is_none());

    let one: Vec<String> = vec!["5".into()];
    let (stats, numbers_out) = compute_stats(&one, &numbers);
    assert!(stats.is_empty());
    assert!(numbers_out.is_none());

    let blanks: Vec<String> = vec!["".into(), "  ".into()];
    let (stats, numbers_out) = compute_stats(&blanks, &numbers);
    assert_eq!(stats[0].value, "0");
    assert_eq!(stats[1].value, "2");
    assert!(numbers_out.is_none());
}

#[test]
fn metric_labels() {
    assert_eq!(SelectionMetric::Values.label(), "Values");
    assert_eq!(SelectionMetric::Median.label(), "Median");
    assert_eq!(SelectionMetric::default(), SelectionMetric::Values);
    let stat = SelectionStat { metric: SelectionMetric::Maximum, value: "9".to_string() };
    assert_eq!(stat.display_text(), "Maximum: 9");
}

#[test]
fn find_panel_steps_and_wraps() {
    let mut find = FindState::new();
    assert_eq!(find.find_status_text(), "No query");
    find.query = "x".to_string();
    assert_eq!(find.find_status_text(), "No matches");
    let a = Cell { row: 0, column: 0 };
    let b = Cell { row: 1, column: 2 };
    let c = Cell { row: 4, column: 1 };
    find.recompute_find_matches(vec![a, b, c]);
    assert_eq!(find.index, Some(0));
    assert_eq!(find.find_status_text(), "1 of 3 matches");
    find.step_find_match(1);
    assert_eq!(find.current_find_match(), Some(b));
    find.step_find_match(-1);
    find.step_find_match(-1);
    assert_eq!(find.current_find_match(), Some(c));
    assert_eq!(find.find_cell_state(c), (true, true));
    assert_eq!(find.find_cell_state(a), (true, false));
    assert_eq!(find.find_cell_state(Cell { row: 9, column: 9 }), (false, false));
    find.recompute_find_matches(vec![c, a]);
    assert_eq!(find.index, Some(0));
    find.recompute_find_matches(vec![b]);
    assert_eq!(find.index, Some(0));
    find.clear_find_matches();
    assert_eq!(find.index, None);
    find.step_find_match(1);
    assert_eq!(find.index, None);
}

#[test]
fn bundle_property_list() {
    let plist = info_plist();
    assert!(plist.starts_with("<?xml version=\"1.0\" encoding=\"UTF-8\"?>\n"));
    assert!(plist.contains("<key>CFBundleExecutable</key>\n  <string>Editable</string>"));
    assert!(plist.contains("<string>dev.local.editable</string>"));
    assert!(plist.ends_with("</plist>\n"));
    assert_eq!(APP_NAME, "Editable");
    assert_eq!(BUNDLE_ID, "dev.local.editable");
}

#[test]
fn icns_container_layout() {
    let entries = icns_entries();
    assert_eq!(entries.len(), 7);
    assert_eq!(entries[0], ("icp4", "icon_16x16.png"));
    assert_eq!(entries[6], ("ic10", "icon_512x512@2x.png"));
    let parts = vec![
        (b"icp4".to_vec(), vec![1u8, 2, 3]),
        (b"ic07".to_vec(), Vec::new()),
    ];
    let bytes = icns_bytes(&parts);
    let mut expected = Vec::new();
    expected.extend_from_slice(b"icns");
    expected.extend_from_slice(&(8u32 + 11 + 8).to_be_bytes());
    expected.extend_from_slice(b"icp4");
    expected.extend_from_slice(&11u32.to_be_bytes());
    expected.extend_from_slice(&[1, 2, 3]);
    expected.extend_from_slice(b"ic07");
    expected.extend_from_slice(&8u32.to_be_bytes());
    assert_eq!(bytes, expected);
    assert_eq!(icns_bytes(&Vec::new()), b"icns\0\0\0\x08".to_vec());
}

#[test]
fn activating_a_match_selects_its_cell() {
    let mut state = editable::state::EditableState::default();
    let mut find = FindState::new();
    find.activate_current_find_match(&mut state);
    assert_eq!(state.selection.active_cell(), Cell { row: 0, column: 0 });
    find.query = "x".to_string();
    find.recompute_find_matches(vec![Cell { row: 2, column: 1 }, Cell { row: 5, column: 0 }]);
    find.step_find_match(1);
    find.activate_current_find_match(&mut state);
    assert_eq!(state.selection.active_cell(), Cell { row: 5, column: 0 });
}

#[test]
fn counting_figures_ignore_order() {
    let numbers = |t: &str| t.parse::<f64>().ok().map(f64::to_bits);
    let a = vec!["x".to_string(), " ".to_string(), "y".to_string(), "x".to_string()];
    let b = vec!["x".to_string(), "y".to_string(), "x".to_string(), " ".to_string()];
    assert_eq!(compute_stats(&a, &numbers).0, compute_stats(&b, &numbers).0);
}
