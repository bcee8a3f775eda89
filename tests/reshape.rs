use dttools::reshape::{
    candidate_layouts, header_column, locate_columns, measurement_value, parse_time_to_target_format,
    reshape_title, time_cell_text, TimeError, RESHAPE_COLUMNS,
};
use dttools::text::{replace_text, trim_text};
use dttools::workbook::{processed_output_path, renamed_sheet_name};

#[test]
fn timestamps_normalised() {
    assert_eq!(parse_time_to_target_format("2024-01-05T03:04:05").unwrap(), "2024-01-05 03:04:05");
    assert_eq!(parse_time_to_target_format("2024-01-05T03:04:05.250").unwrap(), "2024-01-05 03:04:05");
    assert_eq!(parse_time_to_target_format(" 2024/1/5 3:04:05 ").unwrap(), "2024-01-05 03:04:05");
    assert_eq!(parse_time_to_target_format("2024-01-05 23:59:00").unwrap(), "2024-01-05 23:59:00");
}

#[test]
fn timestamps_rejected() {
    assert_eq!(parse_time_to_target_format("20240105"), Err(TimeError::UnknownLayout));
    assert_eq!(parse_time_to_target_format("2024-13-05 00:00:00"), Err(TimeError::Malformed));
    assert_eq!(parse_time_to_target_format("noT a time"), Err(TimeError::Malformed));
}

#[test]
fn time_cell_falls_back() {
    assert_eq!(time_cell_text("raw", Err(TimeError::Malformed)), "raw");
    assert_eq!(time_cell_text("raw", Ok("2024-01-05 00:00:00".to_string())), "2024-01-05 00:00:00");
}

#[test]
fn layouts_chosen_by_content() {
    assert_eq!(candidate_layouts("2024-01-05T00:00:00").unwrap().0, "%Y-%m-%dT%H:%M:%S");
    assert_eq!(candidate_layouts("2024/01/05 00:00:00").unwrap().1, "%Y/%m/%d %H:%M:%S");
    assert!(candidate_layouts("  20240105 ").is_none());
}

#[test]
fn measurements_filtered() {
    assert_eq!(measurement_value("1.25", true), Some("1.25".to_string()));
    assert_eq!(measurement_value("1.25(C)", true), None);
    assert_eq!(measurement_value("0.3(RM)", true), None);
    assert_eq!(measurement_value("", true), None);
    assert_eq!(measurement_value("n/a", false), None);
}

#[test]
fn headers_located() {
    let headers: Vec<String> = vec!["时间", " NO₃⁻(μg/m³) ", "", "时间"].into_iter().map(String::from).collect();
    assert_eq!(header_column(&headers, "时间"), Some(3));
    assert_eq!(header_column(&headers, "NO₃⁻(μg/m³)"), Some(1));
    assert_eq!(header_column(&headers, "K⁺(μg/m³)"), None);
    assert_eq!(locate_columns(&headers), Err(2));
}

#[test]
fn all_reshape_columns_located() {
    let headers: Vec<String> = (0..RESHAPE_COLUMNS).rev().map(|k| reshape_title(k).to_string()).collect();
    let cols = locate_columns(&headers).unwrap();
    assert_eq!(cols, vec![8, 7, 6, 5, 4, 3, 2, 1, 0]);
}

#[test]
fn sheets_renamed() {
    assert_eq!(renamed_sheet_name("甲烷非甲烷分析仪"), "NMHC监测仪");
    assert_eq!(renamed_sheet_name("VOCs在线监测仪"), "VOCs监测仪");
    assert_eq!(renamed_sheet_name("Sheet1"), "Sheet1");
}

#[test]
fn output_names() {
    assert_eq!(processed_output_path(Some("45vocs2.xlsx")), "processed_45vocs2.xlsx");
    assert_eq!(processed_output_path(None), "processed_output.xlsx");
}

#[test]
fn text_helpers() {
    assert_eq!(trim_text("\u{3000} a b \t\n"), "a b");
    assert_eq!(trim_text("   "), "");
    assert_eq!(replace_text("aaaa", "aa", "b"), "bb");
    assert_eq!(replace_text("abcabc", "c", ""), "abab");
}
