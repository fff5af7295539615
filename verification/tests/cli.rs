use dtcore::cli::{
    cat_exit_code, cat_output, diff_exit_code, diff_output, diff_sheet_name, display_plan,
    check_diff_formats, display_sheet, lists_sheets, DiffError, DiffOutput,
    match_sheet_info, parse_column_list, parse_key_columns, row_count_message, sample_size,
    sheet_info_from_df, sheet_line, validate_cat_args, validate_filter_args, ArgConflict,
    CatFlags, CatOutput, DisplayPlan,
};
use dtcore::diff::{DiffResult, DiffRow, SheetSource};
use dtcore::format::Format;
use dtcore::metadata::SheetInfo;

fn flags() -> CatFlags {
    CatFlags {
        schema: false,
        describe: false,
        info: false,
        all: false,
        csv: false,
        head: None,
        tail: None,
        sample: None,
    }
}

#[test]
fn cat_conflicts() {
    assert_eq!(validate_cat_args(&flags()), Ok(()));
    let f = CatFlags { schema: true, describe: true, ..flags() };
    assert_eq!(validate_cat_args(&f), Err(ArgConflict::SchemaDescribe));
    let f = CatFlags { sample: Some(3), head: Some(2), ..flags() };
    assert_eq!(validate_cat_args(&f), Err(ArgConflict::SampleHead));
    let f = CatFlags { sample: Some(3), tail: Some(2), ..flags() };
    assert_eq!(validate_cat_args(&f), Err(ArgConflict::SampleTail));
    let f = CatFlags { sample: Some(3), all: true, ..flags() };
    assert_eq!(validate_cat_args(&f), Err(ArgConflict::SampleAll));
    let f = CatFlags { sample: Some(3), schema: true, ..flags() };
    assert_eq!(validate_cat_args(&f), Err(ArgConflict::SampleSchema));
    let f = CatFlags { sample: Some(3), describe: true, ..flags() };
    assert_eq!(validate_cat_args(&f), Err(ArgConflict::SampleDescribe));
    let f = CatFlags { sample: Some(3), info: true, ..flags() };
    assert_eq!(validate_cat_args(&f), Err(ArgConflict::SampleInfo));
    // the modes exclude one another
    let f = CatFlags { info: true, schema: true, ..flags() };
    assert_eq!(validate_cat_args(&f), Err(ArgConflict::SchemaInfo));
    let f = CatFlags { info: true, describe: true, ..flags() };
    assert_eq!(validate_cat_args(&f), Err(ArgConflict::DescribeInfo));
    let f = CatFlags { info: true, schema: true, describe: true, ..flags() };
    assert_eq!(validate_cat_args(&f), Err(ArgConflict::SchemaDescribe));
    assert!(ArgConflict::SchemaInfo.message().contains("mutually exclusive"));
    assert_eq!(
        ArgConflict::DescribeInfo.message(),
        "--describe and --info are mutually exclusive"
    );
    assert_eq!(
        ArgConflict::SampleHead.message(),
        "--sample and --head are mutually exclusive"
    );
}

#[test]
fn filter_conflicts() {
    assert_eq!(validate_filter_args(Some(1), Some(2)), Err(ArgConflict::HeadTail));
    assert_eq!(validate_filter_args(Some(1), None), Ok(()));
    assert_eq!(
        ArgConflict::HeadTail.message(),
        "--head and --tail are mutually exclusive"
    );
}

#[test]
fn display_plans() {
    assert_eq!(display_plan(Some(3), Some(2), false, 10), DisplayPlan::HeadTail(3, 2));
    assert_eq!(display_plan(Some(3), None, false, 10), DisplayPlan::Head(3));
    assert_eq!(display_plan(None, Some(2), false, 10), DisplayPlan::Tail(2));
    assert_eq!(display_plan(None, None, false, 50), DisplayPlan::All);
    assert_eq!(display_plan(None, None, false, 51), DisplayPlan::HeadTail(25, 25));
    assert_eq!(display_plan(None, None, true, 60), DisplayPlan::All);
}

#[test]
fn cat_outputs() {
    assert_eq!(cat_output(&flags(), true, 0), CatOutput::EmptySheet);
    let f = CatFlags { schema: true, csv: true, ..flags() };
    assert_eq!(cat_output(&f, false, 3), CatOutput::Schema);
    let f = CatFlags { describe: true, csv: true, ..flags() };
    assert_eq!(cat_output(&f, false, 3), CatOutput::Describe);
    let f = CatFlags { csv: true, ..flags() };
    assert_eq!(cat_output(&f, false, 3), CatOutput::Csv);
    assert_eq!(cat_output(&flags(), false, 3), CatOutput::Table(DisplayPlan::All));
}

#[test]
fn sheet_listing_and_sampling() {
    assert!(lists_sheets(Format::Excel, false, 2));
    assert!(!lists_sheets(Format::Excel, true, 2));
    assert!(!lists_sheets(Format::Excel, false, 1));
    assert!(!lists_sheets(Format::Csv, false, 3));
    assert_eq!(sample_size(Some(5), 10), Some(5));
    assert_eq!(sample_size(Some(100), 3), None);
    assert_eq!(sample_size(None, 3), None);
}

#[test]
fn sheet_lines() {
    let s = SheetInfo { name: "Revenue".to_string(), rows: 13, cols: 4 };
    assert_eq!(sheet_line(&s), "  Revenue (12 rows x 4 cols)");
    let e = SheetInfo { name: "Empty".to_string(), rows: 0, cols: 0 };
    assert_eq!(sheet_line(&e), "  Empty (0 rows x 0 cols)");
    let d = sheet_info_from_df("data.csv", 2, 3);
    assert_eq!((d.name.as_str(), d.rows, d.cols), ("data.csv", 3, 3));
}

#[test]
fn sheet_matching() {
    let sheets = vec![
        SheetInfo { name: "A".to_string(), rows: 1, cols: 1 },
        SheetInfo { name: "B".to_string(), rows: 1, cols: 1 },
        SheetInfo { name: "A".to_string(), rows: 1, cols: 1 },
    ];
    assert_eq!(match_sheet_info(&sheets, "B"), Some(1));
    assert_eq!(match_sheet_info(&sheets, "1"), Some(1));
    // position 2 holds a repeated name, whose first position is 0
    assert_eq!(match_sheet_info(&sheets, "2"), None);
    assert_eq!(match_sheet_info(&sheets, "C"), None);
}

#[test]
fn exit_codes() {
    assert_eq!(cat_exit_code("--schema and --describe are mutually exclusive"), 2);
    assert_eq!(cat_exit_code("unknown format: \"word\""), 2);
    assert_eq!(cat_exit_code("invalid value"), 2);
    assert_eq!(cat_exit_code("file not found: x.csv"), 1);
    let mut r = DiffResult {
        headers: Vec::new(),
        key_columns: Vec::new(),
        added: Vec::new(),
        removed: Vec::new(),
        modified: Vec::new(),
        source_a: SheetSource { file_name: "a".to_string(), sheet_name: "a".to_string() },
        source_b: SheetSource { file_name: "b".to_string(), sheet_name: "b".to_string() },
    };
    assert_eq!(diff_exit_code(&r), 0);
    r.added.push(DiffRow { values: Vec::new() });
    assert_eq!(diff_exit_code(&r), 1);
}

#[test]
fn lists_from_command_line() {
    assert_eq!(parse_key_columns("Date, Ticker"), vec!["Date", "Ticker"]);
    assert_eq!(parse_key_columns("ID"), vec!["ID"]);
    assert_eq!(parse_key_columns("a,,b "), vec!["a", "", "b"]);
    assert_eq!(parse_column_list(" State ,City,,Amount,"), vec!["State", "City", "Amount"]);
    assert_eq!(parse_column_list(""), Vec::<String>::new());
}

#[test]
fn row_counts() {
    assert_eq!(row_count_message(0), "0 rows");
    assert_eq!(row_count_message(1), "1 row");
    assert_eq!(row_count_message(12), "12 rows");
}

#[test]
fn diff_labels() {
    assert_eq!(diff_sheet_name(Format::Excel, Some("Revenue"), "a.xlsx"), "Revenue");
    assert_eq!(diff_sheet_name(Format::Excel, None, "a.xlsx"), "a.xlsx");
    assert_eq!(diff_sheet_name(Format::Csv, Some("Revenue"), "a.csv"), "a.csv");
}

#[test]
fn displayed_sheet() {
    let sheets = vec![
        SheetInfo { name: "Revenue".to_string(), rows: 13, cols: 4 },
        SheetInfo { name: "Costs".to_string(), rows: 5, cols: 2 },
    ];
    let d = display_sheet(Format::Csv, &sheets, Some("Costs"), "data.csv", 9, 3);
    assert_eq!((d.name.as_str(), d.rows, d.cols), ("data.csv", 10, 3));
    let d = display_sheet(Format::Excel, &sheets, Some("Costs"), "book.xlsx", 9, 3);
    assert_eq!((d.name.as_str(), d.rows, d.cols), ("Costs", 5, 2));
    let d = display_sheet(Format::Excel, &sheets, Some("1"), "book.xlsx", 9, 3);
    assert_eq!((d.name.as_str(), d.rows, d.cols), ("Costs", 5, 2));
    let d = display_sheet(Format::Excel, &sheets, Some("Other"), "book.xlsx", 9, 3);
    assert_eq!((d.name.as_str(), d.rows, d.cols), ("Other", 10, 3));
    let d = display_sheet(Format::Excel, &sheets, None, "book.xlsx", 9, 3);
    assert_eq!((d.name.as_str(), d.rows, d.cols), ("Revenue", 13, 4));
    let d = display_sheet(Format::Excel, &Vec::new(), None, "book.xlsx", 0, 0);
    assert_eq!((d.name.as_str(), d.rows, d.cols), ("book.xlsx", 1, 0));
}

#[test]
fn diff_outputs() {
    assert_eq!(diff_output(true, true, false, true), DiffOutput::Json);
    assert_eq!(diff_output(false, true, false, true), DiffOutput::Csv);
    assert_eq!(diff_output(false, false, false, true), DiffOutput::Text { color: true });
    assert_eq!(diff_output(false, false, true, true), DiffOutput::Text { color: false });
    assert_eq!(diff_output(false, false, false, false), DiffOutput::Text { color: false });
}

#[test]
fn diff_format_families() {
    assert_eq!(check_diff_formats(Format::Csv, Format::Tsv), Ok(()));
    assert_eq!(check_diff_formats(Format::Ndjson, Format::Json), Ok(()));
    assert_eq!(check_diff_formats(Format::Excel, Format::Excel), Ok(()));
    let e = check_diff_formats(Format::Csv, Format::Parquet);
    assert_eq!(e, Err(DiffError::IncompatibleFormats(Format::Csv, Format::Parquet)));
    assert_eq!(
        DiffError::IncompatibleFormats(Format::Csv, Format::Parquet).message(),
        "files have incompatible formats: Csv vs Parquet. Both files must use the same format family."
    );
    assert!(check_diff_formats(Format::Json, Format::Csv).is_err());
    assert!(check_diff_formats(Format::Arrow, Format::Parquet).is_err());
}
