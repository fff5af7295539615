use dtcore::format::Format;
use dtcore::metadata::SheetInfo;
use dtcore::reader::{csv_separator, file_info, reader_for, skip_window, ReaderKind};
use dtcore::writer::{write_plan, WriteError, WritePlan};

#[test]
fn readers_by_format() {
    assert_eq!(reader_for(Format::Csv), ReaderKind::Delimited);
    assert_eq!(reader_for(Format::Tsv), ReaderKind::Delimited);
    assert_eq!(reader_for(Format::Parquet), ReaderKind::Parquet);
    assert_eq!(reader_for(Format::Arrow), ReaderKind::Arrow);
    assert_eq!(reader_for(Format::Json), ReaderKind::Json);
    assert_eq!(reader_for(Format::Ndjson), ReaderKind::JsonLines);
    assert_eq!(reader_for(Format::Excel), ReaderKind::Excel);
}

#[test]
fn skip_windows() {
    // 5 rows, skip 2 -> 3 rows remain
    assert_eq!(skip_window(Some(2), 5), Some((2, 3)));
    assert_eq!(skip_window(Some(0), 2), None);
    // skip >= height leaves the table as it is
    assert_eq!(skip_window(Some(10), 2), None);
    assert_eq!(skip_window(Some(2), 2), None);
    assert_eq!(skip_window(None, 2), None);
}

#[test]
fn separators() {
    assert_eq!(csv_separator(Some(b'|'), Some(b"a,b\n")), b'|');
    assert_eq!(csv_separator(None, Some(b"a\tb\n1\t2\n")), b'\t');
    assert_eq!(csv_separator(None, None), b',');
}

#[test]
fn info_lists_sheets_of_workbooks_only() {
    let sheets = || vec![SheetInfo { name: "S".to_string(), rows: 2, cols: 1 }];
    assert_eq!(file_info(10, Format::Excel, sheets()).sheets.len(), 1);
    assert_eq!(file_info(10, Format::Csv, sheets()).sheets.len(), 0);
}

#[test]
fn write_plans() {
    assert_eq!(write_plan(Format::Csv, false), Ok(WritePlan::Delimited { separator: b',' }));
    assert_eq!(write_plan(Format::Tsv, true), Ok(WritePlan::Delimited { separator: b'\t' }));
    assert_eq!(write_plan(Format::Json, false), Ok(WritePlan::Json { lines: false }));
    assert_eq!(write_plan(Format::Ndjson, false), Ok(WritePlan::Json { lines: true }));
    assert_eq!(write_plan(Format::Parquet, true), Ok(WritePlan::Parquet));
    assert_eq!(
        write_plan(Format::Parquet, false),
        Err(WriteError::PathRequired(Format::Parquet))
    );
    assert_eq!(write_plan(Format::Arrow, false), Err(WriteError::PathRequired(Format::Arrow)));
    assert_eq!(write_plan(Format::Excel, true), Err(WriteError::ExcelUnsupported));
    assert_eq!(
        WriteError::ExcelUnsupported.message(),
        "writing Excel format is not supported; use csv or parquet"
    );
    assert_eq!(
        WriteError::PathRequired(Format::Arrow).message(),
        "--convert arrow requires -o PATH"
    );
    assert_eq!(
        WriteError::PathRequired(Format::Parquet).message(),
        "--convert parquet requires -o PATH"
    );
}

#[test]
fn write_arrow_no_path_errors() {
    assert!(write_plan(Format::Arrow, false).is_err());
}

#[test]
fn write_parquet_no_path_errors() {
    assert!(write_plan(Format::Parquet, false).is_err());
}

#[test]
fn write_tsv_uses_tab() {
    match write_plan(Format::Tsv, true) {
        Ok(WritePlan::Delimited { separator }) => assert_ne!(separator, b','),
        other => panic!("unexpected {other:?}"),
    }
}
