use dtcore::format::Format;
use dtcore::metadata::{format_file_size, format_header, format_name, FileInfo, SheetInfo};

#[test]
fn test_format_file_size() {
    assert_eq!(format_file_size(500), "500 B");
    assert_eq!(format_file_size(2_048), "2 KB");
    assert_eq!(format_file_size(1_500_000), "1.4 MB");
}

#[test]
fn file_size_boundaries_and_rounding() {
    assert_eq!(format_file_size(0), "0 B");
    assert_eq!(format_file_size(1023), "1023 B");
    assert_eq!(format_file_size(1024), "1 KB");
    // ties round to even
    assert_eq!(format_file_size(1536), "2 KB");
    assert_eq!(format_file_size(2560), "2 KB");
    assert_eq!(format_file_size(3584), "4 KB");
    assert_eq!(format_file_size(1_048_575), "1024 KB");
    assert_eq!(format_file_size(1_048_576), "1.0 MB");
    assert_eq!(format_file_size(1_310_720), "1.2 MB");
    assert_eq!(format_file_size(1_073_741_823), "1024.0 MB");
    assert_eq!(format_file_size(1_073_741_824), "1.0 GB");
    assert_eq!(format_file_size(5_476_083_302), "5.1 GB");
    assert_eq!(format_file_size(9_007_199_254_740_993), "8388608.0 GB");
    assert_eq!(format_file_size(u64::MAX), "17179869184.0 GB");
}

#[test]
fn file_size_matches_float_formatting() {
    let samples: [u64; 8] = [
        7,
        1_000,
        123_456,
        999_999,
        52_428_800,
        987_654_321,
        12_345_678_901_234,
        (1u64 << 60) + 12345,
    ];
    for b in samples {
        let expected = if b < 1_024 {
            format!("{b} B")
        } else if b < 1_048_576 {
            format!("{:.0} KB", b as f64 / 1_024.0)
        } else if b < 1_073_741_824 {
            format!("{:.1} MB", b as f64 / 1_048_576.0)
        } else {
            format!("{:.1} GB", b as f64 / 1_073_741_824.0)
        };
        assert_eq!(format_file_size(b), expected);
    }
}

#[test]
fn test_format_name() {
    assert_eq!(format_name(Format::Csv), "CSV");
    assert_eq!(format_name(Format::Parquet), "Parquet");
    assert_eq!(format_name(Format::Excel), "Excel");
}

#[test]
fn format_names_all() {
    assert_eq!(format_name(Format::Tsv), "TSV");
    assert_eq!(format_name(Format::Arrow), "Arrow IPC");
    assert_eq!(format_name(Format::Json), "JSON");
    assert_eq!(format_name(Format::Ndjson), "NDJSON");
}

#[test]
fn test_format_header() {
    let info = FileInfo {
        file_size: 250_000,
        format: Format::Excel,
        sheets: vec![
            SheetInfo { name: "Sheet1".into(), rows: 100, cols: 5 },
            SheetInfo { name: "Sheet2".into(), rows: 50, cols: 3 },
        ],
    };
    let out = format_header("test.xlsx", &info);
    assert!(out.contains("# File: test.xlsx (244 KB) [Excel]"));
    assert!(out.contains("# Sheets: 2"));
    assert_eq!(out, "# File: test.xlsx (244 KB) [Excel]\n# Sheets: 2\n");
}

#[test]
fn test_format_header_single_sheet() {
    let info = FileInfo {
        file_size: 1_000,
        format: Format::Csv,
        sheets: vec![SheetInfo { name: "data".into(), rows: 10, cols: 3 }],
    };
    let out = format_header("data.csv", &info);
    assert!(out.contains("[CSV]"));
    assert!(!out.contains("Sheets"));
    assert_eq!(out, "# File: data.csv (1000 B) [CSV]\n");
}
