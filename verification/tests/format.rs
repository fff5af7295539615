use dtcore::format::{
    detect_by_extension, detect_by_magic, detect_csv_delimiter, detect_format, extension_of,
    format_for_extension, parse_format_str, Format, FormatError,
};

// ── parse_format_str ──────────────────────────────────────────────────────

#[test]
fn parse_csv() {
    assert_eq!(parse_format_str("csv").unwrap(), Format::Csv);
}

#[test]
fn parse_tsv() {
    assert_eq!(parse_format_str("tsv").unwrap(), Format::Tsv);
    assert_eq!(parse_format_str("tab").unwrap(), Format::Tsv);
}

#[test]
fn parse_parquet() {
    assert_eq!(parse_format_str("parquet").unwrap(), Format::Parquet);
    assert_eq!(parse_format_str("pq").unwrap(), Format::Parquet);
}

#[test]
fn parse_arrow() {
    assert_eq!(parse_format_str("arrow").unwrap(), Format::Arrow);
    assert_eq!(parse_format_str("feather").unwrap(), Format::Arrow);
    assert_eq!(parse_format_str("ipc").unwrap(), Format::Arrow);
}

#[test]
fn parse_json() {
    assert_eq!(parse_format_str("json").unwrap(), Format::Json);
}

#[test]
fn parse_ndjson() {
    assert_eq!(parse_format_str("ndjson").unwrap(), Format::Ndjson);
    assert_eq!(parse_format_str("jsonl").unwrap(), Format::Ndjson);
}

#[test]
fn parse_excel() {
    assert_eq!(parse_format_str("excel").unwrap(), Format::Excel);
    assert_eq!(parse_format_str("xlsx").unwrap(), Format::Excel);
    assert_eq!(parse_format_str("xls").unwrap(), Format::Excel);
    assert_eq!(parse_format_str("xlsb").unwrap(), Format::Excel);
    assert_eq!(parse_format_str("ods").unwrap(), Format::Excel);
}

#[test]
fn parse_unknown_errors() {
    assert!(parse_format_str("unknown").is_err());
    assert!(parse_format_str("").is_err());
}

#[test]
fn parse_case_insensitive() {
    assert_eq!(parse_format_str("CSV").unwrap(), Format::Csv);
    assert_eq!(parse_format_str("Parquet").unwrap(), Format::Parquet);
    assert_eq!(parse_format_str("NDJSON").unwrap(), Format::Ndjson);
}

#[test]
fn parse_unknown_reports_lowercased_name() {
    assert_eq!(
        parse_format_str("XLSM"),
        Err(FormatError::UnknownFormat("xlsm".to_string()))
    );
}

#[test]
fn parse_mixed_case_and_non_ascii() {
    assert_eq!(parse_format_str("JsOnL").unwrap(), Format::Ndjson);
    assert!(parse_format_str("csv ").is_err());
    assert!(parse_format_str("ćsv").is_err());
}

// ── detect_by_extension ───────────────────────────────────────────────────

fn ext_path(ext: &str) -> String {
    format!("file.{ext}")
}

#[test]
fn ext_csv() {
    assert_eq!(detect_by_extension(&ext_path("csv")).unwrap(), Format::Csv);
}

#[test]
fn ext_tsv() {
    assert_eq!(detect_by_extension(&ext_path("tsv")).unwrap(), Format::Tsv);
    assert_eq!(detect_by_extension(&ext_path("tab")).unwrap(), Format::Tsv);
}

#[test]
fn ext_parquet() {
    assert_eq!(
        detect_by_extension(&ext_path("parquet")).unwrap(),
        Format::Parquet
    );
    assert_eq!(detect_by_extension(&ext_path("pq")).unwrap(), Format::Parquet);
}

#[test]
fn ext_arrow() {
    assert_eq!(detect_by_extension(&ext_path("arrow")).unwrap(), Format::Arrow);
    assert_eq!(
        detect_by_extension(&ext_path("feather")).unwrap(),
        Format::Arrow
    );
    assert_eq!(detect_by_extension(&ext_path("ipc")).unwrap(), Format::Arrow);
}

#[test]
fn ext_json() {
    assert_eq!(detect_by_extension(&ext_path("json")).unwrap(), Format::Json);
}

#[test]
fn ext_ndjson() {
    assert_eq!(
        detect_by_extension(&ext_path("ndjson")).unwrap(),
        Format::Ndjson
    );
    assert_eq!(detect_by_extension(&ext_path("jsonl")).unwrap(), Format::Ndjson);
}

#[test]
fn ext_excel() {
    assert_eq!(detect_by_extension(&ext_path("xlsx")).unwrap(), Format::Excel);
    assert_eq!(detect_by_extension(&ext_path("xls")).unwrap(), Format::Excel);
    assert_eq!(detect_by_extension(&ext_path("xlsb")).unwrap(), Format::Excel);
    assert_eq!(detect_by_extension(&ext_path("ods")).unwrap(), Format::Excel);
}

#[test]
fn ext_unknown_errors() {
    assert!(detect_by_extension(&ext_path("txt")).is_err());
    assert!(detect_by_extension(&ext_path("bin")).is_err());
}

#[test]
fn ext_no_extension_errors() {
    assert!(detect_by_extension("myfile").is_err());
}

#[test]
fn ext_error_variants() {
    assert_eq!(
        detect_by_extension("dir/myfile"),
        Err(FormatError::NoExtension("dir/myfile".to_string()))
    );
    assert_eq!(
        detect_by_extension("data.TXT"),
        Err(FormatError::UnknownExtension("TXT".to_string()))
    );
    assert_eq!(detect_by_extension("DATA.CSV").unwrap(), Format::Csv);
    assert_eq!(detect_by_extension("a/b.c/data.tsv").unwrap(), Format::Tsv);
}

#[test]
fn ext_is_taken_from_the_file_name_only() {
    // the extension of a directory does not count
    assert_eq!(
        detect_by_extension("dir.csv/myfile"),
        Err(FormatError::NoExtension("dir.csv/myfile".to_string()))
    );
    assert_eq!(detect_by_extension("out.d/data.parquet/").unwrap(), Format::Parquet);
    assert_eq!(
        detect_by_extension("data.csv/.."),
        Err(FormatError::NoExtension("data.csv/..".to_string()))
    );
}

#[test]
fn ext_hidden_file_has_no_extension() {
    assert_eq!(
        detect_by_extension(".csv"),
        Err(FormatError::NoExtension(".csv".to_string()))
    );
    assert_eq!(detect_by_extension(".hidden.csv").unwrap(), Format::Csv);
}

#[test]
fn extension_rules() {
    assert_eq!(extension_of("a.tar.gz"), Some("gz".to_string()));
    assert_eq!(extension_of("a."), Some("".to_string()));
    assert_eq!(extension_of(".bashrc"), None);
    assert_eq!(extension_of("noext"), None);
    assert_eq!(extension_of(".a.b"), Some("b".to_string()));
}

#[test]
fn format_for_extension_cases() {
    assert_eq!(format_for_extension("p", Some("PQ")).unwrap(), Format::Parquet);
    assert_eq!(
        format_for_extension("p", None),
        Err(FormatError::NoExtension("p".to_string()))
    );
    assert_eq!(
        format_for_extension("p", Some("doc")),
        Err(FormatError::UnknownExtension("doc".to_string()))
    );
}

// ── detect_by_magic ───────────────────────────────────────────────────────

#[test]
fn magic_parquet() {
    assert_eq!(detect_by_magic(b"PAR1\x00\x01\x02\x03"), Some(Format::Parquet));
}

#[test]
fn magic_arrow() {
    assert_eq!(detect_by_magic(b"ARROW1\x00\x00"), Some(Format::Arrow));
}

#[test]
fn magic_xlsx() {
    assert_eq!(
        detect_by_magic(&[0x50, 0x4B, 0x03, 0x04, 0x00, 0x00, 0x00, 0x00]),
        Some(Format::Excel)
    );
}

#[test]
fn magic_xls_ole() {
    assert_eq!(
        detect_by_magic(&[0xD0, 0xCF, 0x11, 0xE0, 0x00, 0x00, 0x00, 0x00]),
        Some(Format::Excel)
    );
}

#[test]
fn magic_json_array() {
    assert_eq!(detect_by_magic(b"[{\"a\":1}]"), Some(Format::Json));
}

#[test]
fn magic_ndjson() {
    assert_eq!(detect_by_magic(b"{\"a\":1}\n{\"b\":2}\n"), Some(Format::Ndjson));
}

#[test]
fn magic_csv_returns_none() {
    assert_eq!(detect_by_magic(b"a,b,c\n1,2,3\n"), None);
}

#[test]
fn magic_edges() {
    assert_eq!(detect_by_magic(b""), None);
    assert_eq!(detect_by_magic(b"PAR"), None);
    assert_eq!(detect_by_magic(b"PK"), Some(Format::Excel));
    assert_eq!(detect_by_magic(b"  \t\n["), Some(Format::Json));
    // only the first eight bytes are looked at
    assert_eq!(detect_by_magic(b"        ["), None);
    // vertical tab is not ASCII white space for this purpose
    assert_eq!(detect_by_magic(b"\x0b["), None);
}

// ── detect_format ─────────────────────────────────────────────────────────

#[test]
fn detect_override_wins_over_extension() {
    let result = detect_format("/tmp/.tmpA1b2C3.csv", Some("parquet"), b"a,b\n1,2\n").unwrap();
    assert_eq!(result, Format::Parquet);
}

#[test]
fn detect_magic_beats_extension() {
    let result = detect_format("/tmp/.tmpA1b2C3.csv", None, b"PAR1\x00\x01\x02\x03").unwrap();
    assert_eq!(result, Format::Parquet);
}

#[test]
fn detect_falls_back_to_extension() {
    let result = detect_format("/tmp/.tmpA1b2C3.tsv", None, b"a\tb\n1\t2\n").unwrap();
    assert_eq!(result, Format::Tsv);
}

#[test]
fn detect_bad_override_errors() {
    assert_eq!(
        detect_format("x.csv", Some("Word"), b""),
        Err(FormatError::UnknownFormat("word".to_string()))
    );
}

// ── same_family ───────────────────────────────────────────────────────────

#[test]
fn same_family_csv_tsv() {
    assert!(Format::Csv.same_family(Format::Tsv));
    assert!(Format::Tsv.same_family(Format::Csv));
}

#[test]
fn same_family_json_ndjson() {
    assert!(Format::Json.same_family(Format::Ndjson));
    assert!(Format::Ndjson.same_family(Format::Json));
}

#[test]
fn same_family_csv_parquet_different() {
    assert!(!Format::Csv.same_family(Format::Parquet));
    assert!(!Format::Parquet.same_family(Format::Csv));
}

#[test]
fn same_family_same_format() {
    assert!(Format::Csv.same_family(Format::Csv));
    assert!(Format::Parquet.same_family(Format::Parquet));
}

#[test]
fn same_family_is_an_equivalence() {
    let all = [
        Format::Csv,
        Format::Tsv,
        Format::Parquet,
        Format::Arrow,
        Format::Json,
        Format::Ndjson,
        Format::Excel,
    ];
    for a in all {
        assert!(a.same_family(a));
        for b in all {
            assert_eq!(a.same_family(b), b.same_family(a));
            for c in all {
                if a.same_family(b) && b.same_family(c) {
                    assert!(a.same_family(c));
                }
            }
        }
    }
    assert!(!Format::Tsv.same_family(Format::Json));
    assert!(!Format::Arrow.same_family(Format::Parquet));
}

// ── detect_csv_delimiter ──────────────────────────────────────────────────

#[test]
fn delimiter_comma() {
    assert_eq!(detect_csv_delimiter(b"a,b,c\n1,2,3\n4,5,6\n"), b',');
}

#[test]
fn delimiter_tab() {
    assert_eq!(detect_csv_delimiter(b"a\tb\tc\n1\t2\t3\n4\t5\t6\n"), b'\t');
}

#[test]
fn delimiter_semicolon() {
    assert_eq!(detect_csv_delimiter(b"a;b;c\n1;2;3\n4;5;6\n"), b';');
}

#[test]
fn delimiter_edges() {
    // no lines, or no candidate anywhere
    assert_eq!(detect_csv_delimiter(b""), b',');
    assert_eq!(detect_csv_delimiter(b"\n\n"), b',');
    assert_eq!(detect_csv_delimiter(b"abc\ndef\n"), b',');
    // the least count per line decides: tabs on every line beat commas on one
    assert_eq!(detect_csv_delimiter(b"a,b,c\td\n1\t2\n"), b'\t');
    // a tie goes to the earlier candidate
    assert_eq!(detect_csv_delimiter(b"a,b;c\n"), b',');
    assert_eq!(detect_csv_delimiter(b"a,b\tc\n"), b',');
    assert_eq!(detect_csv_delimiter(b"a\tb;c\n"), b'\t');
    // a blank line among the first ten counts as no occurrence of any candidate
    assert_eq!(detect_csv_delimiter(b"a;b\n\n1;2\n"), b',');
    // a last line without a newline counts too
    assert_eq!(detect_csv_delimiter(b"a;b\n1"), b',');
    assert_eq!(detect_csv_delimiter(b"a;b\n1;2"), b';');
    // only the first ten lines count
    let mut s = Vec::new();
    for _ in 0..10 {
        s.extend_from_slice(b"a;b\n");
    }
    s.extend_from_slice(b"x,y,z\n");
    assert_eq!(detect_csv_delimiter(&s), b';');
}
