use dtcore::diff::{
    csv_quote, csv_row, format_csv_output, format_row_inline, format_text, CellChange, DiffResult,
    DiffRow, ModifiedRow, SheetSource,
};

fn strings(v: &[&str]) -> Vec<String> {
    v.iter().map(|s| s.to_string()).collect()
}

fn sample_result() -> DiffResult {
    DiffResult {
        headers: strings(&["ID", "Name", "Salary"]),
        key_columns: strings(&["ID"]),
        added: vec![DiffRow { values: strings(&["5", "Eve", "70000"]) }],
        removed: vec![DiffRow { values: strings(&["3", "Charlie", "88000"]) }],
        modified: vec![ModifiedRow {
            key: strings(&["1"]),
            changes: vec![CellChange {
                column: "Salary".to_string(),
                old_value: "95000".to_string(),
                new_value: "98000".to_string(),
            }],
        }],
        source_a: SheetSource { file_name: "old.csv".to_string(), sheet_name: "old.csv".to_string() },
        source_b: SheetSource { file_name: "new.csv".to_string(), sheet_name: "new.csv".to_string() },
    }
}

fn empty_result() -> DiffResult {
    DiffResult {
        headers: strings(&["a"]),
        key_columns: Vec::new(),
        added: Vec::new(),
        removed: Vec::new(),
        modified: Vec::new(),
        source_a: SheetSource { file_name: "a".to_string(), sheet_name: "a".to_string() },
        source_b: SheetSource { file_name: "b".to_string(), sheet_name: "b".to_string() },
    }
}

#[test]
fn row_inline() {
    assert_eq!(
        format_row_inline(&strings(&["Name", "Score"]), &strings(&["Alice", "90"])),
        "Name: \"Alice\"  Score: \"90\""
    );
    // pairs stop at the shorter list
    assert_eq!(format_row_inline(&strings(&["A", "B"]), &strings(&["1"])), "A: \"1\"");
    assert_eq!(format_row_inline(&Vec::new(), &strings(&["1"])), "");
}

#[test]
fn text_report_plain() {
    let r = sample_result();
    assert!(r.has_differences());
    let out = format_text(&r, false);
    assert_eq!(
        out,
        "--- old.csv\n+++ new.csv\n\n\
         Added: 1 | Removed: 1 | Modified: 1\n\n\
         - ID: \"3\"  Name: \"Charlie\"  Salary: \"88000\"\n\
         + ID: \"5\"  Name: \"Eve\"  Salary: \"70000\"\n\
         ~ ID: \"1\"\n    Salary: \"95000\" \u{2192} \"98000\"\n"
    );
}

#[test]
fn text_report_workbook_sheets() {
    let mut r = sample_result();
    r.source_a = SheetSource { file_name: "a.xlsx".to_string(), sheet_name: "Revenue".to_string() };
    r.source_b = SheetSource { file_name: "b.xlsx".to_string(), sheet_name: "b.xlsx".to_string() };
    let out = format_text(&r, false);
    assert!(out.starts_with("--- Revenue (a.xlsx)\n+++ b.xlsx\n\nAdded: 1"));
}

#[test]
fn text_report_colored() {
    let out = format_text(&sample_result(), true);
    assert!(out.contains("\x1b[31m- ID: \"3\""));
    assert!(out.contains("\x1b[32m+ ID: \"5\""));
    assert!(out.contains("\x1b[33m~ ID: \"1\"\x1b[0m\n"));
}

#[test]
fn text_report_no_differences() {
    let r = empty_result();
    assert!(!r.has_differences());
    assert_eq!(format_text(&r, true), "No differences found.\n");
}

#[test]
fn quoting() {
    assert_eq!(csv_quote("plain"), "plain");
    assert_eq!(csv_quote("a,b"), "\"a,b\"");
    assert_eq!(csv_quote("say \"hi\""), "\"say \"\"hi\"\"\"");
    assert_eq!(csv_quote("two\nlines"), "\"two\nlines\"");
    assert_eq!(csv_quote(""), "");
}

#[test]
fn csv_rows() {
    assert_eq!(csv_row(&strings(&["a", "b,c", ""])), "a,\"b,c\",");
    assert_eq!(csv_row(&[]), "");
}

#[test]
fn csv_report() {
    let out = format_csv_output(&sample_result());
    assert_eq!(
        out,
        "_status,ID,Name,Salary,_old_ID,_old_Name,_old_Salary\n\
         removed,3,Charlie,88000,,,\n\
         added,5,Eve,70000,,,\n\
         modified,1,,98000,,,95000\n"
    );
}

#[test]
fn csv_report_pads_short_rows() {
    let mut r = empty_result();
    r.headers = strings(&["x", "y"]);
    r.added = vec![DiffRow { values: strings(&["1"]) }];
    r.removed = vec![DiffRow { values: strings(&["1", "2", "3"]) }];
    assert_eq!(
        format_csv_output(&r),
        "_status,x,y,_old_x,_old_y\nremoved,1,2,3,,\nadded,1,,,\n"
    );
}

fn unquote(field: &str) -> String {
    if field.len() >= 2 && field.starts_with('"') && field.ends_with('"') {
        field[1..field.len() - 1].replace("\"\"", "\"")
    } else {
        field.to_string()
    }
}

#[test]
fn quoting_roundtrip() {
    for v in ["plain", "", "a,b", "\"", "\"\"", "x\"y\nz", "\"quoted\"", "tab\tok"] {
        assert_eq!(unquote(&csv_quote(v)), v);
    }
}

#[test]
fn csv_records_line_up_with_header() {
    let out = format_csv_output(&sample_result());
    let counts: Vec<usize> = out.lines().map(|l| l.split(',').count()).collect();
    assert_eq!(counts, vec![7, 7, 7, 7]);
}

/// Splits one CSV record per RFC 4180: commas outside quotes separate fields,
/// a quoted field loses its quotes and has its doubled quotes undone.
fn read_record(line: &str) -> Vec<String> {
    let mut fields = Vec::new();
    let mut cur = String::new();
    let mut quoted = false;
    let mut chars = line.chars().peekable();
    while let Some(c) = chars.next() {
        if quoted {
            if c == '"' {
                if chars.peek() == Some(&'"') {
                    cur.push('"');
                    chars.next();
                } else {
                    quoted = false;
                }
            } else {
                cur.push(c);
            }
        } else if c == '"' {
            quoted = true;
        } else if c == ',' {
            fields.push(std::mem::take(&mut cur));
        } else {
            cur.push(c);
        }
    }
    fields.push(cur);
    fields
}

#[test]
fn csv_row_reads_back() {
    let values = strings(&["plain", "a,b", "say \"hi\"", "", "two\nlines", "\"", ",\",\""]);
    let row = csv_row(&values);
    assert_eq!(read_record(&row), values);
    assert_eq!(read_record(&csv_row(&strings(&[""]))), strings(&[""]));
}
