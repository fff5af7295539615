use dtcore::diff::{CellChange, DiffResult, DiffRow, ModifiedRow, SheetSource};
use dtcore::json::{diff_json, format_json, JsonValue};
use serde_json::Value;

fn strings(v: &[&str]) -> Vec<String> {
    v.iter().map(|s| s.to_string()).collect()
}

fn result() -> DiffResult {
    DiffResult {
        headers: strings(&["ID", "Name", "Salary"]),
        key_columns: strings(&["ID"]),
        added: vec![DiffRow { values: strings(&["5", "Eve", "70000"]) }],
        removed: vec![DiffRow { values: strings(&["3", "Charlie", "88000"]) }],
        modified: vec![ModifiedRow {
            key: strings(&["1"]),
            changes: vec![CellChange {
                column: "Salary".to_string(),
                old_value: "95000".to_string(),
                new_value: "98000".to_string(),
            }],
        }],
        source_a: SheetSource { file_name: "old.csv".to_string(), sheet_name: "old.csv".to_string() },
        source_b: SheetSource { file_name: "new.csv".to_string(), sheet_name: "new.csv".to_string() },
    }
}

fn object(entries: &[(&str, Value)]) -> Value {
    let mut m = serde_json::Map::new();
    for (k, v) in entries {
        m.insert(k.to_string(), v.clone());
    }
    Value::Object(m)
}

fn text(s: &str) -> Value {
    Value::String(s.to_string())
}

fn names(v: &JsonValue) -> Vec<String> {
    match v {
        JsonValue::Obj(es) => es.iter().map(|(k, _)| k.clone()).collect(),
        _ => Vec::new(),
    }
}

#[test]
fn json_document_shape() {
    let doc = diff_json(&result());
    assert_eq!(names(&doc), strings(&["added", "removed", "modified"]));
    match &doc {
        JsonValue::Obj(es) => match &es[0].1 {
            JsonValue::Arr(rows) => {
                assert_eq!(rows.len(), 1);
                assert_eq!(names(&rows[0]), strings(&["ID", "Name", "Salary"]));
            }
            _ => panic!("added is not an array"),
        },
        _ => panic!("not an object"),
    }
}

#[test]
fn json_report_reads_back() {
    let out = format_json(&result());
    assert!(out.ends_with("}\n"));
    // pretty-printed: one entry per line, indented by two spaces
    assert!(out.starts_with("{\n  \""));
    let parsed: Value = serde_json::from_str(&out).unwrap();
    let expected = object(&[
        (
            "added",
            Value::Array(vec![object(&[
                ("ID", text("5")),
                ("Name", text("Eve")),
                ("Salary", text("70000")),
            ])]),
        ),
        (
            "removed",
            Value::Array(vec![object(&[
                ("ID", text("3")),
                ("Name", text("Charlie")),
                ("Salary", text("88000")),
            ])]),
        ),
        (
            "modified",
            Value::Array(vec![object(&[
                ("key", object(&[("ID", text("1"))])),
                (
                    "changes",
                    Value::Array(vec![object(&[
                        ("column", text("Salary")),
                        ("old", text("95000")),
                        ("new", text("98000")),
                    ])]),
                ),
            ])]),
        ),
    ]);
    assert_eq!(parsed, expected);
}

#[test]
fn json_report_empty_and_short_rows() {
    let mut r = result();
    r.added = vec![DiffRow { values: strings(&["7"]) }];
    r.removed = Vec::new();
    r.modified = Vec::new();
    let parsed: Value = serde_json::from_str(&format_json(&r)).unwrap();
    let expected = object(&[
        ("added", Value::Array(vec![object(&[("ID", text("7"))])])),
        ("removed", Value::Array(Vec::new())),
        ("modified", Value::Array(Vec::new())),
    ]);
    assert_eq!(parsed, expected);
}

#[test]
fn json_report_escapes_strings() {
    let mut r = result();
    r.added = vec![DiffRow { values: strings(&["say \"hi\"", "a\nb", "x"]) }];
    let out = format_json(&r);
    assert!(out.contains("\"say \\\"hi\\\"\""));
    assert!(out.contains("\"a\\nb\""));
}
