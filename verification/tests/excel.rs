use dtcore::excel::{
    bool_column, infer_column_type, int_column, range_to_table, resolve_sheet, sheet_not_found_message, Cell,
    InferredType, SheetChoice, SheetTable,
};
use dtcore::reader::ReadOptions;

fn s(x: &str) -> Cell {
    Cell::String(x.to_string())
}

#[test]
fn test_infer_int_column() {
    let cells = vec![Cell::Int(1), Cell::Int(2), Cell::Empty, Cell::Int(4)];
    assert_eq!(infer_column_type(&cells), InferredType::Int);
}

#[test]
fn test_infer_float_when_mixed_int_float() {
    let cells = vec![Cell::Int(1), Cell::Float(2.5f64.to_bits()), Cell::Int(3)];
    assert_eq!(infer_column_type(&cells), InferredType::Float);
}

#[test]
fn test_infer_string_trumps_all() {
    let cells = vec![Cell::Int(1), s("hello"), Cell::Float(3.0f64.to_bits())];
    assert_eq!(infer_column_type(&cells), InferredType::String);
}

#[test]
fn test_infer_empty_column() {
    let cells = vec![Cell::Empty, Cell::Empty];
    assert_eq!(infer_column_type(&cells), InferredType::Empty);
}

#[test]
fn test_infer_bool_column() {
    let cells = vec![Cell::Bool(true), Cell::Bool(false), Cell::Empty];
    assert_eq!(infer_column_type(&cells), InferredType::Bool);
}

#[test]
fn infer_other_kinds() {
    assert_eq!(infer_column_type(&[]), InferredType::Empty);
    let dt = Cell::DateTime(45000.5f64.to_bits());
    assert_eq!(
        infer_column_type(&[Cell::Empty, Cell::DateTime(1), dt]),
        InferredType::DateTime
    );
    // a date-time beside a boolean falls back to text
    assert_eq!(
        infer_column_type(&[Cell::DateTime(1), Cell::Bool(true)]),
        InferredType::String
    );
    // a date-time beside a number reads as a number
    assert_eq!(
        infer_column_type(&[Cell::DateTime(1), Cell::Int(3)]),
        InferredType::Int
    );
    assert_eq!(
        infer_column_type(&[Cell::Bool(true), Cell::Float(0)]),
        InferredType::Float
    );
    assert_eq!(
        infer_column_type(&[Cell::Error("#DIV/0!".to_string()), Cell::Int(1)]),
        InferredType::String
    );
    assert_eq!(
        infer_column_type(&[Cell::DurationIso("PT1H".to_string())]),
        InferredType::String
    );
}

#[test]
fn test_empty_range() {
    let rows: Vec<Vec<Cell>> = Vec::new();
    assert!(matches!(range_to_table(&rows, 0), SheetTable::Empty));
}

#[test]
fn test_range_to_dataframe_skip_empty_range() {
    let rows: Vec<Vec<Cell>> = Vec::new();
    assert!(matches!(range_to_table(&rows, 0), SheetTable::Empty));
    assert!(matches!(range_to_table(&rows, 3), SheetTable::Empty));
}

#[test]
fn test_sheet_resolution_default_opts() {
    let opts = ReadOptions::default();
    assert!(opts.sheet.is_none());
    assert!(opts.skip_rows.is_none());
}

#[test]
fn range_header_only() {
    let rows = vec![vec![s("a"), Cell::Int(7), Cell::Empty]];
    match range_to_table(&rows, 0) {
        SheetTable::HeaderOnly(h) => assert_eq!(h, vec!["a", "column_1", "column_2"]),
        other => panic!("unexpected {other:?}"),
    }
}

#[test]
fn range_with_data_and_skip() {
    let rows = vec![
        vec![s("report"), Cell::Empty],
        vec![s("name"), s("value")],
        vec![s("Alice"), Cell::Int(100)],
        vec![s("Bob"), Cell::Empty],
    ];
    match range_to_table(&rows, 1) {
        SheetTable::Columns(cols) => {
            assert_eq!(cols.len(), 2);
            assert_eq!(cols[0].name, "name");
            assert_eq!(cols[0].kind, InferredType::String);
            assert_eq!(cols[1].name, "value");
            assert_eq!(cols[1].kind, InferredType::Int);
            assert!(matches!(cols[1].cells[0], Cell::Int(100)));
            assert!(matches!(cols[1].cells[1], Cell::Empty));
        }
        other => panic!("unexpected {other:?}"),
    }
    // skipping every row leaves nothing
    assert!(matches!(range_to_table(&rows, 4), SheetTable::Empty));
    // a header row with no cells is no table
    let empty_rows = vec![Vec::new(), Vec::new()];
    assert!(matches!(range_to_table(&empty_rows, 0), SheetTable::Empty));
}

#[test]
fn sheet_resolution() {
    let names = vec!["Revenue".to_string(), "2".to_string(), "Costs".to_string()];
    assert_eq!(resolve_sheet(&names, None), SheetChoice::Index(0));
    assert_eq!(resolve_sheet(&names, Some("Costs")), SheetChoice::Index(2));
    // a sheet named "2" wins over position 2
    assert_eq!(resolve_sheet(&names, Some("2")), SheetChoice::Index(1));
    assert_eq!(resolve_sheet(&names, Some("0")), SheetChoice::Index(0));
    assert_eq!(resolve_sheet(&names, Some("+0")), SheetChoice::Index(0));
    assert_eq!(resolve_sheet(&names, Some("3")), SheetChoice::NotFound);
    assert_eq!(resolve_sheet(&names, Some("-1")), SheetChoice::NotFound);
    assert_eq!(resolve_sheet(&names, Some("revenue")), SheetChoice::NotFound);
    assert_eq!(
        resolve_sheet(&names, Some("99999999999999999999999")),
        SheetChoice::NotFound
    );
    assert_eq!(resolve_sheet(&Vec::new(), Some("x")), SheetChoice::NoSheets);
}

#[test]
fn sheet_not_found_lists_sheets() {
    let names = vec!["A".to_string(), "B".to_string()];
    assert_eq!(
        sheet_not_found_message("Z", &names),
        "Sheet 'Z' not found in workbook (available: A, B)"
    );
}

#[test]
fn typed_columns() {
    let cells = vec![Cell::Int(3), Cell::Empty, Cell::Bool(true), s("x"), Cell::Int(-1)];
    assert_eq!(int_column(&cells), vec![Some(3), None, None, None, Some(-1)]);
    assert_eq!(bool_column(&cells), vec![None, None, Some(true), None, None]);
    assert_eq!(int_column(&[]), Vec::<Option<i64>>::new());
}
