//! Spreadsheet logic: which sheet to read, how a range of cells becomes named
//! columns, and which type each column gets.
use crate::text::{
    chars_of, decimal, first_index, join, lemma_first_index_absent, lemma_first_index_at,
    lemma_first_index_in_range, lemma_join_step, parse_usize, push_decimal, push_field,
    push_str, push_string, spec_parse_usize,
};
use vstd::prelude::*;

verus! {

/// One spreadsheet cell, as the workbook reader hands it over. A float or a
/// date-time is carried as the bit pattern of its `f64` value; an error cell
/// as its rendered text.
#[derive(Debug)]
pub enum Cell {
    Empty,
    String(String),
    Float(u64),
    Int(i64),
    Bool(bool),
    DateTime(u64),
    DateTimeIso(String),
    DurationIso(String),
    Error(String),
}

/// The type a column of cells is read as.
#[derive(Debug, Clone, Copy, PartialEq, Eq, Structural)]
pub enum InferredType {
    Int,
    Float,
    String,
    Bool,
    DateTime,
    Empty,
}

/// A cell whose content reads as text.
pub open spec fn is_textual(c: Cell) -> bool {
    c is String || c is DateTimeIso || c is DurationIso || c is Error
}

pub open spec fn any_cell(cells: Seq<Cell>, p: spec_fn(Cell) -> bool) -> bool {
    exists|i: int| 0 <= i < cells.len() && p(#[trigger] cells[i])
}

/// The type of a column: empty when every cell is; text as soon as one cell is
/// text; date-time or boolean when those are the only kind present; float when
/// any float is present; integer when only integers are; text otherwise.
pub open spec fn spec_infer_column_type(cells: Seq<Cell>) -> InferredType {
    let has_string = any_cell(cells, |c: Cell| is_textual(c));
    let has_float = any_cell(cells, |c: Cell| c is Float);
    let has_int = any_cell(cells, |c: Cell| c is Int);
    let has_bool = any_cell(cells, |c: Cell| c is Bool);
    let has_datetime = any_cell(cells, |c: Cell| c is DateTime);
    if !any_cell(cells, |c: Cell| !(c is Empty)) {
        InferredType::Empty
    } else if has_string {
        InferredType::String
    } else if has_datetime && !has_int && !has_float && !has_bool {
        InferredType::DateTime
    } else if has_bool && !has_int && !has_float && !has_datetime {
        InferredType::Bool
    } else if has_float {
        InferredType::Float
    } else if has_int {
        InferredType::Int
    } else {
        InferredType::String
    }
}

/// What a column is read as, by the kinds of cell it holds: empty exactly when
/// every cell is; text as soon as one cell is text; float when a float is
/// present and no text; integer, boolean or date-time when every non-empty
/// cell is of that one kind.
pub proof fn lemma_column_type_by_cells(cells: Seq<Cell>)
    ensures
        (forall|i: int| 0 <= i < cells.len() ==> #[trigger] cells[i] is Empty) <==> spec_infer_column_type(
            cells,
        ) == InferredType::Empty,
        (exists|i: int| 0 <= i < cells.len() && is_textual(#[trigger] cells[i]))
            ==> spec_infer_column_type(cells) == InferredType::String,
        (forall|i: int| 0 <= i < cells.len() ==> !is_textual(#[trigger] cells[i])) && (exists|i: int|
            0 <= i < cells.len() && #[trigger] cells[i] is Float) ==> spec_infer_column_type(cells)
            == InferredType::Float,
        (exists|i: int| 0 <= i < cells.len() && #[trigger] cells[i] is Int) && (forall|i: int|
            0 <= i < cells.len() ==> #[trigger] cells[i] is Int || cells[i] is Empty)
            ==> spec_infer_column_type(cells) == InferredType::Int,
        (exists|i: int| 0 <= i < cells.len() && #[trigger] cells[i] is Bool) && (forall|i: int|
            0 <= i < cells.len() ==> #[trigger] cells[i] is Bool || cells[i] is Empty)
            ==> spec_infer_column_type(cells) == InferredType::Bool,
        (exists|i: int| 0 <= i < cells.len() && #[trigger] cells[i] is DateTime) && (forall|i: int|
            0 <= i < cells.len() ==> #[trigger] cells[i] is DateTime || cells[i] is Empty)
            ==> spec_infer_column_type(cells) == InferredType::DateTime,
{
    let has_any = any_cell(cells, |c: Cell| !(c is Empty));
    if has_any {
        let i = choose|i: int| 0 <= i < cells.len() && (|c: Cell| !(c is Empty))(#[trigger] cells[i]);
        assert(!(cells[i] is Empty));
    }
    if exists|i: int| 0 <= i < cells.len() && !(#[trigger] cells[i] is Empty) {
        let i = choose|i: int| 0 <= i < cells.len() && !(#[trigger] cells[i] is Empty);
        assert((|c: Cell| !(c is Empty))(cells[i]));
    }
    if exists|i: int| 0 <= i < cells.len() && is_textual(#[trigger] cells[i]) {
        let i = choose|i: int| 0 <= i < cells.len() && is_textual(#[trigger] cells[i]);
        assert((|c: Cell| is_textual(c))(cells[i]));
    }
    if exists|i: int| 0 <= i < cells.len() && #[trigger] cells[i] is Float {
        let i = choose|i: int| 0 <= i < cells.len() && #[trigger] cells[i] is Float;
        assert((|c: Cell| c is Float)(cells[i]));
    }
    if exists|i: int| 0 <= i < cells.len() && #[trigger] cells[i] is Int {
        let i = choose|i: int| 0 <= i < cells.len() && #[trigger] cells[i] is Int;
        assert((|c: Cell| c is Int)(cells[i]));
    }
    if exists|i: int| 0 <= i < cells.len() && #[trigger] cells[i] is Bool {
        let i = choose|i: int| 0 <= i < cells.len() && #[trigger] cells[i] is Bool;
        assert((|c: Cell| c is Bool)(cells[i]));
    }
    if exists|i: int| 0 <= i < cells.len() && #[trigger] cells[i] is DateTime {
        let i = choose|i: int| 0 <= i < cells.len() && #[trigger] cells[i] is DateTime;
        assert((|c: Cell| c is DateTime)(cells[i]));
    }
}

/// A single text cell makes the whole column text, whatever else it holds.
pub proof fn lemma_text_cell_makes_text_column(cells: Seq<Cell>, i: int)
    requires
        0 <= i < cells.len(),
        is_textual(cells[i]),
    ensures
        spec_infer_column_type(cells) == InferredType::String,
{
    assert(any_cell(cells, |c: Cell| is_textual(c)));
    assert(any_cell(cells, |c: Cell| !(c is Empty)));
}

/// Infer the type of a column from its cells (see `spec_infer_column_type`).
pub fn infer_column_type(cells: &[Cell]) -> (t: InferredType)
    ensures
        t == spec_infer_column_type(cells@),
{
    let mut has_int = false;
    let mut has_float = false;
    let mut has_string = false;
    let mut has_bool = false;
    let mut has_datetime = false;
    let mut all_empty = true;
    let mut i: usize = 0;
    while i < cells.len()
        invariant
            i <= cells@.len(),
            has_string == any_cell(cells@.take(i as int), |c: Cell| is_textual(c)),
            has_float == any_cell(cells@.take(i as int), |c: Cell| c is Float),
            has_int == any_cell(cells@.take(i as int), |c: Cell| c is Int),
            has_bool == any_cell(cells@.take(i as int), |c: Cell| c is Bool),
            has_datetime == any_cell(cells@.take(i as int), |c: Cell| c is DateTime),
            all_empty == !any_cell(cells@.take(i as int), |c: Cell| !(c is Empty)),
        decreases cells@.len() - i,
    {
        let ghost pre = cells@.take(i as int);
        let ghost post = cells@.take(i + 1);
        assert(post =~= pre.push(cells@[i as int]));
        match &cells[i] {
            Cell::Empty => {},
            Cell::String(_) | Cell::DateTimeIso(_) | Cell::DurationIso(_) | Cell::Error(_) => {
                has_string = true;
                all_empty = false;
            },
            Cell::Float(_) => {
                has_float = true;
                all_empty = false;
            },
            Cell::Int(_) => {
                has_int = true;
                all_empty = false;
            },
            Cell::Bool(_) => {
                has_bool = true;
                all_empty = false;
            },
            Cell::DateTime(_) => {
                has_datetime = true;
                all_empty = false;
            },
        }
        proof {
            let c = cells@[i as int];
            assert(post[i as int] == c);
            assert forall|p: spec_fn(Cell) -> bool|
                #![trigger any_cell(post, p)]
                any_cell(post, p) == (any_cell(pre, p) || p(c)) by {
                if any_cell(post, p) {
                    let j = choose|j: int| 0 <= j < post.len() && p(#[trigger] post[j]);
                    if j < i {
                        assert(pre[j] == post[j]);
                    }
                }
                if any_cell(pre, p) {
                    let j = choose|j: int| 0 <= j < pre.len() && p(#[trigger] pre[j]);
                    assert(post[j] == pre[j]);
                }
            }
        }
        i = i + 1;
    }
    assert(cells@.take(cells@.len() as int) =~= cells@);
    if all_empty {
        return InferredType::Empty;
    }
    if has_string {
        return InferredType::String;
    }
    if has_datetime && !has_int && !has_float && !has_bool {
        return InferredType::DateTime;
    }
    if has_bool && !has_int && !has_float && !has_datetime {
        return InferredType::Bool;
    }
    if has_float {
        return InferredType::Float;
    }
    if has_int {
        return InferredType::Int;
    }
    InferredType::String
}

/// Which sheet of a workbook to read.
#[derive(Debug, Clone, Copy, PartialEq, Eq, Structural)]
pub enum SheetChoice {
    /// The workbook has no sheets at all.
    NoSheets,
    /// The sheet at this position.
    Index(usize),
    /// The requested sheet is neither a sheet name nor a valid position.
    NotFound,
}

/// Sheet resolution: with no request, the first sheet; a request is first an
/// exact sheet name, then a 0-based position.
pub open spec fn spec_resolve_sheet(names: Seq<Seq<char>>, sheet: Option<Seq<char>>) -> SheetChoice {
    if names.len() == 0 {
        SheetChoice::NoSheets
    } else {
        match sheet {
            None => SheetChoice::Index(0),
            Some(s) => match first_index(names, s) {
                Some(i) => SheetChoice::Index(i as usize),
                None => match spec_parse_usize(s) {
                    Some(n) => if n < names.len() {
                        SheetChoice::Index(n as usize)
                    } else {
                        SheetChoice::NotFound
                    },
                    None => SheetChoice::NotFound,
                },
            },
        }
    }
}

/// A request picks a sheet by name before position: with no request the first
/// sheet; a name picks the first sheet of that name; a request that names no
/// sheet but reads as a number below the sheet count picks the sheet at that
/// 0-based position; anything else is not found. A workbook without sheets
/// has nothing to pick, and a picked position is always a sheet's.
pub proof fn lemma_resolve_sheet_by_name_then_position(names: Seq<Seq<char>>, s: Seq<char>)
    ensures
        names.len() == 0 ==> spec_resolve_sheet(names, Some(s)) == SheetChoice::NoSheets
            && spec_resolve_sheet(names, None) == SheetChoice::NoSheets,
        names.len() > 0 ==> spec_resolve_sheet(names, None) == SheetChoice::Index(0),
        forall|k: int|
            0 <= k < names.len() && #[trigger] names[k] == s && (forall|q: int|
                0 <= q < k ==> names[q] != s) ==> spec_resolve_sheet(names, Some(s))
                == SheetChoice::Index(k as usize),
        (forall|q: int| 0 <= q < names.len() ==> names[q] != s) && names.len() > 0 ==> (
        spec_resolve_sheet(names, Some(s)) == match spec_parse_usize(s) {
            Some(n) => if n < names.len() {
                SheetChoice::Index(n as usize)
            } else {
                SheetChoice::NotFound
            },
            None => SheetChoice::NotFound,
        }),
        spec_resolve_sheet(names, Some(s)) matches SheetChoice::Index(i) ==> i < names.len(),
{
    assert forall|k: int|
        0 <= k < names.len() && #[trigger] names[k] == s && (forall|q: int|
            0 <= q < k ==> names[q] != s) implies spec_resolve_sheet(names, Some(s))
        == SheetChoice::Index(k as usize) by {
        lemma_first_index_at(names, s, k);
    }
    if forall|q: int| 0 <= q < names.len() ==> names[q] != s {
        lemma_first_index_absent(names, s);
    }
    if first_index(names, s) is Some {
        lemma_first_index_in_range(names, s);
    }
}

/// The position of the first name equal to `x`.
pub(crate) fn position_of(names: &Vec<String>, x: &[char]) -> (r: Option<usize>)
    ensures
        match r {
            Some(i) => first_index(names.deep_view(), x@) == Some(i as int),
            None => first_index(names.deep_view(), x@) is None,
        },
{
    let mut i: usize = 0;
    assert(names.deep_view().skip(0) =~= names.deep_view());
    while i < names.len()
        invariant
            i <= names@.len(),
            first_index(names.deep_view(), x@) == match first_index(
                names.deep_view().skip(i as int),
                x@,
            ) {
                Some(j) => Some(j + i),
                None => None,
            },
        decreases names@.len() - i,
    {
        let ghost rest = names.deep_view().skip(i as int);
        assert(rest.drop_first() =~= names.deep_view().skip(i + 1));
        assert(rest[0] == names@[i as int]@);
        let n = chars_of(names[i].as_str());
        if crate::text::chars_eq(n.as_slice(), x) {
            return Some(i);
        }
        i = i + 1;
    }
    assert(names.deep_view().skip(i as int).len() == 0);
    None
}

/// Resolve the sheet to read (see `spec_resolve_sheet`).
pub fn resolve_sheet(sheet_names: &Vec<String>, sheet: Option<&str>) -> (r: SheetChoice)
    ensures
        r == spec_resolve_sheet(
            sheet_names.deep_view(),
            match sheet {
                Some(s) => Some(s@),
                None => None,
            },
        ),
{
    if sheet_names.len() == 0 {
        return SheetChoice::NoSheets;
    }
    match sheet {
        None => SheetChoice::Index(0),
        Some(s) => {
            let cs = chars_of(s);
            match position_of(sheet_names, cs.as_slice()) {
                Some(i) => SheetChoice::Index(i),
                None => match parse_usize(cs.as_slice()) {
                    Some(n) => if n < sheet_names.len() {
                        SheetChoice::Index(n)
                    } else {
                        SheetChoice::NotFound
                    },
                    None => SheetChoice::NotFound,
                },
            }
        },
    }
}

/// The message for a sheet request that matches nothing.
pub open spec fn spec_sheet_not_found(sheet: Seq<char>, names: Seq<Seq<char>>) -> Seq<char> {
    "Sheet '"@ + sheet + "' not found in workbook (available: "@ + join(names, ", "@) + ")"@
}

/// The message for a sheet request that matches nothing, listing the sheets.
pub fn sheet_not_found_message(sheet: &str, sheet_names: &Vec<String>) -> (s: String)
    ensures
        s@ == spec_sheet_not_found(sheet@, sheet_names.deep_view()),
{
    let ghost names = sheet_names.deep_view();
    let mut s = String::new();
    push_str(&mut s, "Sheet '");
    push_str(&mut s, sheet);
    push_str(&mut s, "' not found in workbook (available: ");
    let ghost base = s@;
    let mut i: usize = 0;
    assert(names.take(0) =~= Seq::<Seq<char>>::empty());
    while i < sheet_names.len()
        invariant
            names == sheet_names.deep_view(),
            i <= sheet_names@.len(),
            s@ == base + join(names.take(i as int), ", "@),
        decreases sheet_names@.len() - i,
    {
        proof {
            lemma_join_step(names, ", "@, i as int);
        }
        if i > 0 {
            push_str(&mut s, ", ");
        }
        push_string(&mut s, &sheet_names[i]);
        i = i + 1;
        assert(s@ =~= base + join(names.take(i as int), ", "@));
    }
    assert(names.take(sheet_names@.len() as int) =~= names);
    push_str(&mut s, ")");
    assert(s@ =~= spec_sheet_not_found(sheet@, names));
    s
}

/// A named, typed column of cells.
#[derive(Debug)]
pub struct TableColumn {
    pub name: String,
    pub kind: InferredType,
    pub cells: Vec<Cell>,
}

/// The shape a range of cells takes as a table.
#[derive(Debug)]
pub enum SheetTable {
    /// No rows, or no columns.
    Empty,
    /// A header row and nothing under it: the column names.
    HeaderOnly(Vec<String>),
    /// A header row and data: one column per position.
    Columns(Vec<TableColumn>),
}

/// The name a header cell gives its column: its text, or `column_<i>`.
pub open spec fn header_name(c: Cell, i: nat) -> Seq<char> {
    match c {
        Cell::String(s) => s@,
        _ => "column_"@ + decimal(i),
    }
}

/// The column names a header row gives.
pub open spec fn spec_headers(first: Seq<Cell>) -> Seq<Seq<char>> {
    Seq::new(first.len(), |i: int| header_name(first[i], i as nat))
}

/// The cells at position `col` down the data rows, a short row giving an
/// empty cell.
pub open spec fn column_of(data: Seq<Seq<Cell>>, col: int) -> Seq<Cell> {
    Seq::new(
        data.len(),
        |r: int|
            if col < data[r].len() {
                data[r][col]
            } else {
                Cell::Empty
            },
    )
}

/// The length of the longest row.
pub open spec fn table_width(rows: Seq<Seq<Cell>>) -> nat
    decreases rows.len(),
{
    if rows.len() == 0 {
        0
    } else {
        let w = table_width(rows.drop_last());
        if rows.last().len() > w {
            rows.last().len()
        } else {
            w
        }
    }
}

/// The rows left after skipping `skip` of them.
pub open spec fn rows_after(rows: Seq<Seq<Cell>>, skip: nat) -> Seq<Seq<Cell>> {
    if skip < rows.len() {
        rows.skip(skip as int)
    } else {
        Seq::<Seq<Cell>>::empty()
    }
}

/// The rows of a range, each as its cells.
pub open spec fn rows_view(rows: Seq<Vec<Cell>>) -> Seq<Seq<Cell>> {
    rows.map_values(|r: Vec<Cell>| r@)
}

/// No row after the first is longer than the first: a range's header row
/// spans the whole range.
pub open spec fn header_spans(t: Seq<Seq<Cell>>) -> bool {
    forall|r: int| 0 <= r < t.len() ==> #[trigger] t[r].len() <= t[0].len()
}

/// What a range becomes as a table once `skip` rows are dropped.
pub open spec fn table_matches(rows: Seq<Seq<Cell>>, skip: nat, table: SheetTable) -> bool {
    let t = rows_after(rows, skip);
    if t.len() == 0 || table_width(t) == 0 {
        table is Empty
    } else if t.len() == 1 {
        table matches SheetTable::HeaderOnly(h) && h.deep_view() == spec_headers(t[0])
    } else {
        table matches SheetTable::Columns(cols) && cols@.len() == t[0].len() && forall|c: int|
            0 <= c < cols@.len() ==> {
                &&& (#[trigger] cols@[c]).name@ == spec_headers(t[0])[c]
                &&& cols@[c].cells@ == column_of(t.skip(1), c)
                &&& cols@[c].kind == spec_infer_column_type(column_of(t.skip(1), c))
            }
    }
}

/// Once `skip` rows are dropped, the next row is the header row and every row
/// below it is data: column `c` of the table is named by header cell `c` (its
/// text, or `column_c` when it holds no text), and holds, for each data row in
/// order, that row's cell at position `c` (an empty cell where the row is
/// shorter).
pub proof fn lemma_table_from_rows(rows: Seq<Seq<Cell>>, skip: nat, table: SheetTable)
    requires
        table_matches(rows, skip, table),
        table is Columns,
    ensures
        skip + 2 <= rows.len(),
        forall|c: int|
            0 <= c < table->Columns_0@.len() ==> {
                &&& c < rows[skip as int].len()
                &&& (#[trigger] table->Columns_0@[c]).cells@.len() == rows.len() - skip - 1
                &&& (rows[skip as int][c] is String ==> table->Columns_0@[c].name@
                    == rows[skip as int][c]->String_0@)
                &&& (!(rows[skip as int][c] is String) ==> table->Columns_0@[c].name@ == "column_"@
                    + decimal(c as nat))
                &&& forall|r: int|
                    0 <= r < rows.len() - skip - 1 ==> #[trigger] table->Columns_0@[c].cells@[r] == if c
                        < rows[skip + 1 + r].len() {
                        rows[skip + 1 + r][c]
                    } else {
                        Cell::Empty
                    }
            },
{
    let t = rows_after(rows, skip);
    assert(t.len() >= 2);
    assert forall|c: int| 0 <= c < table->Columns_0@.len() implies {
        &&& c < rows[skip as int].len()
        &&& (#[trigger] table->Columns_0@[c]).cells@.len() == rows.len() - skip - 1
        &&& (rows[skip as int][c] is String ==> table->Columns_0@[c].name@
            == rows[skip as int][c]->String_0@)
        &&& (!(rows[skip as int][c] is String) ==> table->Columns_0@[c].name@ == "column_"@
            + decimal(c as nat))
        &&& forall|r: int|
            0 <= r < rows.len() - skip - 1 ==> #[trigger] table->Columns_0@[c].cells@[r] == if c
                < rows[skip + 1 + r].len() {
                rows[skip + 1 + r][c]
            } else {
                Cell::Empty
            }
    } by {
        assert(t[0] == rows[skip as int]);
        assert forall|r: int| 0 <= r < rows.len() - skip - 1 implies #[trigger] table->Columns_0@[
            c].cells@[r] == if c < rows[skip + 1 + r].len() {
            rows[skip + 1 + r][c]
        } else {
            Cell::Empty
        } by {
            assert(t.skip(1)[r] == rows[skip + 1 + r]);
        }
    }
}

/// A copy of a cell.
pub fn copy_cell(c: &Cell) -> (r: Cell)
    ensures
        r == *c,
{
    match c {
        Cell::Empty => Cell::Empty,
        Cell::String(s) => Cell::String(s.clone()),
        Cell::Float(f) => Cell::Float(*f),
        Cell::Int(i) => Cell::Int(*i),
        Cell::Bool(b) => Cell::Bool(*b),
        Cell::DateTime(d) => Cell::DateTime(*d),
        Cell::DateTimeIso(s) => Cell::DateTimeIso(s.clone()),
        Cell::DurationIso(s) => Cell::DurationIso(s.clone()),
        Cell::Error(s) => Cell::Error(s.clone()),
    }
}

/// The name a header cell gives the column at position `i`.
fn header_of(c: &Cell, i: usize) -> (s: String)
    ensures
        s@ == header_name(*c, i as nat),
{
    match c {
        Cell::String(s) => s.clone(),
        _ => {
            let mut s = String::new();
            push_str(&mut s, "column_");
            push_decimal(&mut s, i as u64);
            assert(s@ =~= "column_"@ + decimal(i as nat));
            s
        },
    }
}

proof fn lemma_width_bound(t: Seq<Seq<Cell>>)
    requires
        t.len() > 0,
        header_spans(t),
    ensures
        table_width(t) == t[0].len(),
    decreases t.len(),
{
    if t.len() == 1 {
        assert(t.drop_last().len() == 0);
        assert(table_width(t.drop_last()) == 0);
        assert(t.last() == t[0]);
    } else {
        let p = t.drop_last();
        assert(p[0] == t[0]);
        assert forall|r: int| 0 <= r < p.len() implies #[trigger] p[r].len() <= p[0].len() by {
            assert(p[r] == t[r]);
        }
        lemma_width_bound(p);
        assert(t.last() == t[t.len() - 1]);
        assert(t[t.len() - 1].len() <= t[0].len());
    }
}

/// Convert the rows of a range into a table, skipping `skip` rows before the
/// header: the first remaining row names the columns, the rest are the data.
pub fn range_to_table(rows: &Vec<Vec<Cell>>, skip: usize) -> (table: SheetTable)
    requires
        header_spans(rows_after(rows_view(rows@), skip as nat)),
    ensures
        table_matches(rows_view(rows@), skip as nat, table),
{
    let ghost t = rows_after(rows_view(rows@), skip as nat);
    if skip >= rows.len() {
        return SheetTable::Empty;
    }
    assert(t.len() == rows@.len() - skip);
    assert(forall|r: int| 0 <= r < t.len() ==> #[trigger] t[r] == rows@[r + skip]@);
    proof {
        lemma_width_bound(t);
    }
    let first = &rows[skip];
    let w = first.len();
    if w == 0 {
        return SheetTable::Empty;
    }
    let mut headers: Vec<String> = Vec::new();
    let mut i: usize = 0;
    while i < w
        invariant
            w == first@.len(),
            i <= w,
            headers.deep_view() =~= spec_headers(first@).take(i as int),
        decreases w - i,
    {
        let h = header_of(&first[i], i);
        push_field(&mut headers, h);
        i = i + 1;
        assert(headers.deep_view() =~= spec_headers(first@).take(i as int));
    }
    assert(spec_headers(first@).take(w as int) =~= spec_headers(first@));
    assert(headers@.len() == w);
    if rows.len() - skip == 1 {
        return SheetTable::HeaderOnly(headers);
    }
    let ghost data = t.skip(1);
    let mut cols: Vec<TableColumn> = Vec::new();
    let mut c: usize = 0;
    while c < w
        invariant
            w == first@.len(),
            first@ == t[0],
            skip < rows@.len(),
            rows@.len() == rows.len(),
            headers@.len() == w,
            t == rows_after(rows_view(rows@), skip as nat),
            data == t.skip(1),
            t.len() == rows@.len() - skip,
            forall|r: int| 0 <= r < t.len() ==> #[trigger] t[r] == rows@[r + skip]@,
            headers.deep_view() == spec_headers(first@),
            c <= w,
            cols@.len() == c,
            forall|k: int|
                0 <= k < c ==> {
                    &&& (#[trigger] cols@[k]).name@ == spec_headers(t[0])[k]
                    &&& cols@[k].cells@ == column_of(data, k)
                    &&& cols@[k].kind == spec_infer_column_type(column_of(data, k))
                },
        decreases w - c,
    {
        let mut cells: Vec<Cell> = Vec::new();
        let mut r: usize = skip + 1;
        while r < rows.len()
            invariant
                skip < rows@.len(),
                rows@.len() == rows.len(),
                t == rows_after(rows_view(rows@), skip as nat),
                data == t.skip(1),
                t.len() == rows@.len() - skip,
                forall|q: int| 0 <= q < t.len() ==> #[trigger] t[q] == rows@[q + skip]@,
                skip + 1 <= r <= rows@.len(),
                cells@ =~= column_of(data, c as int).take(r - skip - 1),
            decreases rows@.len() - r,
        {
            let row = &rows[r];
            assert(data[r - skip - 1] == t[r - skip]);
            if c < row.len() {
                cells.push(copy_cell(&row[c]));
            } else {
                cells.push(Cell::Empty);
            }
            r = r + 1;
            assert(cells@ =~= column_of(data, c as int).take(r - skip - 1));
        }
        assert(column_of(data, c as int).take(data.len() as int) =~= column_of(data, c as int));
        let kind = infer_column_type(cells.as_slice());
        let name = headers[c].clone();
        assert(name@ == headers.deep_view()[c as int]);
        cols.push(TableColumn { name, kind, cells });
        c = c + 1;
    }
    SheetTable::Columns(cols)
}

/// The integer a cell holds, if it holds one.
pub open spec fn int_of(c: Cell) -> Option<i64> {
    match c {
        Cell::Int(v) => Some(v),
        _ => None,
    }
}

/// The boolean a cell holds, if it holds one.
pub open spec fn bool_of(c: Cell) -> Option<bool> {
    match c {
        Cell::Bool(v) => Some(v),
        _ => None,
    }
}

/// The values of an integer column: each integer cell's value, and nothing
/// for any other cell.
pub fn int_column(cells: &[Cell]) -> (v: Vec<Option<i64>>)
    ensures
        v@ == cells@.map_values(|c: Cell| int_of(c)),
{
    let mut v: Vec<Option<i64>> = Vec::new();
    let mut i: usize = 0;
    while i < cells.len()
        invariant
            i <= cells@.len(),
            v@ == cells@.take(i as int).map_values(|c: Cell| int_of(c)),
        decreases cells@.len() - i,
    {
        let x = match &cells[i] {
            Cell::Int(n) => Some(*n),
            _ => None,
        };
        v.push(x);
        assert(cells@.take(i + 1) =~= cells@.take(i as int).push(cells@[i as int]));
        i = i + 1;
        assert(v@ =~= cells@.take(i as int).map_values(|c: Cell| int_of(c)));
    }
    assert(cells@.take(i as int) =~= cells@);
    v
}

/// The values of a boolean column: each boolean cell's value, and nothing for
/// any other cell.
pub fn bool_column(cells: &[Cell]) -> (v: Vec<Option<bool>>)
    ensures
        v@ == cells@.map_values(|c: Cell| bool_of(c)),
{
    let mut v: Vec<Option<bool>> = Vec::new();
    let mut i: usize = 0;
    while i < cells.len()
        invariant
            i <= cells@.len(),
            v@ == cells@.take(i as int).map_values(|c: Cell| bool_of(c)),
        decreases cells@.len() - i,
    {
        let x = match &cells[i] {
            Cell::Bool(b) => Some(*b),
            _ => None,
        };
        v.push(x);
        assert(cells@.take(i + 1) =~= cells@.take(i as int).push(cells@[i as int]));
        i = i + 1;
        assert(v@ =~= cells@.take(i as int).map_values(|c: Cell| bool_of(c)));
    }
    assert(cells@.take(i as int) =~= cells@);
    v
}

} // verus!
