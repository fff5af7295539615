//! The result of comparing two tables, and its renderings as text and CSV.
use crate::text::{
    chars_eq, chars_of, decimal, first_index, flatten, join, lemma_first_index_absent,
    lemma_first_index_at, lemma_flatten_step, lemma_join_step, push_char, push_decimal, push_field,
    push_str, push_string,
};
use vstd::prelude::*;

verus! {

/// Where one side of a comparison came from.
#[derive(Debug)]
pub struct SheetSource {
    pub file_name: String,
    pub sheet_name: String,
}

/// A row present on one side only, as its cell values.
#[derive(Debug)]
pub struct DiffRow {
    pub values: Vec<String>,
}

/// One cell that differs between the two sides of a matched row.
#[derive(Debug)]
pub struct CellChange {
    pub column: String,
    pub old_value: String,
    pub new_value: String,
}

/// A row matched by key whose other cells differ.
#[derive(Debug)]
pub struct ModifiedRow {
    pub key: Vec<String>,
    pub changes: Vec<CellChange>,
}

/// The differences between two tables.
#[derive(Debug)]
pub struct DiffResult {
    pub headers: Vec<String>,
    pub key_columns: Vec<String>,
    pub added: Vec<DiffRow>,
    pub removed: Vec<DiffRow>,
    pub modified: Vec<ModifiedRow>,
    pub source_a: SheetSource,
    pub source_b: SheetSource,
}

pub struct SourceView {
    pub file_name: Seq<char>,
    pub sheet_name: Seq<char>,
}

pub struct ChangeView {
    pub column: Seq<char>,
    pub old_value: Seq<char>,
    pub new_value: Seq<char>,
}

pub struct ModifiedView {
    pub key: Seq<Seq<char>>,
    pub changes: Seq<ChangeView>,
}

/// A `DiffResult` over character sequences.
pub struct DiffView {
    pub headers: Seq<Seq<char>>,
    pub key_columns: Seq<Seq<char>>,
    pub added: Seq<Seq<Seq<char>>>,
    pub removed: Seq<Seq<Seq<char>>>,
    pub modified: Seq<ModifiedView>,
    pub source_a: SourceView,
    pub source_b: SourceView,
}

impl View for SheetSource {
    type V = SourceView;

    open spec fn view(&self) -> SourceView {
        SourceView { file_name: self.file_name@, sheet_name: self.sheet_name@ }
    }
}

impl View for DiffRow {
    type V = Seq<Seq<char>>;

    open spec fn view(&self) -> Seq<Seq<char>> {
        self.values.deep_view()
    }
}

impl View for CellChange {
    type V = ChangeView;

    open spec fn view(&self) -> ChangeView {
        ChangeView {
            column: self.column@,
            old_value: self.old_value@,
            new_value: self.new_value@,
        }
    }
}

impl View for ModifiedRow {
    type V = ModifiedView;

    open spec fn view(&self) -> ModifiedView {
        ModifiedView {
            key: self.key.deep_view(),
            changes: self.changes@.map_values(|c: CellChange| c@),
        }
    }
}

impl View for DiffResult {
    type V = DiffView;

    open spec fn view(&self) -> DiffView {
        DiffView {
            headers: self.headers.deep_view(),
            key_columns: self.key_columns.deep_view(),
            added: self.added@.map_values(|r: DiffRow| r@),
            removed: self.removed@.map_values(|r: DiffRow| r@),
            modified: self.modified@.map_values(|m: ModifiedRow| m@),
            source_a: self.source_a@,
            source_b: self.source_b@,
        }
    }
}

/// Whether a comparison found anything.
pub open spec fn spec_has_differences(d: DiffView) -> bool {
    d.added.len() > 0 || d.removed.len() > 0 || d.modified.len() > 0
}

impl DiffResult {
    /// Whether any row was added, removed or modified.
    pub fn has_differences(&self) -> (r: bool)
        ensures
            r == spec_has_differences(self@),
    {
        self.added.len() > 0 || self.removed.len() > 0 || self.modified.len() > 0
    }
}

/// The text report says that nothing differs exactly when nothing does, so
/// it agrees with the exit code.
pub proof fn lemma_text_report_agrees(d: DiffView, color: bool)
    ensures
        (spec_format_text(d, color) == "No differences found.\n"@) == !spec_has_differences(d),
{
    if spec_has_differences(d) {
        reveal_strlit("--- ");
        reveal_strlit("No differences found.\n");
        let t = spec_format_text(d, color);
        assert(t[0] == '-');
        assert("No differences found.\n"@[0] == 'N');
    }
}

/// A report of differences starts by naming both sides, then states the
/// counts: the number of added rows after `Added: `, of removed rows after
/// `Removed: ` and of modified rows after `Modified: `, on the line after the
/// blank line that ends the header.
pub proof fn lemma_text_report_counts(d: DiffView, color: bool)
    requires
        spec_has_differences(d),
    ensures
        ({
            let t = spec_format_text(d, color);
            let head = "--- "@ + side_label(d.source_a) + "\n+++ "@ + side_label(d.source_b)
                + "\n\n"@;
            let line = "Added: "@ + decimal(d.added.len()) + " | Removed: "@ + decimal(
                d.removed.len(),
            ) + " | Modified: "@ + decimal(d.modified.len()) + "\n"@;
            &&& t.take(head.len() as int) == head
            &&& t.subrange(head.len() as int, (head.len() + line.len()) as int) == line
        }),
{
    reveal_strlit("\n\n");
    reveal_strlit("\n");
    let t = spec_format_text(d, color);
    let head = "--- "@ + side_label(d.source_a) + "\n+++ "@ + side_label(d.source_b) + "\n\n"@;
    let line = "Added: "@ + decimal(d.added.len()) + " | Removed: "@ + decimal(d.removed.len())
        + " | Modified: "@ + decimal(d.modified.len()) + "\n"@;
    assert(text_header(d) == head);
    assert(text_summary(d) =~= line + "\n"@);
    let rest = t.skip((head.len() + line.len()) as int);
    assert(t =~= head + line + rest);
    assert(t.take(head.len() as int) =~= head);
    assert(t.subrange(head.len() as int, (head.len() + line.len()) as int) =~= line);
}

/// Without colour, a report of differences is exactly: the two header lines
/// and a blank line; the counts line and a blank line; one line per removed
/// row (`- ` and its values inline), one per added row (`+ ` and its values),
/// and per modified row a line `~ ` with its key inline followed by one line
/// per change, `    column: "old" → "new"`. Values inline are `name: "value"`
/// pairs two spaces apart.
pub proof fn lemma_plain_text_report(d: DiffView)
    requires
        spec_has_differences(d),
    ensures
        spec_format_text(d, false) == "--- "@ + side_label(d.source_a) + "\n+++ "@ + side_label(
            d.source_b,
        ) + "\n\n"@ + "Added: "@ + decimal(d.added.len()) + " | Removed: "@ + decimal(
            d.removed.len(),
        ) + " | Modified: "@ + decimal(d.modified.len()) + "\n\n"@ + flatten(
            d.removed.map_values(
                |r: Seq<Seq<char>>| "- "@ + spec_row_inline(d.headers, r) + "\n"@,
            ),
        ) + flatten(
            d.added.map_values(|r: Seq<Seq<char>>| "+ "@ + spec_row_inline(d.headers, r) + "\n"@),
        ) + flatten(
            d.modified.map_values(
                |m: ModifiedView|
                    "~ "@ + spec_row_inline(d.key_columns, m.key) + "\n"@ + flatten(
                        m.changes.map_values(
                            |c: ChangeView|
                                "    "@ + c.column + ": \""@ + c.old_value + "\" \u{2192} \""@
                                    + c.new_value + "\"\n"@,
                        ),
                    ),
            ),
        ),
{
    assert(d.removed.map_values(
        |r: Seq<Seq<char>>| row_line(d.headers, r, false, "\x1b[31m"@, "- "@),
    ) =~= d.removed.map_values(|r: Seq<Seq<char>>| "- "@ + spec_row_inline(d.headers, r) + "\n"@))
        by {
        assert forall|r: Seq<Seq<char>>|
            row_line(d.headers, r, false, "\x1b[31m"@, "- "@) == "- "@ + spec_row_inline(
                d.headers,
                r,
            ) + "\n"@ by {
            assert(row_line(d.headers, r, false, "\x1b[31m"@, "- "@) =~= "- "@ + spec_row_inline(
                d.headers,
                r,
            ) + "\n"@);
        }
    }
    assert(d.added.map_values(
        |r: Seq<Seq<char>>| row_line(d.headers, r, false, "\x1b[32m"@, "+ "@),
    ) =~= d.added.map_values(|r: Seq<Seq<char>>| "+ "@ + spec_row_inline(d.headers, r) + "\n"@))
        by {
        assert forall|r: Seq<Seq<char>>|
            row_line(d.headers, r, false, "\x1b[32m"@, "+ "@) == "+ "@ + spec_row_inline(
                d.headers,
                r,
            ) + "\n"@ by {
            assert(row_line(d.headers, r, false, "\x1b[32m"@, "+ "@) =~= "+ "@ + spec_row_inline(
                d.headers,
                r,
            ) + "\n"@);
        }
    }
    assert forall|m: ModifiedView|
        modified_block(d, m, false) == "~ "@ + spec_row_inline(d.key_columns, m.key) + "\n"@
            + flatten(
            m.changes.map_values(
                |c: ChangeView|
                    "    "@ + c.column + ": \""@ + c.old_value + "\" \u{2192} \""@ + c.new_value
                        + "\"\n"@,
            ),
        ) by {
        assert(m.changes.map_values(|c: ChangeView| change_line(c)) =~= m.changes.map_values(
            |c: ChangeView|
                "    "@ + c.column + ": \""@ + c.old_value + "\" \u{2192} \""@ + c.new_value
                    + "\"\n"@,
        ));
        assert(modified_block(d, m, false) =~= "~ "@ + spec_row_inline(d.key_columns, m.key)
            + "\n"@ + flatten(
            m.changes.map_values(
                |c: ChangeView|
                    "    "@ + c.column + ": \""@ + c.old_value + "\" \u{2192} \""@ + c.new_value
                        + "\"\n"@,
            ),
        ));
    }
    assert(d.modified.map_values(|m: ModifiedView| modified_block(d, m, false))
        =~= d.modified.map_values(
        |m: ModifiedView|
            "~ "@ + spec_row_inline(d.key_columns, m.key) + "\n"@ + flatten(
                m.changes.map_values(
                    |c: ChangeView|
                        "    "@ + c.column + ": \""@ + c.old_value + "\" \u{2192} \""@
                            + c.new_value + "\"\n"@,
                ),
            ),
    ));
}

/// In colour, the report is the plain one with each row's marker line
/// coloured: removed rows red, added rows green, the key line of a modified
/// row yellow, each colour reset at the end of its line.
pub proof fn lemma_coloured_text_report(d: DiffView)
    requires
        spec_has_differences(d),
    ensures
        spec_format_text(d, true) == "--- "@ + side_label(d.source_a) + "\n+++ "@ + side_label(
            d.source_b,
        ) + "\n\n"@ + "Added: "@ + decimal(d.added.len()) + " | Removed: "@ + decimal(
            d.removed.len(),
        ) + " | Modified: "@ + decimal(d.modified.len()) + "\n\n"@ + flatten(
            d.removed.map_values(
                |r: Seq<Seq<char>>| "\x1b[31m- "@ + spec_row_inline(d.headers, r) + "\x1b[0m\n"@,
            ),
        ) + flatten(
            d.added.map_values(
                |r: Seq<Seq<char>>| "\x1b[32m+ "@ + spec_row_inline(d.headers, r) + "\x1b[0m\n"@,
            ),
        ) + flatten(
            d.modified.map_values(
                |m: ModifiedView|
                    "\x1b[33m~ "@ + spec_row_inline(d.key_columns, m.key) + "\x1b[0m\n"@ + flatten(
                        m.changes.map_values(
                            |c: ChangeView|
                                "    "@ + c.column + ": \""@ + c.old_value + "\" \u{2192} \""@
                                    + c.new_value + "\"\n"@,
                        ),
                    ),
            ),
        ),
{
    reveal_strlit("\x1b[31m");
    reveal_strlit("\x1b[32m");
    reveal_strlit("\x1b[33m");
    reveal_strlit("\x1b[31m- ");
    reveal_strlit("\x1b[32m+ ");
    reveal_strlit("\x1b[33m~ ");
    reveal_strlit("- ");
    reveal_strlit("+ ");
    reveal_strlit("~ ");
    reveal_strlit("\x1b[0m");
    reveal_strlit("\n");
    reveal_strlit("\x1b[0m\n");
    assert(d.removed.map_values(
        |r: Seq<Seq<char>>| row_line(d.headers, r, true, "\x1b[31m"@, "- "@),
    ) =~= d.removed.map_values(
        |r: Seq<Seq<char>>| "\x1b[31m- "@ + spec_row_inline(d.headers, r) + "\x1b[0m\n"@,
    )) by {
        assert forall|r: Seq<Seq<char>>|
            row_line(d.headers, r, true, "\x1b[31m"@, "- "@) == "\x1b[31m- "@ + spec_row_inline(
                d.headers,
                r,
            ) + "\x1b[0m\n"@ by {
            assert(row_line(d.headers, r, true, "\x1b[31m"@, "- "@) =~= "\x1b[31m- "@
                + spec_row_inline(d.headers, r) + "\x1b[0m\n"@);
        }
    }
    assert(d.added.map_values(
        |r: Seq<Seq<char>>| row_line(d.headers, r, true, "\x1b[32m"@, "+ "@),
    ) =~= d.added.map_values(
        |r: Seq<Seq<char>>| "\x1b[32m+ "@ + spec_row_inline(d.headers, r) + "\x1b[0m\n"@,
    )) by {
        assert forall|r: Seq<Seq<char>>|
            row_line(d.headers, r, true, "\x1b[32m"@, "+ "@) == "\x1b[32m+ "@ + spec_row_inline(
                d.headers,
                r,
            ) + "\x1b[0m\n"@ by {
            assert(row_line(d.headers, r, true, "\x1b[32m"@, "+ "@) =~= "\x1b[32m+ "@
                + spec_row_inline(d.headers, r) + "\x1b[0m\n"@);
        }
    }
    assert forall|m: ModifiedView|
        modified_block(d, m, true) == "\x1b[33m~ "@ + spec_row_inline(d.key_columns, m.key)
            + "\x1b[0m\n"@ + flatten(
            m.changes.map_values(
                |c: ChangeView|
                    "    "@ + c.column + ": \""@ + c.old_value + "\" \u{2192} \""@ + c.new_value
                        + "\"\n"@,
            ),
        ) by {
        assert(m.changes.map_values(|c: ChangeView| change_line(c)) =~= m.changes.map_values(
            |c: ChangeView|
                "    "@ + c.column + ": \""@ + c.old_value + "\" \u{2192} \""@ + c.new_value
                    + "\"\n"@,
        ));
        assert(modified_block(d, m, true) =~= "\x1b[33m~ "@ + spec_row_inline(
            d.key_columns,
            m.key,
        ) + "\x1b[0m\n"@ + flatten(
            m.changes.map_values(
                |c: ChangeView|
                    "    "@ + c.column + ": \""@ + c.old_value + "\" \u{2192} \""@ + c.new_value
                        + "\"\n"@,
            ),
        ));
    }
    assert(d.modified.map_values(|m: ModifiedView| modified_block(d, m, true))
        =~= d.modified.map_values(
        |m: ModifiedView|
            "\x1b[33m~ "@ + spec_row_inline(d.key_columns, m.key) + "\x1b[0m\n"@ + flatten(
                m.changes.map_values(
                    |c: ChangeView|
                        "    "@ + c.column + ": \""@ + c.old_value + "\" \u{2192} \""@
                            + c.new_value + "\"\n"@,
                ),
            ),
    ));
}

/// Values inline: each header and the value at its place as `name: "value"`,
/// as far as both lists go, two spaces apart.
pub proof fn lemma_row_inline_pairs(headers: Seq<Seq<char>>, values: Seq<Seq<char>>)
    ensures
        spec_row_inline(headers, values) == join(
            Seq::new(
                if headers.len() < values.len() {
                    headers.len()
                } else {
                    values.len()
                },
                |i: int| headers[i] + ": \""@ + values[i] + "\""@,
            ),
            "  "@,
        ),
{
    reveal_strlit(": \"");
    reveal_strlit("\"");
    reveal_strlit("  ");
    let n = if headers.len() < values.len() {
        headers.len()
    } else {
        values.len()
    };
    assert(": \""@ =~= seq![':', ' ', '"']);
    assert("\""@ =~= seq!['"']);
    assert forall|i: int| 0 <= i < n implies labelled(headers[i], values[i]) == headers[i]
        + ": \""@ + values[i] + "\""@ by {
        assert(labelled(headers[i], values[i]) =~= headers[i] + ": \""@ + values[i] + "\""@);
    }
    assert(labelled_pairs(headers, values) =~= Seq::new(
        n,
        |i: int| headers[i] + ": \""@ + values[i] + "\""@,
    ));
    assert(seq![' ', ' '] =~= "  "@);
}

/// `name: "value"`.
pub open spec fn labelled(name: Seq<char>, value: Seq<char>) -> Seq<char> {
    name + seq![':', ' ', '"'] + value + seq!['"']
}

/// The labelled pairs of `names` and `values`, as far as both go.
pub open spec fn labelled_pairs(names: Seq<Seq<char>>, values: Seq<Seq<char>>) -> Seq<Seq<char>> {
    let n = if names.len() < values.len() {
        names.len()
    } else {
        values.len()
    };
    Seq::new(n, |i: int| labelled(names[i], values[i]))
}

/// A row's values inline, each after its header, two spaces apart.
pub open spec fn spec_row_inline(headers: Seq<Seq<char>>, values: Seq<Seq<char>>) -> Seq<char> {
    join(labelled_pairs(headers, values), seq![' ', ' '])
}

/// Appends `name: "value"`.
fn push_labelled(s: &mut String, name: &String, value: &String)
    ensures
        final(s)@ == old(s)@ + labelled(name@, value@),
{
    push_string(s, name);
    push_str(s, ": \"");
    push_string(s, value);
    push_char(s, '"');
    proof {
        reveal_strlit(": \"");
    }
    assert(final(s)@ =~= old(s)@ + labelled(name@, value@));
}

/// Appends a row's values inline (see `spec_row_inline`).
fn push_row_inline(s: &mut String, headers: &Vec<String>, values: &Vec<String>)
    ensures
        final(s)@ == old(s)@ + spec_row_inline(headers.deep_view(), values.deep_view()),
{
    let n = if headers.len() < values.len() {
        headers.len()
    } else {
        values.len()
    };
    let ghost parts = labelled_pairs(headers.deep_view(), values.deep_view());
    let ghost base = s@;
    let mut i: usize = 0;
    assert(parts.take(0) =~= Seq::<Seq<char>>::empty());
    while i < n
        invariant
            parts == labelled_pairs(headers.deep_view(), values.deep_view()),
            n == parts.len(),
            n <= headers.len(),
            n <= values.len(),
            i <= n,
            s@ == base + join(parts.take(i as int), seq![' ', ' ']),
        decreases n - i,
    {
        proof {
            lemma_join_step(parts, seq![' ', ' '], i as int);
        }
        if i > 0 {
            push_str(s, "  ");
            proof {
                reveal_strlit("  ");
            }
        }
        push_labelled(s, &headers[i], &values[i]);
        let ghost k = i as int;
        assert(parts[k] == labelled(headers.deep_view()[k], values.deep_view()[k]));
        i = i + 1;
        assert(s@ =~= base + join(parts.take(i as int), seq![' ', ' ']));
    }
    assert(parts.take(n as int) =~= parts);
}

/// Format a row's values inline: `Name: "Alice"  Score: "90"`.
pub fn format_row_inline(headers: &Vec<String>, values: &Vec<String>) -> (s: String)
    ensures
        s@ == spec_row_inline(headers.deep_view(), values.deep_view()),
{
    let mut s = String::new();
    push_row_inline(&mut s, headers, values);
    assert(s@ =~= spec_row_inline(headers.deep_view(), values.deep_view()));
    s
}

/// The escape that starts a colour, or nothing without colour.
pub open spec fn paint(color: bool, code: Seq<char>) -> Seq<char> {
    if color {
        code
    } else {
        Seq::<char>::empty()
    }
}

/// How the header names one side: its file name alone when the sheet is named
/// after the file (every input but a workbook), else the sheet and, in
/// brackets, the file.
pub open spec fn side_label(s: SourceView) -> Seq<char> {
    if s.sheet_name == s.file_name {
        s.file_name
    } else {
        s.sheet_name + " ("@ + s.file_name + ")"@
    }
}

/// The two header lines naming both sides, and a blank line.
pub open spec fn text_header(d: DiffView) -> Seq<char> {
    "--- "@ + side_label(d.source_a) + "\n+++ "@ + side_label(d.source_b) + "\n\n"@
}

/// The counts of added, removed and modified rows, and a blank line.
pub open spec fn text_summary(d: DiffView) -> Seq<char> {
    "Added: "@ + decimal(d.added.len()) + " | Removed: "@ + decimal(d.removed.len())
        + " | Modified: "@ + decimal(d.modified.len()) + "\n\n"@
}

/// One row present on one side only: a coloured marker and its values inline.
pub open spec fn row_line(
    headers: Seq<Seq<char>>,
    row: Seq<Seq<char>>,
    color: bool,
    code: Seq<char>,
    marker: Seq<char>,
) -> Seq<char> {
    paint(color, code) + marker + spec_row_inline(headers, row) + paint(color, "\x1b[0m"@) + "\n"@
}

/// One changed cell: `    column: "old" → "new"`.
pub open spec fn change_line(c: ChangeView) -> Seq<char> {
    "    "@ + c.column + ": \""@ + c.old_value + "\" \u{2192} \""@ + c.new_value + "\"\n"@
}

/// A modified row: its key inline after a marker, then one line per change.
pub open spec fn modified_block(d: DiffView, m: ModifiedView, color: bool) -> Seq<char> {
    paint(color, "\x1b[33m"@) + "~ "@ + spec_row_inline(d.key_columns, m.key) + paint(
        color,
        "\x1b[0m"@,
    ) + "\n"@ + flatten(m.changes.map_values(|c: ChangeView| change_line(c)))
}

/// The text report: removed rows, then added rows, then modified rows, after
/// a header and a summary; or a single line when nothing differs.
pub open spec fn spec_format_text(d: DiffView, color: bool) -> Seq<char> {
    if !spec_has_differences(d) {
        "No differences found.\n"@
    } else {
        text_header(d) + text_summary(d) + flatten(
            d.removed.map_values(
                |r: Seq<Seq<char>>| row_line(d.headers, r, color, "\x1b[31m"@, "- "@),
            ),
        ) + flatten(
            d.added.map_values(
                |r: Seq<Seq<char>>| row_line(d.headers, r, color, "\x1b[32m"@, "+ "@),
            ),
        ) + flatten(d.modified.map_values(|m: ModifiedView| modified_block(d, m, color)))
    }
}

fn push_paint(s: &mut String, color: bool, code: &str)
    ensures
        final(s)@ == old(s)@ + paint(color, code@),
{
    if color {
        push_str(s, code);
    } else {
        assert(old(s)@ + paint(color, code@) =~= old(s)@);
    }
}

/// Appends the lines of the rows on one side only.
fn push_row_lines(
    s: &mut String,
    headers: &Vec<String>,
    rows: &Vec<DiffRow>,
    color: bool,
    code: &str,
    marker: &str,
)
    ensures
        final(s)@ == old(s)@ + flatten(
            rows@.map_values(|r: DiffRow| r@).map_values(
                |r: Seq<Seq<char>>| row_line(headers.deep_view(), r, color, code@, marker@),
            ),
        ),
{
    let ghost lines = rows@.map_values(|r: DiffRow| r@).map_values(
        |r: Seq<Seq<char>>| row_line(headers.deep_view(), r, color, code@, marker@),
    );
    let ghost base = s@;
    let mut i: usize = 0;
    assert(lines.take(0) =~= Seq::<Seq<char>>::empty());
    while i < rows.len()
        invariant
            lines == rows@.map_values(|r: DiffRow| r@).map_values(
                |r: Seq<Seq<char>>| row_line(headers.deep_view(), r, color, code@, marker@),
            ),
            lines.len() == rows@.len(),
            i <= rows@.len(),
            s@ == base + flatten(lines.take(i as int)),
        decreases rows@.len() - i,
    {
        proof {
            lemma_flatten_step(lines, i as int);
        }
        push_paint(s, color, code);
        push_str(s, marker);
        push_row_inline(s, headers, &rows[i].values);
        push_paint(s, color, "\x1b[0m");
        push_char(s, '\n');
        let ghost k = i as int;
        assert(lines[k] == row_line(headers.deep_view(), rows@[k]@, color, code@, marker@));
        i = i + 1;
        assert(s@ =~= base + flatten(lines.take(i as int))) by {
            reveal_strlit("\n");
        }
    }
    assert(lines.take(rows@.len() as int) =~= lines);
}

/// Appends the block of one modified row.
fn push_modified_block(s: &mut String, d: &DiffResult, m: &ModifiedRow, color: bool)
    ensures
        final(s)@ == old(s)@ + modified_block(d@, m@, color),
{
    let ghost base = s@;
    push_paint(s, color, "\x1b[33m");
    push_str(s, "~ ");
    push_row_inline(s, &d.key_columns, &m.key);
    push_paint(s, color, "\x1b[0m");
    push_str(s, "\n");
    let ghost head = s@;
    let ghost lines = m@.changes.map_values(|c: ChangeView| change_line(c));
    let mut i: usize = 0;
    assert(lines.take(0) =~= Seq::<Seq<char>>::empty());
    assert(head =~= head + flatten(lines.take(0)));
    while i < m.changes.len()
        invariant
            lines == m@.changes.map_values(|c: ChangeView| change_line(c)),
            lines.len() == m.changes@.len(),
            i <= m.changes@.len(),
            s@ == head + flatten(lines.take(i as int)),
        decreases m.changes@.len() - i,
    {
        proof {
            lemma_flatten_step(lines, i as int);
        }
        let c = &m.changes[i];
        push_str(s, "    ");
        push_string(s, &c.column);
        push_str(s, ": \"");
        push_string(s, &c.old_value);
        push_str(s, "\" \u{2192} \"");
        push_string(s, &c.new_value);
        push_str(s, "\"\n");
        let ghost k = i as int;
        assert(lines[k] == change_line(m.changes@[k]@));
        i = i + 1;
        assert(s@ =~= head + flatten(lines.take(i as int)));
    }
    assert(lines.take(m.changes@.len() as int) =~= lines);
    assert(s@ =~= base + modified_block(d@, m@, color));
}

/// Appends how the header names one side.
fn push_side_label(s: &mut String, src: &SheetSource)
    ensures
        final(s)@ == old(s)@ + side_label(src@),
{
    let sheet = chars_of(src.sheet_name.as_str());
    let file = chars_of(src.file_name.as_str());
    if chars_eq(&sheet, &file) {
        push_string(s, &src.file_name);
    } else {
        push_string(s, &src.sheet_name);
        push_str(s, " (");
        push_string(s, &src.file_name);
        push_str(s, ")");
        assert(s@ =~= old(s)@ + side_label(src@));
    }
}

/// Format diff result as colored (or plain) text output.
pub fn format_text(result: &DiffResult, color: bool) -> (s: String)
    ensures
        s@ == spec_format_text(result@, color),
        spec_has_differences(result@) ==> ({
            let head = "--- "@ + side_label(result@.source_a) + "\n+++ "@ + side_label(
                result@.source_b,
            ) + "\n\n"@;
            let line = "Added: "@ + decimal(result@.added.len()) + " | Removed: "@ + decimal(
                result@.removed.len(),
            ) + " | Modified: "@ + decimal(result@.modified.len()) + "\n"@;
            &&& s@.take(head.len() as int) == head
            &&& s@.subrange(head.len() as int, (head.len() + line.len()) as int) == line
        }),
{
    let mut s = String::new();
    if !result.has_differences() {
        push_str(&mut s, "No differences found.\n");
        assert(s@ =~= spec_format_text(result@, color));
        return s;
    }
    push_str(&mut s, "--- ");
    push_side_label(&mut s, &result.source_a);
    push_str(&mut s, "\n+++ ");
    push_side_label(&mut s, &result.source_b);
    push_str(&mut s, "\n\n");
    assert(s@ =~= text_header(result@));
    push_str(&mut s, "Added: ");
    push_decimal(&mut s, result.added.len() as u64);
    push_str(&mut s, " | Removed: ");
    push_decimal(&mut s, result.removed.len() as u64);
    push_str(&mut s, " | Modified: ");
    push_decimal(&mut s, result.modified.len() as u64);
    push_str(&mut s, "\n\n");
    assert(s@ =~= text_header(result@) + text_summary(result@));
    let ghost before_rows = s@;
    push_row_lines(&mut s, &result.headers, &result.removed, color, "\x1b[31m", "- ");
    push_row_lines(&mut s, &result.headers, &result.added, color, "\x1b[32m", "+ ");
    let ghost mods = result@.modified.map_values(|m: ModifiedView| modified_block(result@, m, color));
    let ghost head = s@;
    let mut i: usize = 0;
    assert(mods.take(0) =~= Seq::<Seq<char>>::empty());
    assert(head =~= head + flatten(mods.take(0)));
    while i < result.modified.len()
        invariant
            mods == result@.modified.map_values(
                |m: ModifiedView| modified_block(result@, m, color),
            ),
            mods.len() == result.modified@.len(),
            i <= result.modified@.len(),
            s@ == head + flatten(mods.take(i as int)),
        decreases result.modified@.len() - i,
    {
        proof {
            lemma_flatten_step(mods, i as int);
        }
        push_modified_block(&mut s, result, &result.modified[i], color);
        let ghost k = i as int;
        assert(mods[k] == modified_block(result@, result.modified@[k]@, color));
        i = i + 1;
        assert(s@ =~= head + flatten(mods.take(i as int)));
    }
    assert(mods.take(result.modified@.len() as int) =~= mods);
    assert(result@.removed == result.removed@.map_values(|r: DiffRow| r@));
    assert(result@.added == result.added@.map_values(|r: DiffRow| r@));
    assert(s@ =~= spec_format_text(result@, color));
    proof {
        lemma_text_report_counts(result@, color);
    }
    s
}

/// The characters of `v` with every `"` doubled.
pub open spec fn escape_quotes(v: Seq<char>) -> Seq<char>
    decreases v.len(),
{
    if v.len() == 0 {
        Seq::<char>::empty()
    } else {
        escape_quotes(v.drop_last()) + if v.last() == '"' {
            seq!['"', '"']
        } else {
            seq![v.last()]
        }
    }
}

/// A field needs quoting when it holds a comma, a quote or a newline.
pub open spec fn needs_quoting(v: Seq<char>) -> bool {
    v.contains(',') || v.contains('"') || v.contains('\n')
}

/// A CSV field per RFC 4180: quoted, with quotes doubled, when it needs it.
pub open spec fn spec_csv_quote(v: Seq<char>) -> Seq<char> {
    if needs_quoting(v) {
        seq!['"'] + escape_quotes(v) + seq!['"']
    } else {
        v
    }
}

/// Quote a value per RFC 4180: if it contains comma, quote, or newline, wrap
/// in double quotes and escape any internal quotes by doubling them.
pub fn csv_quote(value: &str) -> (s: String)
    ensures
        s@ == spec_csv_quote(value@),
{
    let cs = chars_of(value);
    let mut needs = false;
    let mut i: usize = 0;
    while i < cs.len()
        invariant
            cs@ == value@,
            i <= cs@.len(),
            needs == exists|j: int| 0 <= j < i && (cs@[j] == ',' || cs@[j] == '"' || cs@[j] == '\n'),
        decreases cs@.len() - i,
    {
        let c = cs[i];
        if c == ',' || c == '"' || c == '\n' {
            needs = true;
        }
        i = i + 1;
    }
    assert(needs == needs_quoting(value@)) by {
        if needs {
            let j = choose|j: int| 0 <= j < cs@.len() && (cs@[j] == ',' || cs@[j] == '"' || cs@[j] == '\n');
            assert(value@[j] == cs@[j]);
        }
        if value@.contains(',') {
            let j = choose|j: int| 0 <= j < value@.len() && value@[j] == ',';
            assert(cs@[j] == ',');
        }
        if value@.contains('"') {
            let j = choose|j: int| 0 <= j < value@.len() && value@[j] == '"';
            assert(cs@[j] == '"');
        }
        if value@.contains('\n') {
            let j = choose|j: int| 0 <= j < value@.len() && value@[j] == '\n';
            assert(cs@[j] == '\n');
        }
    }
    let mut s = String::new();
    if !needs {
        push_str(&mut s, value);
        assert(s@ =~= spec_csv_quote(value@));
        return s;
    }
    push_char(&mut s, '"');
    let mut k: usize = 0;
    assert(value@.take(0) =~= Seq::<char>::empty());
    while k < cs.len()
        invariant
            cs@ == value@,
            k <= cs@.len(),
            s@ == seq!['"'] + escape_quotes(value@.take(k as int)),
        decreases cs@.len() - k,
    {
        let c = cs[k];
        assert(value@.take(k + 1).drop_last() =~= value@.take(k as int));
        if c == '"' {
            push_char(&mut s, '"');
            push_char(&mut s, '"');
        } else {
            push_char(&mut s, c);
        }
        k = k + 1;
        assert(s@ =~= seq!['"'] + escape_quotes(value@.take(k as int)));
    }
    assert(value@.take(cs@.len() as int) =~= value@);
    push_char(&mut s, '"');
    assert(s@ =~= spec_csv_quote(value@));
    s
}

/// Undoes the doubling of quotes.
pub open spec fn undouble_quotes(s: Seq<char>) -> Seq<char>
    decreases s.len(),
{
    if s.len() >= 2 && s.last() == '"' && s[s.len() - 2] == '"' {
        undouble_quotes(s.take(s.len() - 2)).push('"')
    } else if s.len() > 0 {
        undouble_quotes(s.drop_last()).push(s.last())
    } else {
        Seq::<char>::empty()
    }
}

/// Reads back one CSV field: a quoted field loses its quotes and has its
/// doubled quotes undone; any other field stands as it is.
pub open spec fn unquote_field(f: Seq<char>) -> Seq<char> {
    if f.len() >= 2 && f[0] == '"' && f.last() == '"' {
        undouble_quotes(f.subrange(1, f.len() - 1))
    } else {
        f
    }
}

proof fn lemma_undouble_escape(v: Seq<char>)
    ensures
        undouble_quotes(escape_quotes(v)) == v,
    decreases v.len(),
{
    if v.len() > 0 {
        lemma_undouble_escape(v.drop_last());
        let e = escape_quotes(v.drop_last());
        if v.last() == '"' {
            let x = e + seq!['"', '"'];
            assert(x.take(x.len() - 2) =~= e);
        } else {
            let x = e + seq![v.last()];
            assert(x.drop_last() =~= e);
        }
        assert(v.drop_last().push(v.last()) =~= v);
    }
}

/// Quoting a field can always be undone: reading the quoted field back gives
/// the value that was quoted.
pub proof fn lemma_csv_quote_roundtrip(v: Seq<char>)
    ensures
        unquote_field(spec_csv_quote(v)) == v,
{
    if needs_quoting(v) {
        let f = seq!['"'] + escape_quotes(v) + seq!['"'];
        assert(f.subrange(1, f.len() - 1) =~= escape_quotes(v));
        lemma_undouble_escape(v);
    } else if v.len() >= 2 && v[0] == '"' {
        assert(v.contains('"'));
    }
}

/// A CSV record: every value quoted as needed, separated by commas.
pub open spec fn spec_csv_row(values: Seq<Seq<char>>) -> Seq<char> {
    join(values.map_values(|v: Seq<char>| spec_csv_quote(v)), seq![','])
}

/// How many `"` characters `s` holds.
pub open spec fn quote_count(s: Seq<char>) -> nat
    decreases s.len(),
{
    if s.len() == 0 {
        0
    } else {
        quote_count(s.drop_last()) + if s.last() == '"' {
            1nat
        } else {
            0nat
        }
    }
}

/// The raw fields of one CSV record, quotes kept: the pieces between the
/// commas that stand outside quotes, that is after an even number of `"`.
pub open spec fn record_pieces(s: Seq<char>) -> Seq<Seq<char>>
    decreases s.len(),
{
    if s.len() == 0 {
        seq![Seq::<char>::empty()]
    } else {
        let r = record_pieces(s.drop_last());
        if s.last() == ',' && quote_count(s.drop_last()) % 2 == 0 {
            r.push(Seq::<char>::empty())
        } else {
            r.update(r.len() - 1, r.last().push(s.last()))
        }
    }
}

/// One CSV record read back per RFC 4180: split at the commas outside quotes,
/// each field unquoted.
pub open spec fn split_record(s: Seq<char>) -> Seq<Seq<char>> {
    record_pieces(s).map_values(|f: Seq<char>| unquote_field(f))
}

/// A written field that closes every quote it opens, and holds a comma only
/// inside quotes.
spec fn closed_field(q: Seq<char>) -> bool {
    &&& quote_count(q) % 2 == 0
    &&& forall|k: int| 0 <= k < q.len() && q[k] == ',' ==> #[trigger] quote_count(q.take(k)) % 2 == 1
}

proof fn lemma_quote_count_concat(a: Seq<char>, b: Seq<char>)
    ensures
        quote_count(a + b) == quote_count(a) + quote_count(b),
    decreases b.len(),
{
    if b.len() > 0 {
        lemma_quote_count_concat(a, b.drop_last());
        assert((a + b).drop_last() =~= a + b.drop_last());
    }
}

proof fn lemma_quote_count_none(s: Seq<char>)
    requires
        !s.contains('"'),
    ensures
        quote_count(s) == 0,
    decreases s.len(),
{
    if s.len() > 0 {
        assert(!s.drop_last().contains('"')) by {
            if s.drop_last().contains('"') {
                let j = choose|j: int| 0 <= j < s.drop_last().len() && s.drop_last()[j] == '"';
                assert(s[j] == '"');
            }
        }
        lemma_quote_count_none(s.drop_last());
        assert(s[s.len() - 1] == s.last());
    }
}

proof fn lemma_escape_balanced(v: Seq<char>)
    ensures
        quote_count(escape_quotes(v)) % 2 == 0,
        forall|m: int|
            0 <= m < escape_quotes(v).len() && escape_quotes(v)[m] != '"' ==> #[trigger] quote_count(
                escape_quotes(v).take(m),
            ) % 2 == 0,
    decreases v.len(),
{
    if v.len() > 0 {
        lemma_escape_balanced(v.drop_last());
        let p = escape_quotes(v.drop_last());
        let tail = if v.last() == '"' {
            seq!['"', '"']
        } else {
            seq![v.last()]
        };
        let e = escape_quotes(v);
        assert(e == p + tail);
        lemma_quote_count_concat(p, tail);
        reveal_with_fuel(quote_count, 3);
        assert forall|m: int| 0 <= m < e.len() && e[m] != '"' implies #[trigger] quote_count(
            e.take(m),
        ) % 2 == 0 by {
            if m < p.len() {
                assert(e.take(m) =~= p.take(m));
                assert(e[m] == p[m]);
            } else {
                assert(e.take(m) =~= p);
            }
        }
    }
}

proof fn lemma_csv_quote_closed(v: Seq<char>)
    ensures
        closed_field(spec_csv_quote(v)),
{
    let q = spec_csv_quote(v);
    if needs_quoting(v) {
        let e = escape_quotes(v);
        lemma_escape_balanced(v);
        lemma_quote_count_concat(seq!['"'] + e, seq!['"']);
        lemma_quote_count_concat(seq!['"'], e);
        reveal_with_fuel(quote_count, 2);
        assert forall|k: int| 0 <= k < q.len() && q[k] == ',' implies #[trigger] quote_count(
            q.take(k),
        ) % 2 == 1 by {
            assert(k >= 1 && k <= e.len());
            assert(q[k] == e[k - 1]);
            assert(q.take(k) =~= seq!['"'] + e.take(k - 1));
            lemma_quote_count_concat(seq!['"'], e.take(k - 1));
        }
    } else {
        lemma_quote_count_none(v);
        assert forall|k: int| 0 <= k < q.len() && q[k] == ',' implies #[trigger] quote_count(
            q.take(k),
        ) % 2 == 1 by {
            assert(v.contains(','));
        }
    }
}

proof fn lemma_record_pieces_nonempty(s: Seq<char>)
    ensures
        record_pieces(s).len() >= 1,
    decreases s.len(),
{
    if s.len() > 0 {
        lemma_record_pieces_nonempty(s.drop_last());
    }
}

/// Reading on through a closed field after an even number of quotes extends
/// the last piece by what was read.
proof fn lemma_record_pieces_extend(y: Seq<char>, q: Seq<char>, j: int)
    requires
        quote_count(y) % 2 == 0,
        closed_field(q),
        0 <= j <= q.len(),
    ensures
        record_pieces(y + q.take(j)) == record_pieces(y).update(
            record_pieces(y).len() - 1,
            record_pieces(y).last() + q.take(j),
        ),
    decreases j,
{
    lemma_record_pieces_nonempty(y);
    let r = record_pieces(y);
    if j == 0 {
        assert(y + q.take(0) =~= y);
        assert(r.last() + q.take(0) =~= r.last());
        assert(r.update(r.len() - 1, r.last()) =~= r);
    } else {
        lemma_record_pieces_extend(y, q, j - 1);
        let s = y + q.take(j);
        assert(s.drop_last() =~= y + q.take(j - 1));
        assert(s.last() == q[j - 1]);
        if q[j - 1] == ',' {
            lemma_quote_count_concat(y, q.take(j - 1));
            assert(quote_count(q.take(j - 1)) % 2 == 1);
        }
        assert(r.last() + q.take(j) =~= (r.last() + q.take(j - 1)).push(q[j - 1]));
        assert(record_pieces(s) =~= r.update(r.len() - 1, r.last() + q.take(j)));
    }
}

proof fn lemma_record_pieces_join(parts: Seq<Seq<char>>)
    requires
        parts.len() >= 1,
        forall|i: int| 0 <= i < parts.len() ==> closed_field(#[trigger] parts[i]),
    ensures
        record_pieces(join(parts, seq![','])) == parts,
        quote_count(join(parts, seq![','])) % 2 == 0,
    decreases parts.len(),
{
    let q = parts.last();
    assert(closed_field(parts[parts.len() - 1]));
    assert(q.take(q.len() as int) =~= q);
    if parts.len() == 1 {
        lemma_record_pieces_extend(Seq::<char>::empty(), q, q.len() as int);
        assert(Seq::<char>::empty() + q =~= q);
        assert(seq![Seq::<char>::empty()].update(0, Seq::<char>::empty() + q) =~= parts);
    } else {
        let x = join(parts.drop_last(), seq![',']);
        assert forall|i: int| 0 <= i < parts.drop_last().len() implies closed_field(
            #[trigger] parts.drop_last()[i],
        ) by {
            assert(parts.drop_last()[i] == parts[i]);
        }
        lemma_record_pieces_join(parts.drop_last());
        let y = x + seq![','];
        assert(y.drop_last() =~= x);
        lemma_quote_count_concat(x, seq![',']);
        reveal_with_fuel(quote_count, 2);
        assert(record_pieces(y) =~= parts.drop_last().push(Seq::<char>::empty()));
        lemma_record_pieces_extend(y, q, q.len() as int);
        assert(join(parts, seq![',']) == y + q);
        assert(Seq::<char>::empty() + q =~= q);
        assert(parts.drop_last().push(Seq::<char>::empty()).update(parts.len() - 1, q) =~= parts);
        lemma_quote_count_concat(y, q);
    }
}

/// Reading a written record back gives the values it was written from: split
/// at the commas outside quotes and unquoted, `spec_csv_row(values)` yields
/// `values`, in order. (An empty list writes the empty line, which reads back
/// as one empty field.)
pub proof fn lemma_csv_row_splits_back(values: Seq<Seq<char>>)
    requires
        values.len() >= 1,
    ensures
        split_record(spec_csv_row(values)) == values,
{
    let parts = values.map_values(|v: Seq<char>| spec_csv_quote(v));
    assert forall|i: int| 0 <= i < parts.len() implies closed_field(#[trigger] parts[i]) by {
        lemma_csv_quote_closed(values[i]);
    }
    lemma_record_pieces_join(parts);
    assert forall|i: int| 0 <= i < values.len() implies #[trigger] split_record(
        spec_csv_row(values),
    )[i] == values[i] by {
        lemma_csv_quote_roundtrip(values[i]);
    }
    assert(split_record(spec_csv_row(values)) =~= values);
}

/// Build a CSV row from a slice of values.
pub fn csv_row(values: &[String]) -> (s: String)
    ensures
        s@ == spec_csv_row(values.deep_view()),
{
    let ghost parts = values.deep_view().map_values(|v: Seq<char>| spec_csv_quote(v));
    let mut s = String::new();
    let mut i: usize = 0;
    assert(parts.take(0) =~= Seq::<Seq<char>>::empty());
    while i < values.len()
        invariant
            parts == values.deep_view().map_values(|v: Seq<char>| spec_csv_quote(v)),
            parts.len() == values@.len(),
            i <= values@.len(),
            s@ == join(parts.take(i as int), seq![',']),
        decreases values@.len() - i,
    {
        proof {
            lemma_join_step(parts, seq![','], i as int);
        }
        if i > 0 {
            push_char(&mut s, ',');
        }
        let q = csv_quote(values[i].as_str());
        push_string(&mut s, &q);
        let ghost k = i as int;
        assert(parts[k] == spec_csv_quote(values@[k]@));
        i = i + 1;
        assert(s@ =~= join(parts.take(i as int), seq![',']));
    }
    assert(parts.take(values@.len() as int) =~= parts);
    s
}

/// The first change recorded for `column`.
pub open spec fn first_change(cs: Seq<ChangeView>, column: Seq<char>) -> Option<ChangeView>
    decreases cs.len(),
{
    if cs.len() == 0 {
        None
    } else if cs[0].column == column {
        Some(cs[0])
    } else {
        first_change(cs.drop_first(), column)
    }
}

/// `n` empty fields.
pub open spec fn empty_fields(n: nat) -> Seq<Seq<char>> {
    Seq::new(n, |i: int| Seq::<char>::empty())
}

/// The header record: `_status`, the headers, then each header after `_old_`.
pub open spec fn csv_header_fields(d: DiffView) -> Seq<Seq<char>> {
    seq!["_status"@] + d.headers + d.headers.map_values(|h: Seq<char>| "_old_"@ + h)
}

/// A row on one side only: its status, its values padded with empty fields up
/// to the header count, then one empty field per header.
pub open spec fn side_fields(d: DiffView, status: Seq<char>, row: Seq<Seq<char>>) -> Seq<Seq<char>> {
    let p = seq![status] + row;
    let padded = if p.len() < 1 + d.headers.len() {
        p + empty_fields((1 + d.headers.len() - p.len()) as nat)
    } else {
        p
    };
    padded + empty_fields(d.headers.len())
}

/// The current value of a modified row under header `h`: the key value for a
/// key column, the new value for a changed column, else empty.
pub open spec fn current_field(d: DiffView, m: ModifiedView, h: Seq<char>) -> Seq<char> {
    match first_index(d.key_columns, h) {
        Some(k) => if k < m.key.len() {
            m.key[k]
        } else {
            Seq::<char>::empty()
        },
        None => match first_change(m.changes, h) {
            Some(c) => c.new_value,
            None => Seq::<char>::empty(),
        },
    }
}

/// The previous value of a modified row under header `h`: the old value for a
/// changed non-key column, else empty.
pub open spec fn previous_field(d: DiffView, m: ModifiedView, h: Seq<char>) -> Seq<char> {
    match first_index(d.key_columns, h) {
        Some(k) => Seq::<char>::empty(),
        None => match first_change(m.changes, h) {
            Some(c) => c.old_value,
            None => Seq::<char>::empty(),
        },
    }
}

/// A modified row: `modified`, its current values, then its previous values.
pub open spec fn modified_fields(d: DiffView, m: ModifiedView) -> Seq<Seq<char>> {
    seq!["modified"@] + d.headers.map_values(|h: Seq<char>| current_field(d, m, h))
        + d.headers.map_values(|h: Seq<char>| previous_field(d, m, h))
}

/// Every record of the CSV report has as many fields as its header, except a
/// one-sided row that has more values than there are headers.
pub proof fn lemma_csv_fields_align(d: DiffView, m: ModifiedView, status: Seq<char>, row: Seq<Seq<char>>)
    ensures
        modified_fields(d, m).len() == csv_header_fields(d).len(),
        row.len() <= d.headers.len() ==> side_fields(d, status, row).len() == csv_header_fields(
            d,
        ).len(),
        side_fields(d, status, row).len() >= csv_header_fields(d).len(),
{
}

/// One CSV record and its line end.
pub open spec fn csv_line(fields: Seq<Seq<char>>) -> Seq<char> {
    spec_csv_row(fields) + seq!['\n']
}

/// The CSV report: the header record, then removed, added and modified rows.
pub open spec fn spec_format_csv_output(d: DiffView) -> Seq<char> {
    csv_line(csv_header_fields(d)) + flatten(
        d.removed.map_values(|r: Seq<Seq<char>>| csv_line(side_fields(d, "removed"@, r))),
    ) + flatten(d.added.map_values(|r: Seq<Seq<char>>| csv_line(side_fields(d, "added"@, r))))
        + flatten(d.modified.map_values(|m: ModifiedView| csv_line(modified_fields(d, m))))
}

/// The records of the CSV report, in order: the header record, one per removed
/// row, one per added row, one per modified row.
pub open spec fn csv_report_records(d: DiffView) -> Seq<Seq<Seq<char>>> {
    seq![csv_header_fields(d)] + d.removed.map_values(
        |r: Seq<Seq<char>>| side_fields(d, "removed"@, r),
    ) + d.added.map_values(|r: Seq<Seq<char>>| side_fields(d, "added"@, r)) + d.modified.map_values(
        |m: ModifiedView| modified_fields(d, m),
    )
}

proof fn lemma_flatten_concat(a: Seq<Seq<char>>, b: Seq<Seq<char>>)
    ensures
        flatten(a + b) == flatten(a) + flatten(b),
    decreases b.len(),
{
    if b.len() == 0 {
        assert(a + b =~= a);
        assert(flatten(a) + flatten(b) =~= flatten(a));
    } else {
        lemma_flatten_concat(a, b.drop_last());
        assert((a + b).drop_last() =~= a + b.drop_last());
        assert((a + b).last() == b.last());
        assert(flatten(a + b) =~= flatten(a) + flatten(b));
    }
}

proof fn lemma_first_change_at(cs: Seq<ChangeView>, column: Seq<char>, p: int)
    requires
        0 <= p < cs.len(),
        cs[p].column == column,
        forall|q: int| 0 <= q < p ==> cs[q].column != column,
    ensures
        first_change(cs, column) == Some(cs[p]),
    decreases p,
{
    if p > 0 {
        assert(cs[0].column != column);
        lemma_first_change_at(cs.drop_first(), column, p - 1);
    }
}

proof fn lemma_first_change_absent(cs: Seq<ChangeView>, column: Seq<char>)
    requires
        forall|q: int| 0 <= q < cs.len() ==> cs[q].column != column,
    ensures
        first_change(cs, column) is None,
    decreases cs.len(),
{
    if cs.len() > 0 {
        assert(cs[0].column != column);
        lemma_first_change_absent(cs.drop_first(), column);
    }
}

/// The CSV report is its records, each written as a CSV row and a newline: the
/// header record (`_status`, each header, then each header after `_old_`), then
/// each removed row, each added row, each modified row, in order. A removed or
/// added row's record starts with its status, then its values under their
/// headers.
pub proof fn lemma_csv_report_records(d: DiffView)
    ensures
        spec_format_csv_output(d) == flatten(
            csv_report_records(d).map_values(
                |r: Seq<Seq<char>>| spec_csv_row(r) + seq!['\n'],
            ),
        ),
        csv_report_records(d).len() == 1 + d.removed.len() + d.added.len() + d.modified.len(),
        csv_report_records(d)[0].len() == 1 + 2 * d.headers.len(),
        csv_report_records(d)[0][0] == "_status"@,
        forall|j: int|
            0 <= j < d.headers.len() ==> csv_report_records(d)[0][1 + j] == #[trigger] d.headers[j]
                && csv_report_records(d)[0][1 + d.headers.len() + j] == "_old_"@ + d.headers[j],
        forall|i: int|
            0 <= i < d.removed.len() ==> #[trigger] csv_report_records(d)[1 + i][0] == "removed"@,
        forall|i: int, j: int|
            0 <= i < d.removed.len() && 0 <= j < d.headers.len() && j < d.removed[i].len()
                ==> csv_report_records(d)[1 + i][1 + j] == #[trigger] d.removed[i][j],
        forall|i: int|
            0 <= i < d.added.len() ==> #[trigger] csv_report_records(d)[1 + d.removed.len()
                + i][0] == "added"@,
        forall|i: int, j: int|
            0 <= i < d.added.len() && 0 <= j < d.headers.len() && j < d.added[i].len()
                ==> csv_report_records(d)[1 + d.removed.len() + i][1 + j]
                == #[trigger] d.added[i][j],
{
    let recs = csv_report_records(d);
    let line = |r: Seq<Seq<char>>| spec_csv_row(r) + seq!['\n'];
    let a = seq![csv_header_fields(d)];
    let b = d.removed.map_values(|r: Seq<Seq<char>>| side_fields(d, "removed"@, r));
    let c = d.added.map_values(|r: Seq<Seq<char>>| side_fields(d, "added"@, r));
    let e = d.modified.map_values(|m: ModifiedView| modified_fields(d, m));
    assert(recs == a + b + c + e);
    assert(recs.map_values(line) =~= a.map_values(line) + b.map_values(line) + c.map_values(line)
        + e.map_values(line));
    lemma_flatten_concat(a.map_values(line) + b.map_values(line) + c.map_values(line), e.map_values(line));
    lemma_flatten_concat(a.map_values(line) + b.map_values(line), c.map_values(line));
    lemma_flatten_concat(a.map_values(line), b.map_values(line));
    assert(flatten(a.map_values(line)) == csv_line(csv_header_fields(d))) by {
        let am = a.map_values(line);
        assert(am.drop_last() =~= Seq::<Seq<char>>::empty());
        assert(flatten(am.drop_last()) == Seq::<char>::empty());
        assert(am.last() == csv_line(csv_header_fields(d)));
        assert(flatten(am) =~= csv_line(csv_header_fields(d)));
    }
    assert(b.map_values(line) =~= d.removed.map_values(
        |r: Seq<Seq<char>>| csv_line(side_fields(d, "removed"@, r)),
    ));
    assert(c.map_values(line) =~= d.added.map_values(
        |r: Seq<Seq<char>>| csv_line(side_fields(d, "added"@, r)),
    ));
    assert(e.map_values(line) =~= d.modified.map_values(
        |m: ModifiedView| csv_line(modified_fields(d, m)),
    ));
    assert forall|i: int, j: int|
        0 <= i < d.removed.len() && 0 <= j < d.headers.len() && j < d.removed[i].len()
            implies recs[1 + i][1 + j] == #[trigger] d.removed[i][j] by {
        assert(recs[1 + i] == side_fields(d, "removed"@, d.removed[i]));
    }
    assert forall|i: int, j: int|
        0 <= i < d.added.len() && 0 <= j < d.headers.len() && j < d.added[i].len()
            implies recs[1 + d.removed.len() + i][1 + j] == #[trigger] d.added[i][j] by {
        assert(recs[1 + d.removed.len() + i] == side_fields(d, "added"@, d.added[i]));
    }
    assert forall|i: int| 0 <= i < d.removed.len() implies #[trigger] recs[1 + i][0]
        == "removed"@ by {
        assert(recs[1 + i] == side_fields(d, "removed"@, d.removed[i]));
    }
    assert forall|i: int| 0 <= i < d.added.len() implies #[trigger] recs[1 + d.removed.len()
        + i][0] == "added"@ by {
        assert(recs[1 + d.removed.len() + i] == side_fields(d, "added"@, d.added[i]));
    }
}

/// The record of the `i`-th modified row: `modified`, then under each header
/// its current value, then under each `_old_` header its previous value. Under
/// the header that is the `k`-th key column (its first occurrence) stands the
/// row's `k`-th key value, with nothing as previous value; under a header that
/// is no key column and that a change names (its first change) stand that
/// change's new and old values; under any other header, nothing.
pub proof fn lemma_csv_modified_record(d: DiffView, i: int)
    requires
        0 <= i < d.modified.len(),
    ensures
        ({
            let rec = csv_report_records(d)[1 + d.removed.len() + d.added.len() + i];
            let m = d.modified[i];
            let n = d.headers.len();
            &&& rec.len() == 1 + 2 * n
            &&& rec[0] == "modified"@
            &&& forall|j: int, k: int|
                0 <= j < n && 0 <= k < d.key_columns.len() && k < m.key.len() && #[trigger] d.headers[j]
                    == #[trigger] d.key_columns[k] && (forall|q: int|
                    0 <= q < k ==> d.key_columns[q] != d.key_columns[k]) ==> rec[1 + j] == m.key[k]
                    && rec[1 + n + j] == Seq::<char>::empty()
            &&& forall|j: int, p: int|
                0 <= j < n && 0 <= p < m.changes.len() && #[trigger] m.changes[p].column
                    == #[trigger] d.headers[j] && (forall|q: int|
                    0 <= q < d.key_columns.len() ==> d.key_columns[q] != d.headers[j]) && (forall|
                    q: int,
                |
                    0 <= q < p ==> m.changes[q].column != d.headers[j]) ==> rec[1 + j]
                    == m.changes[p].new_value && rec[1 + n + j] == m.changes[p].old_value
            &&& forall|j: int|
                0 <= j < n && (forall|q: int|
                    0 <= q < d.key_columns.len() ==> d.key_columns[q] != #[trigger] d.headers[j])
                    && (forall|q: int| 0 <= q < m.changes.len() ==> m.changes[q].column != d.headers[j])
                    ==> rec[1 + j] == Seq::<char>::empty() && rec[1 + n + j] == Seq::<char>::empty()
        }),
{
    let recs = csv_report_records(d);
    let m = d.modified[i];
    let n = d.headers.len();
    let rec = recs[1 + d.removed.len() + d.added.len() + i];
    assert(rec == modified_fields(d, m));
    assert forall|j: int, k: int|
        0 <= j < n && 0 <= k < d.key_columns.len() && k < m.key.len() && #[trigger] d.headers[j]
            == #[trigger] d.key_columns[k] && (forall|q: int|
            0 <= q < k ==> d.key_columns[q] != d.key_columns[k]) implies rec[1 + j] == m.key[k]
            && rec[1 + n + j] == Seq::<char>::empty() by {
        lemma_first_index_at(d.key_columns, d.headers[j], k);
    }
    assert forall|j: int, p: int|
        0 <= j < n && 0 <= p < m.changes.len() && #[trigger] m.changes[p].column
            == #[trigger] d.headers[j] && (forall|q: int|
            0 <= q < d.key_columns.len() ==> d.key_columns[q] != d.headers[j]) && (forall|q: int|
            0 <= q < p ==> m.changes[q].column != d.headers[j]) implies rec[1 + j]
            == m.changes[p].new_value && rec[1 + n + j] == m.changes[p].old_value by {
        lemma_first_index_absent(d.key_columns, d.headers[j]);
        lemma_first_change_at(m.changes, d.headers[j], p);
    }
    assert forall|j: int|
        0 <= j < n && (forall|q: int|
            0 <= q < d.key_columns.len() ==> d.key_columns[q] != #[trigger] d.headers[j]) && (forall|
            q: int,
        |
            0 <= q < m.changes.len() ==> m.changes[q].column != d.headers[j]) implies rec[1 + j]
            == Seq::<char>::empty() && rec[1 + n + j] == Seq::<char>::empty() by {
        lemma_first_index_absent(d.key_columns, d.headers[j]);
        lemma_first_change_absent(m.changes, d.headers[j]);
    }
}

/// A `String` holding the characters of a literal.
pub(crate) fn owned(t: &str) -> (s: String)
    ensures
        s@ == t@,
{
    let mut s = String::new();
    push_str(&mut s, t);
    assert(s@ =~= t@);
    s
}

/// Appends one CSV record and its line end.
fn push_csv_line(s: &mut String, fields: &Vec<String>)
    ensures
        final(s)@ == old(s)@ + csv_line(fields.deep_view()),
{
    let r = csv_row(fields.as_slice());
    push_string(s, &r);
    push_char(s, '\n');
    assert(final(s)@ =~= old(s)@ + csv_line(fields.deep_view()));
}

/// The position of the first entry equal to `x`.
fn find_index(s: &Vec<String>, x: &String) -> (r: Option<usize>)
    ensures
        match r {
            Some(i) => first_index(s.deep_view(), x@) == Some(i as int),
            None => first_index(s.deep_view(), x@) is None,
        },
{
    let mut i: usize = 0;
    assert(s.deep_view().skip(0) =~= s.deep_view());
    while i < s.len()
        invariant
            i <= s@.len(),
            first_index(s.deep_view(), x@) == match first_index(s.deep_view().skip(i as int), x@) {
                Some(j) => Some(j + i),
                None => None,
            },
        decreases s@.len() - i,
    {
        let ghost rest = s.deep_view().skip(i as int);
        assert(rest.drop_first() =~= s.deep_view().skip(i + 1));
        assert(rest[0] == s@[i as int]@);
        if s[i] == *x {
            return Some(i);
        }
        i = i + 1;
    }
    assert(s.deep_view().skip(i as int).len() == 0);
    None
}

/// The index of the first change recorded for `column`.
fn find_change(cs: &Vec<CellChange>, column: &String) -> (r: Option<usize>)
    ensures
        match r {
            Some(i) => i < cs@.len() && first_change(
                cs@.map_values(|c: CellChange| c@),
                column@,
            ) == Some(cs@[i as int]@),
            None => first_change(cs@.map_values(|c: CellChange| c@), column@) is None,
        },
{
    let ghost all = cs@.map_values(|c: CellChange| c@);
    let mut i: usize = 0;
    assert(all.skip(0) =~= all);
    while i < cs.len()
        invariant
            all == cs@.map_values(|c: CellChange| c@),
            i <= cs@.len(),
            first_change(all, column@) == first_change(all.skip(i as int), column@),
        decreases cs@.len() - i,
    {
        let ghost rest = all.skip(i as int);
        assert(rest.drop_first() =~= all.skip(i + 1));
        assert(rest[0] == cs@[i as int]@);
        if cs[i].column == *column {
            return Some(i);
        }
        i = i + 1;
    }
    None
}

/// The CSV fields of a row present on one side only.
fn side_record(d: &DiffResult, status: &str, row: &DiffRow) -> (fields: Vec<String>)
    ensures
        fields.deep_view() == side_fields(d@, status@, row@),
{
    let h = d.headers.len();
    let mut parts: Vec<String> = Vec::new();
    push_field(&mut parts, owned(status));
    let mut i: usize = 0;
    assert(parts.deep_view() =~= seq![status@] + row@.take(0));
    while i < row.values.len()
        invariant
            i <= row.values@.len(),
            parts.deep_view() == seq![status@] + row@.take(i as int),
        decreases row.values@.len() - i,
    {
        push_field(&mut parts, row.values[i].clone());
        i = i + 1;
        assert(parts.deep_view() =~= seq![status@] + row@.take(i as int));
    }
    assert(row@.take(row.values@.len() as int) =~= row@);
    let ghost p = seq![status@] + row@;
    let ghost padded = if p.len() < 1 + h {
        p + empty_fields((1 + h - p.len()) as nat)
    } else {
        p
    };
    while parts.len() <= h
        invariant
            h == d@.headers.len(),
            p == seq![status@] + row@,
            padded == if p.len() < 1 + h {
                p + empty_fields((1 + h - p.len()) as nat)
            } else {
                p
            },
            p.len() <= parts.deep_view().len(),
            parts.deep_view().len() <= 1 + h || parts.deep_view() == p,
            parts.deep_view() == p + empty_fields((parts.deep_view().len() - p.len()) as nat),
        decreases 1 + h - parts@.len(),
    {
        push_field(&mut parts, String::new());
        assert(parts.deep_view() =~= p + empty_fields((parts.deep_view().len() - p.len()) as nat));
    }
    assert(parts.deep_view() =~= padded);
    let mut j: usize = 0;
    assert(parts.deep_view() =~= padded + empty_fields(0));
    while j < h
        invariant
            h == d@.headers.len(),
            j <= h,
            parts.deep_view() == padded + empty_fields(j as nat),
        decreases h - j,
    {
        push_field(&mut parts, String::new());
        j = j + 1;
        assert(parts.deep_view() =~= padded + empty_fields(j as nat));
    }
    parts
}

/// The CSV fields of a modified row.
fn modified_record(d: &DiffResult, m: &ModifiedRow) -> (fields: Vec<String>)
    ensures
        fields.deep_view() == modified_fields(d@, m@),
{
    let mut main_cols: Vec<String> = Vec::new();
    let mut old_cols: Vec<String> = Vec::new();
    let mut i: usize = 0;
    while i < d.headers.len()
        invariant
            i <= d.headers@.len(),
            main_cols.deep_view() == d@.headers.take(i as int).map_values(
                |h: Seq<char>| current_field(d@, m@, h),
            ),
            old_cols.deep_view() == d@.headers.take(i as int).map_values(
                |h: Seq<char>| previous_field(d@, m@, h),
            ),
        decreases d.headers@.len() - i,
    {
        let h = &d.headers[i];
        match find_index(&d.key_columns, h) {
            Some(k) => {
                if k < m.key.len() {
                    push_field(&mut main_cols, m.key[k].clone());
                } else {
                    push_field(&mut main_cols, String::new());
                }
                push_field(&mut old_cols, String::new());
            },
            None => match find_change(&m.changes, h) {
                Some(c) => {
                    push_field(&mut main_cols, m.changes[c].new_value.clone());
                    push_field(&mut old_cols, m.changes[c].old_value.clone());
                },
                None => {
                    push_field(&mut main_cols, String::new());
                    push_field(&mut old_cols, String::new());
                },
            },
        }
        i = i + 1;
        assert(main_cols.deep_view() =~= d@.headers.take(i as int).map_values(
            |h: Seq<char>| current_field(d@, m@, h),
        ));
        assert(old_cols.deep_view() =~= d@.headers.take(i as int).map_values(
            |h: Seq<char>| previous_field(d@, m@, h),
        ));
    }
    assert(d@.headers.take(d.headers@.len() as int) =~= d@.headers);
    let mut parts: Vec<String> = Vec::new();
    push_field(&mut parts, owned("modified"));
    let mut a: usize = 0;
    let ghost start = parts.deep_view();
    while a < main_cols.len()
        invariant
            start == seq!["modified"@],
            a <= main_cols@.len(),
            parts.deep_view() == start + main_cols.deep_view().take(a as int),
        decreases main_cols@.len() - a,
    {
        push_field(&mut parts, main_cols[a].clone());
        a = a + 1;
        assert(parts.deep_view() =~= start + main_cols.deep_view().take(a as int));
    }
    assert(main_cols.deep_view().take(main_cols@.len() as int) =~= main_cols.deep_view());
    let ghost mid = parts.deep_view();
    let mut b: usize = 0;
    while b < old_cols.len()
        invariant
            b <= old_cols@.len(),
            parts.deep_view() == mid + old_cols.deep_view().take(b as int),
        decreases old_cols@.len() - b,
    {
        push_field(&mut parts, old_cols[b].clone());
        b = b + 1;
        assert(parts.deep_view() =~= mid + old_cols.deep_view().take(b as int));
    }
    assert(old_cols.deep_view().take(old_cols@.len() as int) =~= old_cols.deep_view());
    assert(parts.deep_view() =~= modified_fields(d@, m@));
    parts
}

/// Format diff result as CSV.
///
/// Header: _status, col1, col2, ..., _old_col1, _old_col2, ...
/// Added rows: "added" + values + empty _old_ columns
/// Removed rows: "removed" + values + empty _old_ columns
/// Modified rows: "modified" + new values + old values in _old_ columns
pub fn format_csv_output(result: &DiffResult) -> (s: String)
    ensures
        s@ == spec_format_csv_output(result@),
{
    let mut s = String::new();
    let mut header: Vec<String> = Vec::new();
    push_field(&mut header, owned("_status"));
    let mut i: usize = 0;
    while i < result.headers.len()
        invariant
            i <= result.headers@.len(),
            header.deep_view() == seq!["_status"@] + result@.headers.take(i as int),
        decreases result.headers@.len() - i,
    {
        push_field(&mut header, result.headers[i].clone());
        i = i + 1;
        assert(header.deep_view() =~= seq!["_status"@] + result@.headers.take(i as int));
    }
    let mut j: usize = 0;
    assert(result@.headers.take(result.headers@.len() as int) =~= result@.headers);
    assert(header.deep_view() =~= seq!["_status"@] + result@.headers + result@.headers.take(
        0,
    ).map_values(|h: Seq<char>| "_old_"@ + h));
    while j < result.headers.len()
        invariant
            j <= result.headers@.len(),
            header.deep_view() == seq!["_status"@] + result@.headers + result@.headers.take(
                j as int,
            ).map_values(|h: Seq<char>| "_old_"@ + h),
        decreases result.headers@.len() - j,
    {
        let mut name = owned("_old_");
        push_string(&mut name, &result.headers[j]);
        push_field(&mut header, name);
        j = j + 1;
        assert(header.deep_view() =~= seq!["_status"@] + result@.headers + result@.headers.take(
            j as int,
        ).map_values(|h: Seq<char>| "_old_"@ + h));
    }
    assert(header.deep_view() =~= csv_header_fields(result@));
    push_csv_line(&mut s, &header);
    let ghost removed = result@.removed.map_values(
        |r: Seq<Seq<char>>| csv_line(side_fields(result@, "removed"@, r)),
    );
    let ghost added = result@.added.map_values(
        |r: Seq<Seq<char>>| csv_line(side_fields(result@, "added"@, r)),
    );
    let ghost mods = result@.modified.map_values(
        |m: ModifiedView| csv_line(modified_fields(result@, m)),
    );
    let ghost base = s@;
    let mut k: usize = 0;
    assert(removed.take(0) =~= Seq::<Seq<char>>::empty());
    assert(base =~= base + flatten(removed.take(0)));
    while k < result.removed.len()
        invariant
            removed == result@.removed.map_values(
                |r: Seq<Seq<char>>| csv_line(side_fields(result@, "removed"@, r)),
            ),
            removed.len() == result.removed@.len(),
            k <= result.removed@.len(),
            s@ == base + flatten(removed.take(k as int)),
        decreases result.removed@.len() - k,
    {
        proof {
            lemma_flatten_step(removed, k as int);
        }
        let fields = side_record(result, "removed", &result.removed[k]);
        push_csv_line(&mut s, &fields);
        let ghost q = k as int;
        assert(removed[q] == csv_line(side_fields(result@, "removed"@, result.removed@[q]@)));
        k = k + 1;
        assert(s@ =~= base + flatten(removed.take(k as int)));
    }
    assert(removed.take(result.removed@.len() as int) =~= removed);
    let ghost base2 = s@;
    k = 0;
    assert(added.take(0) =~= Seq::<Seq<char>>::empty());
    assert(base2 =~= base2 + flatten(added.take(0)));
    while k < result.added.len()
        invariant
            added == result@.added.map_values(
                |r: Seq<Seq<char>>| csv_line(side_fields(result@, "added"@, r)),
            ),
            added.len() == result.added@.len(),
            k <= result.added@.len(),
            s@ == base2 + flatten(added.take(k as int)),
        decreases result.added@.len() - k,
    {
        proof {
            lemma_flatten_step(added, k as int);
        }
        let fields = side_record(result, "added", &result.added[k]);
        push_csv_line(&mut s, &fields);
        let ghost q = k as int;
        assert(added[q] == csv_line(side_fields(result@, "added"@, result.added@[q]@)));
        k = k + 1;
        assert(s@ =~= base2 + flatten(added.take(k as int)));
    }
    assert(added.take(result.added@.len() as int) =~= added);
    let ghost base3 = s@;
    k = 0;
    assert(mods.take(0) =~= Seq::<Seq<char>>::empty());
    assert(base3 =~= base3 + flatten(mods.take(0)));
    while k < result.modified.len()
        invariant
            mods == result@.modified.map_values(
                |m: ModifiedView| csv_line(modified_fields(result@, m)),
            ),
            mods.len() == result.modified@.len(),
            k <= result.modified@.len(),
            s@ == base3 + flatten(mods.take(k as int)),
        decreases result.modified@.len() - k,
    {
        proof {
            lemma_flatten_step(mods, k as int);
        }
        let fields = modified_record(result, &result.modified[k]);
        push_csv_line(&mut s, &fields);
        let ghost q = k as int;
        assert(mods[q] == csv_line(modified_fields(result@, result.modified@[q]@)));
        k = k + 1;
        assert(s@ =~= base3 + flatten(mods.take(k as int)));
    }
    assert(mods.take(result.modified@.len() as int) =~= mods);
    assert(s@ =~= spec_format_csv_output(result@));
    s
}

} // verus!
