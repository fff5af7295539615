//! The decisions the three tools make around reading and printing: argument
//! checks, what to show, how lists given on the command line are read, and
//! exit codes.
use crate::diff::{spec_has_differences, DiffResult};
use crate::format::{spec_same_family, Format};
use crate::metadata::SheetInfo;
use crate::text::{
    chars_of, decimal, first_index, has_infix, is_trim_of, join, lemma_split_join,
    lemma_trim_shape, parse_usize, pieces_view, push_decimal, push_field, push_str, push_string,
    spec_parse_usize, split_chars, split_on, str_contains, string_of, trim, trim_chars,
};
use vstd::prelude::*;

verus! {

/// Two options that may not be given together.
#[derive(Debug, Clone, Copy, PartialEq, Eq, Structural)]
pub enum ArgConflict {
    SchemaDescribe,
    SchemaInfo,
    DescribeInfo,
    SampleSchema,
    SampleDescribe,
    SampleInfo,
    SampleHead,
    SampleTail,
    SampleAll,
    HeadTail,
}

/// The message for each conflict.
pub open spec fn spec_conflict_message(c: ArgConflict) -> Seq<char> {
    match c {
        ArgConflict::SchemaDescribe => "--schema and --describe are mutually exclusive"@,
        ArgConflict::SchemaInfo => "--schema and --info are mutually exclusive"@,
        ArgConflict::DescribeInfo => "--describe and --info are mutually exclusive"@,
        ArgConflict::SampleSchema => "--sample and --schema are mutually exclusive"@,
        ArgConflict::SampleDescribe => "--sample and --describe are mutually exclusive"@,
        ArgConflict::SampleInfo => "--sample and --info are mutually exclusive"@,
        ArgConflict::SampleHead => "--sample and --head are mutually exclusive"@,
        ArgConflict::SampleTail => "--sample and --tail are mutually exclusive"@,
        ArgConflict::SampleAll => "--sample and --all are mutually exclusive"@,
        ArgConflict::HeadTail => "--head and --tail are mutually exclusive"@,
    }
}

impl ArgConflict {
    /// The message that reports the conflict.
    pub fn message(&self) -> (s: &'static str)
        ensures
            s@ == spec_conflict_message(*self),
    {
        match self {
            ArgConflict::SchemaDescribe => "--schema and --describe are mutually exclusive",
            ArgConflict::SchemaInfo => "--schema and --info are mutually exclusive",
            ArgConflict::DescribeInfo => "--describe and --info are mutually exclusive",
            ArgConflict::SampleSchema => "--sample and --schema are mutually exclusive",
            ArgConflict::SampleDescribe => "--sample and --describe are mutually exclusive",
            ArgConflict::SampleInfo => "--sample and --info are mutually exclusive",
            ArgConflict::SampleHead => "--sample and --head are mutually exclusive",
            ArgConflict::SampleTail => "--sample and --tail are mutually exclusive",
            ArgConflict::SampleAll => "--sample and --all are mutually exclusive",
            ArgConflict::HeadTail => "--head and --tail are mutually exclusive",
        }
    }
}

/// The viewing options of `dtcat`.
#[derive(Debug, Clone, Copy, PartialEq, Eq, Structural)]
pub struct CatFlags {
    pub schema: bool,
    pub describe: bool,
    pub info: bool,
    pub all: bool,
    pub csv: bool,
    pub head: Option<usize>,
    pub tail: Option<usize>,
    pub sample: Option<usize>,
}

/// The first conflict among `dtcat`'s options, checked in a fixed order.
pub open spec fn spec_cat_conflict(f: CatFlags) -> Option<ArgConflict> {
    if f.schema && f.describe {
        Some(ArgConflict::SchemaDescribe)
    } else if f.schema && f.info {
        Some(ArgConflict::SchemaInfo)
    } else if f.describe && f.info {
        Some(ArgConflict::DescribeInfo)
    } else if f.sample is Some && f.schema {
        Some(ArgConflict::SampleSchema)
    } else if f.sample is Some && f.describe {
        Some(ArgConflict::SampleDescribe)
    } else if f.sample is Some && f.info {
        Some(ArgConflict::SampleInfo)
    } else if f.sample is Some && f.head is Some {
        Some(ArgConflict::SampleHead)
    } else if f.sample is Some && f.tail is Some {
        Some(ArgConflict::SampleTail)
    } else if f.sample is Some && f.all {
        Some(ArgConflict::SampleAll)
    } else {
        None
    }
}

/// `dtcat`'s options conflict exactly when two of the modes `--schema`,
/// `--describe`, `--info` are given, or `--sample` is given with a mode or with
/// `--head`, `--tail` or `--all`; a conflict of two modes is reported before
/// one with `--sample`.
pub proof fn lemma_cat_conflicts(f: CatFlags)
    ensures
        spec_cat_conflict(f) is Some <==> ((f.schema && f.describe) || (f.schema && f.info) || (
        f.describe && f.info) || (f.sample is Some && (f.schema || f.describe || f.info
            || f.head is Some || f.tail is Some || f.all))),
        spec_cat_conflict(f) matches Some(c) ==> (c is SchemaDescribe ==> f.schema && f.describe)
            && (c is SchemaInfo ==> f.schema && f.info) && (c is DescribeInfo ==> f.describe
            && f.info) && (c is SampleSchema ==> f.sample is Some && f.schema) && (c is SampleDescribe
            ==> f.sample is Some && f.describe) && (c is SampleInfo ==> f.sample is Some && f.info)
            && (c is SampleHead ==> f.sample is Some && f.head is Some) && (c is SampleTail
            ==> f.sample is Some && f.tail is Some) && (c is SampleAll ==> f.sample is Some && f.all),
        (f.schema && f.describe) || (f.schema && f.info) || (f.describe && f.info) ==> (
        spec_cat_conflict(f) matches Some(c) && (c is SchemaDescribe || c is SchemaInfo
            || c is DescribeInfo)),
{
}

/// Check `dtcat`'s options: the modes `--schema`, `--describe` and `--info`
/// exclude one another, and `--sample` excludes `--schema`, `--describe`,
/// `--info`, `--head`, `--tail` and `--all`.
pub fn validate_cat_args(f: &CatFlags) -> (r: Result<(), ArgConflict>)
    ensures
        match spec_cat_conflict(*f) {
            Some(c) => r == Err::<(), ArgConflict>(c),
            None => r is Ok,
        },
        r is Ok ==> !(f.schema && f.describe) && !(f.schema && f.info) && !(f.describe && f.info),
{
    if f.schema && f.describe {
        return Err(ArgConflict::SchemaDescribe);
    }
    if f.schema && f.info {
        return Err(ArgConflict::SchemaInfo);
    }
    if f.describe && f.info {
        return Err(ArgConflict::DescribeInfo);
    }
    if f.sample.is_some() {
        if f.schema {
            return Err(ArgConflict::SampleSchema);
        }
        if f.describe {
            return Err(ArgConflict::SampleDescribe);
        }
        if f.info {
            return Err(ArgConflict::SampleInfo);
        }
        if f.head.is_some() {
            return Err(ArgConflict::SampleHead);
        }
        if f.tail.is_some() {
            return Err(ArgConflict::SampleTail);
        }
        if f.all {
            return Err(ArgConflict::SampleAll);
        }
    }
    Ok(())
}

/// Check `dtfilter`'s options: `--head` excludes `--tail`.
pub fn validate_filter_args(head: Option<usize>, tail: Option<usize>) -> (r: Result<(), ArgConflict>)
    ensures
        r is Err <==> (head is Some && tail is Some),
        r is Err ==> r == Err::<(), ArgConflict>(ArgConflict::HeadTail),
{
    if head.is_some() && tail.is_some() {
        return Err(ArgConflict::HeadTail);
    }
    Ok(())
}

/// Rows shown in full when there are at most this many.
pub const DEFAULT_THRESHOLD: usize = 50;

/// Rows shown at each end of a longer table.
pub const DEFAULT_HEAD_TAIL: usize = 25;

/// Which rows of a table to show.
#[derive(Debug, Clone, Copy, PartialEq, Eq, Structural)]
pub enum DisplayPlan {
    /// Every row.
    All,
    /// The first rows only.
    Head(usize),
    /// The last rows only.
    Tail(usize),
    /// The first and the last rows, with a line for those left out.
    HeadTail(usize, usize),
}

/// The rows shown: as asked with `--head`/`--tail`; else all of them when
/// `--all` is given or the table is short; else the two ends.
pub open spec fn spec_display_plan(
    head: Option<usize>,
    tail: Option<usize>,
    all: bool,
    height: usize,
) -> DisplayPlan {
    match (head, tail) {
        (Some(h), Some(t)) => DisplayPlan::HeadTail(h, t),
        (Some(h), None) => DisplayPlan::Head(h),
        (None, Some(t)) => DisplayPlan::Tail(t),
        (None, None) => if all || height <= DEFAULT_THRESHOLD {
            DisplayPlan::All
        } else {
            DisplayPlan::HeadTail(DEFAULT_HEAD_TAIL, DEFAULT_HEAD_TAIL)
        },
    }
}

/// Decide which rows to show (see `spec_display_plan`).
pub fn display_plan(head: Option<usize>, tail: Option<usize>, all: bool, height: usize) -> (p:
    DisplayPlan)
    ensures
        p == spec_display_plan(head, tail, all, height),
{
    match (head, tail) {
        (Some(h), Some(t)) => DisplayPlan::HeadTail(h, t),
        (Some(h), None) => DisplayPlan::Head(h),
        (None, Some(t)) => DisplayPlan::Tail(t),
        (None, None) => if all || height <= DEFAULT_THRESHOLD {
            DisplayPlan::All
        } else {
            DisplayPlan::HeadTail(DEFAULT_HEAD_TAIL, DEFAULT_HEAD_TAIL)
        },
    }
}

/// What `dtcat` prints for a table it has read.
#[derive(Debug, Clone, Copy, PartialEq, Eq, Structural)]
pub enum CatOutput {
    /// A note that the sheet has no data.
    EmptySheet,
    /// Column names and types.
    Schema,
    /// Summary statistics.
    Describe,
    /// The table as CSV.
    Csv,
    /// The table as a markdown table, with these rows.
    Table(DisplayPlan),
}

/// The output for a table: an empty table has a note of its own; otherwise
/// `--schema`, then `--describe`, then `--csv` decide, and else the rows.
pub open spec fn spec_cat_output(f: CatFlags, is_empty: bool, height: usize) -> CatOutput {
    if is_empty {
        CatOutput::EmptySheet
    } else if f.schema {
        CatOutput::Schema
    } else if f.describe {
        CatOutput::Describe
    } else if f.csv {
        CatOutput::Csv
    } else {
        CatOutput::Table(spec_display_plan(f.head, f.tail, f.all, height))
    }
}

/// Decide what `dtcat` prints for a table (see `spec_cat_output`).
pub fn cat_output(f: &CatFlags, is_empty: bool, height: usize) -> (o: CatOutput)
    ensures
        o == spec_cat_output(*f, is_empty, height),
{
    if is_empty {
        CatOutput::EmptySheet
    } else if f.schema {
        CatOutput::Schema
    } else if f.describe {
        CatOutput::Describe
    } else if f.csv {
        CatOutput::Csv
    } else {
        CatOutput::Table(display_plan(f.head, f.tail, f.all, height))
    }
}

/// When `dtcat` shows the rows of a non-empty table (no `--schema`,
/// `--describe` or `--csv`), each row option keeps its own role: `--head n`
/// alone shows the first `n` rows, `--tail n` alone the last `n`, both give
/// both ends; with neither, a table of at most 50 rows or `--all` shows every
/// row, and a longer one its first and last 25.
pub proof fn lemma_cat_rows_follow_flags(f: CatFlags, height: usize)
    requires
        !f.schema,
        !f.describe,
        !f.csv,
    ensures
        f.head is Some && f.tail is None ==> spec_cat_output(f, false, height)
            == CatOutput::Table(DisplayPlan::Head(f.head.unwrap())),
        f.tail is Some && f.head is None ==> spec_cat_output(f, false, height)
            == CatOutput::Table(DisplayPlan::Tail(f.tail.unwrap())),
        f.head is Some && f.tail is Some ==> spec_cat_output(f, false, height)
            == CatOutput::Table(DisplayPlan::HeadTail(f.head.unwrap(), f.tail.unwrap())),
        f.head is None && f.tail is None && (f.all || height <= 50) ==> spec_cat_output(
            f,
            false,
            height,
        ) == CatOutput::Table(DisplayPlan::All),
        f.head is None && f.tail is None && !f.all && height > 50 ==> spec_cat_output(
            f,
            false,
            height,
        ) == CatOutput::Table(DisplayPlan::HeadTail(25, 25)),
{
}

/// A table with no rows gets its note whatever the options; otherwise
/// `--schema` wins over `--describe`, and both over `--csv`.
pub proof fn lemma_cat_output_modes(f: CatFlags, height: usize)
    ensures
        spec_cat_output(f, true, height) == CatOutput::EmptySheet,
        f.schema ==> spec_cat_output(f, false, height) == CatOutput::Schema,
        !f.schema && f.describe ==> spec_cat_output(f, false, height) == CatOutput::Describe,
        !f.schema && !f.describe && f.csv ==> spec_cat_output(f, false, height) == CatOutput::Csv,
{
}

/// Whether `dtcat` lists the sheets of a workbook instead of showing one:
/// when no sheet is named and there is more than one.
pub fn lists_sheets(format: Format, sheet_given: bool, sheet_count: usize) -> (r: bool)
    ensures
        r == (format is Excel && !sheet_given && sheet_count > 1),
{
    match format {
        Format::Excel => !sheet_given && sheet_count > 1,
        _ => false,
    }
}

/// How many rows to sample: `None` when no sample is asked for or when it
/// would hold the whole table.
pub fn sample_size(sample: Option<usize>, height: usize) -> (r: Option<usize>)
    ensures
        match sample {
            Some(n) => if n >= height {
                r is None
            } else {
                r == Some(n)
            },
            None => r is None,
        },
{
    match sample {
        Some(n) => if n >= height {
            None
        } else {
            Some(n)
        },
        None => None,
    }
}

/// Sheet info for a table that is not a workbook sheet: the header row is
/// counted among the rows.
pub fn sheet_info_from_df(file_name: &str, height: usize, width: usize) -> (s: SheetInfo)
    requires
        height < usize::MAX,
    ensures
        s.name@ == file_name@,
        s.rows == height + 1,
        s.cols == width,
{
    SheetInfo { name: string_of(chars_of(file_name).as_slice()), rows: height + 1, cols: width }
}

/// The rows under the header of a sheet with `rows` rows in all.
pub open spec fn data_rows(rows: nat) -> nat {
    if rows == 0 {
        0
    } else {
        (rows - 1) as nat
    }
}

/// One line of a workbook's sheet list: `  name (R rows x C cols)`.
pub open spec fn spec_sheet_line(name: Seq<char>, rows: nat, cols: nat) -> Seq<char> {
    "  "@ + name + " ("@ + decimal(data_rows(rows)) + " rows x "@ + decimal(cols) + " cols)"@
}

/// A sheet's line counts its data rows, the header row left out, and its
/// columns: a sheet of `r` rows in all shows `r - 1` rows (none when it has no
/// row at all).
pub proof fn lemma_sheet_line_counts_data_rows(name: Seq<char>, rows: nat, cols: nat)
    ensures
        rows >= 1 ==> spec_sheet_line(name, rows, cols) == "  "@ + name + " ("@ + decimal(
            (rows - 1) as nat,
        ) + " rows x "@ + decimal(cols) + " cols)"@,
        spec_sheet_line(name, 0, cols) == "  "@ + name + " ("@ + decimal(0) + " rows x "@ + decimal(
            cols,
        ) + " cols)"@,
{
}

/// The line that lists a sheet of a workbook.
pub fn sheet_line(sheet: &SheetInfo) -> (s: String)
    ensures
        s@ == spec_sheet_line(sheet.name@, sheet.rows as nat, sheet.cols as nat),
{
    let data = if sheet.rows == 0 {
        0
    } else {
        sheet.rows - 1
    };
    let mut s = String::new();
    push_str(&mut s, "  ");
    push_string(&mut s, &sheet.name);
    push_str(&mut s, " (");
    push_decimal(&mut s, data as u64);
    push_str(&mut s, " rows x ");
    push_decimal(&mut s, sheet.cols as u64);
    push_str(&mut s, " cols)");
    assert(s@ =~= spec_sheet_line(sheet.name@, sheet.rows as nat, sheet.cols as nat));
    s
}

/// Whether the sheet at `j` is the one `arg` asks for: by its name, or by the
/// position at which its name first occurs.
pub open spec fn sheet_asked(names: Seq<Seq<char>>, j: int, arg: Seq<char>) -> bool {
    names[j] == arg || match spec_parse_usize(arg) {
        Some(idx) => first_index(names, names[j]) == Some(idx as int),
        None => false,
    }
}

/// The names of the sheets.
pub open spec fn sheet_names(sheets: Seq<SheetInfo>) -> Seq<Seq<char>> {
    sheets.map_values(|s: SheetInfo| s.name@)
}

/// The first sheet that `arg` asks for (see `sheet_asked`).
pub fn match_sheet_info(sheets: &Vec<SheetInfo>, arg: &str) -> (r: Option<usize>)
    ensures
        match r {
            Some(j) => j < sheets@.len() && sheet_asked(sheet_names(sheets@), j as int, arg@)
                && forall|k: int|
                0 <= k < j ==> !#[trigger] sheet_asked(sheet_names(sheets@), k, arg@),
            None => forall|k: int|
                0 <= k < sheets@.len() ==> !#[trigger] sheet_asked(sheet_names(sheets@), k, arg@),
        },
{
    let ghost names = sheet_names(sheets@);
    let mut owned: Vec<String> = Vec::new();
    let mut i: usize = 0;
    while i < sheets.len()
        invariant
            names == sheet_names(sheets@),
            i <= sheets@.len(),
            owned.deep_view() == names.take(i as int),
        decreases sheets@.len() - i,
    {
        push_field(&mut owned, sheets[i].name.clone());
        i = i + 1;
        assert(owned.deep_view() =~= names.take(i as int));
    }
    assert(names.take(sheets@.len() as int) =~= names);
    let a = chars_of(arg);
    let idx = parse_usize(a.as_slice());
    let mut j: usize = 0;
    while j < sheets.len()
        invariant
            names == sheet_names(sheets@),
            owned.deep_view() == names,
            owned@.len() == sheets@.len(),
            a@ == arg@,
            match idx {
                Some(n) => spec_parse_usize(arg@) == Some(n as nat),
                None => spec_parse_usize(arg@) is None,
            },
            j <= sheets@.len(),
            forall|k: int| 0 <= k < j ==> !#[trigger] sheet_asked(names, k, arg@),
        decreases sheets@.len() - j,
    {
        let n = chars_of(owned[j].as_str());
        assert(n@ == names[j as int]);
        if crate::text::chars_eq(n.as_slice(), a.as_slice()) {
            return Some(j);
        }
        if let Some(want) = idx {
            match crate::excel::position_of(&owned, n.as_slice()) {
                Some(p) => {
                    if p == want {
                        return Some(j);
                    }
                },
                None => {},
            }
        }
        j = j + 1;
    }
    None
}

/// The sheet a shown table is described as, field by field: the name, the row
/// count (header included) and the column count.
pub open spec fn spec_display_sheet(
    is_excel: bool,
    sheets: Seq<SheetInfo>,
    sheet_arg: Option<Seq<char>>,
    file_name: Seq<char>,
    height: nat,
    width: nat,
) -> (Seq<char>, nat, nat) {
    if !is_excel {
        (file_name, height + 1, width)
    } else {
        match sheet_arg {
            Some(arg) => if exists|j: int|
                0 <= j < sheets.len() && #[trigger] sheet_asked(sheet_names(sheets), j, arg) {
                let j = choose|j: int|
                    0 <= j < sheets.len() && #[trigger] sheet_asked(sheet_names(sheets), j, arg)
                        && forall|k: int|
                        0 <= k < j ==> !#[trigger] sheet_asked(sheet_names(sheets), k, arg);
                (sheets[j].name@, sheets[j].rows as nat, sheets[j].cols as nat)
            } else {
                (arg, height + 1, width)
            },
            None => if sheets.len() > 0 {
                (sheets[0].name@, sheets[0].rows as nat, sheets[0].cols as nat)
            } else {
                (file_name, height + 1, width)
            },
        }
    }
}

/// The table `dtcat` shows is described as: for a file that is not a workbook,
/// its own name with the table's size (the header row counted); for a workbook
/// with no sheet asked for, its first listed sheet; with a sheet asked for by a
/// name that is no number, the first sheet of that name; with a request that
/// no sheet answers, the request itself with the table's size.
pub proof fn lemma_display_sheet_choice(
    sheets: Seq<SheetInfo>,
    arg: Seq<char>,
    file_name: Seq<char>,
    height: nat,
    width: nat,
)
    ensures
        spec_display_sheet(false, sheets, Some(arg), file_name, height, width) == (
            file_name,
            height + 1,
            width,
        ),
        spec_display_sheet(false, sheets, None, file_name, height, width) == (
            file_name,
            height + 1,
            width,
        ),
        sheets.len() > 0 ==> spec_display_sheet(true, sheets, None, file_name, height, width) == (
            sheets[0].name@,
            sheets[0].rows as nat,
            sheets[0].cols as nat,
        ),
        forall|j: int|
            0 <= j < sheets.len() && (#[trigger] sheets[j]).name@ == arg && spec_parse_usize(arg) is None
                && (forall|k: int| 0 <= k < j ==> sheets[k].name@ != arg) ==> spec_display_sheet(
                true,
                sheets,
                Some(arg),
                file_name,
                height,
                width,
            ) == (sheets[j].name@, sheets[j].rows as nat, sheets[j].cols as nat),
        (forall|j: int| 0 <= j < sheets.len() ==> !#[trigger] sheet_asked(sheet_names(sheets), j, arg))
            ==> spec_display_sheet(true, sheets, Some(arg), file_name, height, width) == (
            arg,
            height + 1,
            width,
        ),
{
    let names = sheet_names(sheets);
    assert forall|j: int|
        0 <= j < sheets.len() && (#[trigger] sheets[j]).name@ == arg && spec_parse_usize(arg) is None
            && (forall|k: int| 0 <= k < j ==> sheets[k].name@ != arg) implies spec_display_sheet(
        true,
        sheets,
        Some(arg),
        file_name,
        height,
        width,
    ) == (sheets[j].name@, sheets[j].rows as nat, sheets[j].cols as nat) by {
        assert(names[j] == sheets[j].name@);
        assert(sheet_asked(names, j, arg));
        let c = choose|c: int|
            0 <= c < sheets.len() && #[trigger] sheet_asked(names, c, arg) && forall|k: int|
                0 <= k < c ==> !#[trigger] sheet_asked(names, k, arg);
        assert(exists|c: int|
            0 <= c < sheets.len() && #[trigger] sheet_asked(names, c, arg) && forall|k: int|
                0 <= k < c ==> !#[trigger] sheet_asked(names, k, arg)) by {
            assert forall|k: int| 0 <= k < j implies !#[trigger] sheet_asked(names, k, arg) by {
                assert(names[k] == sheets[k].name@);
            }
        }
        assert(names[c] == sheets[c].name@);
        if c < j {
            assert(sheets[c].name@ != arg);
        }
        if j < c {
            assert(!sheet_asked(names, j, arg));
        }
    }
}

/// A copy of a sheet's info.
pub fn copy_sheet_info(s: &SheetInfo) -> (r: SheetInfo)
    ensures
        r.name@ == s.name@,
        r.rows == s.rows,
        r.cols == s.cols,
{
    SheetInfo { name: s.name.clone(), rows: s.rows, cols: s.cols }
}

/// Describe the table `dtcat` shows: a workbook sheet by its listed info (the
/// one asked for, or the first), falling back to the table's own size; any
/// other file by its name and size.
pub fn display_sheet(
    format: Format,
    sheets: &Vec<SheetInfo>,
    sheet_arg: Option<&str>,
    file_name: &str,
    height: usize,
    width: usize,
) -> (s: SheetInfo)
    requires
        height < usize::MAX,
    ensures
        (s.name@, s.rows as nat, s.cols as nat) == spec_display_sheet(
            format is Excel,
            sheets@,
            match sheet_arg {
                Some(a) => Some(a@),
                None => None,
            },
            file_name@,
            height as nat,
            width as nat,
        ),
{
    match format {
        Format::Excel => {},
        _ => return sheet_info_from_df(file_name, height, width),
    }
    match sheet_arg {
        Some(arg) => match match_sheet_info(sheets, arg) {
            Some(j) => {
                let ghost names = sheet_names(sheets@);
                assert(exists|k: int|
                    0 <= k < sheets@.len() && #[trigger] sheet_asked(names, k, arg@));
                let ghost c = choose|k: int|
                    0 <= k < sheets@.len() && #[trigger] sheet_asked(names, k, arg@) && forall|
                        m: int,
                    |
                        0 <= m < k ==> !#[trigger] sheet_asked(names, m, arg@);
                assert(c == j as int) by {
                    if c < j as int {
                        assert(!sheet_asked(names, c, arg@));
                    }
                    if (j as int) < c {
                        assert(!sheet_asked(names, j as int, arg@));
                    }
                }
                copy_sheet_info(&sheets[j])
            },
            None => sheet_info_from_df(arg, height, width),
        },
        None => if sheets.len() > 0 {
            copy_sheet_info(&sheets[0])
        } else {
            sheet_info_from_df(file_name, height, width)
        },
    }
}

/// How `dtdiff` prints its result.
#[derive(Debug, Clone, Copy, PartialEq, Eq, Structural)]
pub enum DiffOutput {
    Json,
    Csv,
    /// The text report, coloured or plain.
    Text { color: bool },
}

/// `--json` first, then `--csv`, else text, coloured when standard output is
/// a terminal and `--no-color` is not given.
pub fn diff_output(json: bool, csv: bool, no_color: bool, is_terminal: bool) -> (o: DiffOutput)
    ensures
        o == if json {
            DiffOutput::Json
        } else if csv {
            DiffOutput::Csv
        } else {
            DiffOutput::Text { color: !no_color && is_terminal }
        },
{
    if json {
        DiffOutput::Json
    } else if csv {
        DiffOutput::Csv
    } else {
        DiffOutput::Text { color: !no_color && is_terminal }
    }
}

/// `dtcat` exits with 2 for a usage error, recognised by its message, and
/// with 1 for any other failure.
pub open spec fn spec_cat_exit_code(message: Seq<char>) -> i32 {
    if has_infix(message, "mutually exclusive"@) || has_infix(message, "invalid"@) || has_infix(
        message,
        "unknown format"@,
    ) {
        2
    } else {
        1
    }
}

/// The exit code `dtcat` ends with after the error `message`.
pub fn cat_exit_code(message: &str) -> (code: i32)
    ensures
        code == spec_cat_exit_code(message@),
{
    if str_contains(message, "mutually exclusive") || str_contains(message, "invalid")
        || str_contains(message, "unknown format") {
        2
    } else {
        1
    }
}

/// `dtdiff` follows diff(1): 0 when the tables agree, 1 when they differ
/// (an error is 2, see `DIFF_ERROR_EXIT`).
pub fn diff_exit_code(result: &DiffResult) -> (code: i32)
    ensures
        code == if spec_has_differences(result@) {
            1i32
        } else {
            0i32
        },
{
    if result.has_differences() {
        1
    } else {
        0
    }
}

/// Why `dtdiff` refuses two files before reading them.
#[derive(Debug, Clone, Copy, PartialEq, Eq, Structural)]
pub enum DiffError {
    /// The two formats are of different families.
    IncompatibleFormats(Format, Format),
}

/// The name of a format as `{:?}` writes it.
pub open spec fn spec_format_debug_name(f: Format) -> Seq<char> {
    match f {
        Format::Csv => "Csv"@,
        Format::Tsv => "Tsv"@,
        Format::Parquet => "Parquet"@,
        Format::Arrow => "Arrow"@,
        Format::Json => "Json"@,
        Format::Ndjson => "Ndjson"@,
        Format::Excel => "Excel"@,
    }
}

/// The name of a format as `{:?}` writes it.
pub fn format_debug_name(f: Format) -> (s: &'static str)
    ensures
        s@ == spec_format_debug_name(f),
{
    match f {
        Format::Csv => "Csv",
        Format::Tsv => "Tsv",
        Format::Parquet => "Parquet",
        Format::Arrow => "Arrow",
        Format::Json => "Json",
        Format::Ndjson => "Ndjson",
        Format::Excel => "Excel",
    }
}

/// The message for a refused pair of files.
pub open spec fn spec_diff_error_message(e: DiffError) -> Seq<char> {
    match e {
        DiffError::IncompatibleFormats(a, b) => "files have incompatible formats: "@
            + spec_format_debug_name(a) + " vs "@ + spec_format_debug_name(b)
            + ". Both files must use the same format family."@,
    }
}

impl DiffError {
    /// The message that reports the refusal.
    pub fn message(&self) -> (s: String)
        ensures
            s@ == spec_diff_error_message(*self),
    {
        match self {
            DiffError::IncompatibleFormats(a, b) => {
                let mut s = String::new();
                push_str(&mut s, "files have incompatible formats: ");
                push_str(&mut s, format_debug_name(*a));
                push_str(&mut s, " vs ");
                push_str(&mut s, format_debug_name(*b));
                push_str(&mut s, ". Both files must use the same format family.");
                assert(s@ =~= spec_diff_error_message(*self));
                s
            },
        }
    }
}

/// `dtdiff` compares two files only when their formats are of one family
/// (CSV with TSV, JSON with NDJSON, any other format with itself); it checks
/// this before it reads either file.
pub fn check_diff_formats(a: Format, b: Format) -> (r: Result<(), DiffError>)
    ensures
        r is Err <==> !spec_same_family(a, b),
        r is Err ==> r == Err::<(), DiffError>(DiffError::IncompatibleFormats(a, b)),
{
    if a.same_family(b) {
        Ok(())
    } else {
        Err(DiffError::IncompatibleFormats(a, b))
    }
}

/// The exit code of `dtdiff` when it fails.
pub const DIFF_ERROR_EXIT: i32 = 2;

/// The comma-separated entries of `s`, each trimmed.
pub open spec fn spec_key_columns(s: Seq<char>) -> Seq<Seq<char>> {
    split_on(s, ',').map_values(|p: Seq<char>| trim(p))
}

/// The entries that are not empty.
pub open spec fn non_empty(s: Seq<Seq<char>>) -> Seq<Seq<char>>
    decreases s.len(),
{
    if s.len() == 0 {
        s
    } else if s.last().len() == 0 {
        non_empty(s.drop_last())
    } else {
        non_empty(s.drop_last()).push(s.last())
    }
}

/// Key columns are the pieces of the text between its commas, in order, each
/// with the white space at both ends removed: joined with commas the pieces
/// give the text back, no piece holds a comma, and each key column is its
/// piece trimmed.
pub proof fn lemma_key_columns_are_trimmed_pieces(s: Seq<char>)
    ensures
        join(split_on(s, ','), seq![',']) == s,
        forall|i: int, k: int|
            0 <= i < split_on(s, ',').len() && 0 <= k < split_on(s, ',')[i].len()
                ==> #[trigger] split_on(s, ',')[i][k] != ',',
        spec_key_columns(s).len() == split_on(s, ',').len(),
        forall|i: int|
            0 <= i < spec_key_columns(s).len() ==> is_trim_of(
                #[trigger] spec_key_columns(s)[i],
                split_on(s, ',')[i],
            ),
{
    lemma_split_join(s, ',');
    assert forall|i: int| 0 <= i < spec_key_columns(s).len() implies is_trim_of(
        #[trigger] spec_key_columns(s)[i],
        split_on(s, ',')[i],
    ) by {
        lemma_trim_shape(split_on(s, ',')[i]);
    }
}

/// A column list is the key-column reading of the text with the empty entries
/// left out, the others kept in order.
pub proof fn lemma_column_list_drops_empty(s: Seq<char>)
    ensures
        non_empty(spec_key_columns(s)) == spec_key_columns(s).filter(|e: Seq<char>| e.len() > 0),
{
    lemma_non_empty_filters(spec_key_columns(s));
}

proof fn lemma_non_empty_filters(x: Seq<Seq<char>>)
    ensures
        non_empty(x) == x.filter(|e: Seq<char>| e.len() > 0),
    decreases x.len(),
{
    reveal_with_fuel(Seq::filter, 1);
    if x.len() > 0 {
        lemma_non_empty_filters(x.drop_last());
    }
}

/// The trimmed comma-separated entries of `s`, for each piece in order.
fn trimmed_pieces(s: &str) -> (r: Vec<Vec<char>>)
    ensures
        pieces_view(r@) == spec_key_columns(s@),
{
    let cs = chars_of(s);
    let pieces = split_chars(cs.as_slice(), ',');
    let mut out: Vec<Vec<char>> = Vec::new();
    let mut i: usize = 0;
    while i < pieces.len()
        invariant
            cs@ == s@,
            pieces_view(pieces@) == split_on(s@, ','),
            i <= pieces@.len(),
            pieces_view(out@) == spec_key_columns(s@).take(i as int),
        decreases pieces@.len() - i,
    {
        let t = trim_chars(pieces[i].as_slice());
        assert(pieces_view(pieces@)[i as int] == pieces@[i as int]@);
        assert(spec_key_columns(s@)[i as int] == trim(pieces@[i as int]@));
        let ghost before = pieces_view(out@);
        out.push(t);
        assert(pieces_view(out@) =~= before.push(t@));
        i = i + 1;
        assert(pieces_view(out@) =~= spec_key_columns(s@).take(i as int));
    }
    assert(spec_key_columns(s@).take(pieces@.len() as int) =~= spec_key_columns(s@));
    out
}

/// Key columns given as `--key A,B`: split at commas, each trimmed, empty
/// entries kept.
pub fn parse_key_columns(s: &str) -> (r: Vec<String>)
    ensures
        r.deep_view() == spec_key_columns(s@),
{
    let pieces = trimmed_pieces(s);
    let mut out: Vec<String> = Vec::new();
    let mut i: usize = 0;
    while i < pieces.len()
        invariant
            pieces_view(pieces@) == spec_key_columns(s@),
            i <= pieces@.len(),
            out.deep_view() == spec_key_columns(s@).take(i as int),
        decreases pieces@.len() - i,
    {
        assert(pieces_view(pieces@)[i as int] == pieces@[i as int]@);
        push_field(&mut out, string_of(pieces[i].as_slice()));
        i = i + 1;
        assert(out.deep_view() =~= spec_key_columns(s@).take(i as int));
    }
    assert(spec_key_columns(s@).take(pieces@.len() as int) =~= spec_key_columns(s@));
    out
}

/// Columns given as `--columns A,B`: split at commas, each trimmed, empty
/// entries dropped.
pub fn parse_column_list(s: &str) -> (r: Vec<String>)
    ensures
        r.deep_view() == non_empty(spec_key_columns(s@)),
{
    let pieces = trimmed_pieces(s);
    let ghost all = spec_key_columns(s@);
    let mut out: Vec<String> = Vec::new();
    let mut i: usize = 0;
    assert(all.take(0) =~= Seq::<Seq<char>>::empty());
    while i < pieces.len()
        invariant
            all == spec_key_columns(s@),
            pieces_view(pieces@) == all,
            i <= pieces@.len(),
            out.deep_view() == non_empty(all.take(i as int)),
        decreases pieces@.len() - i,
    {
        assert(pieces_view(pieces@)[i as int] == pieces@[i as int]@);
        assert(all.take(i + 1).drop_last() =~= all.take(i as int));
        assert(all.take(i + 1).last() == pieces@[i as int]@);
        if pieces[i].len() > 0 {
            push_field(&mut out, string_of(pieces[i].as_slice()));
        }
        i = i + 1;
    }
    assert(all.take(pieces@.len() as int) =~= all);
    out
}

/// The count of rows left after filtering: `1 row`, `N rows`.
pub open spec fn spec_row_count_message(n: nat) -> Seq<char> {
    decimal(n) + if n == 1 {
        " row"@
    } else {
        " rows"@
    }
}

/// The row count `dtfilter` reports.
pub fn row_count_message(n: usize) -> (s: String)
    ensures
        s@ == spec_row_count_message(n as nat),
{
    let mut s = String::new();
    push_decimal(&mut s, n as u64);
    if n == 1 {
        push_str(&mut s, " row");
    } else {
        push_str(&mut s, " rows");
    }
    assert(s@ =~= spec_row_count_message(n as nat));
    s
}

/// The label of one side of a diff: a workbook side is labelled by the sheet
/// asked for, if any; anything else by its file name.
pub fn diff_sheet_name(format: Format, sheet: Option<&str>, file_name: &str) -> (s: String)
    ensures
        s@ == match (format, sheet) {
            (Format::Excel, Some(x)) => x@,
            _ => file_name@,
        },
{
    match (format, sheet) {
        (Format::Excel, Some(x)) => string_of(chars_of(x).as_slice()),
        _ => string_of(chars_of(file_name).as_slice()),
    }
}

} // verus!
