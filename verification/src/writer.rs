//! How a table is written: the writer a format takes and the settings it uses.
use crate::format::Format;
use vstd::prelude::*;

verus! {

/// The writer a table goes through, with its settings.
#[derive(Debug, Clone, Copy, PartialEq, Eq, Structural)]
pub enum WritePlan {
    /// Delimited text with this separator, to a file or to standard output.
    Delimited { separator: u8 },
    /// Parquet, to a file.
    Parquet,
    /// Arrow IPC, to a file.
    Arrow,
    /// JSON, one array (`lines == false`) or one record per line, to a file or
    /// to standard output.
    Json { lines: bool },
}

/// Why a table cannot be written.
#[derive(Debug, Clone, Copy, PartialEq, Eq, Structural)]
pub enum WriteError {
    /// Workbooks are not written.
    ExcelUnsupported,
    /// Parquet and Arrow are binary and need an output path.
    PathRequired(Format),
}

/// The writer for each format, given whether an output path was given.
pub open spec fn spec_write_plan(format: Format, has_path: bool) -> Result<WritePlan, WriteError> {
    match format {
        Format::Csv => Ok(WritePlan::Delimited { separator: 0x2c }),
        Format::Tsv => Ok(WritePlan::Delimited { separator: 0x09 }),
        Format::Parquet => if has_path {
            Ok(WritePlan::Parquet)
        } else {
            Err(WriteError::PathRequired(Format::Parquet))
        },
        Format::Arrow => if has_path {
            Ok(WritePlan::Arrow)
        } else {
            Err(WriteError::PathRequired(Format::Arrow))
        },
        Format::Json => Ok(WritePlan::Json { lines: false }),
        Format::Ndjson => Ok(WritePlan::Json { lines: true }),
        Format::Excel => Err(WriteError::ExcelUnsupported),
    }
}

/// Choose how a table of `format` is written (see `spec_write_plan`).
pub fn write_plan(format: Format, has_path: bool) -> (r: Result<WritePlan, WriteError>)
    ensures
        r == spec_write_plan(format, has_path),
{
    match format {
        Format::Csv => Ok(WritePlan::Delimited { separator: 0x2c }),
        Format::Tsv => Ok(WritePlan::Delimited { separator: 0x09 }),
        Format::Parquet => if has_path {
            Ok(WritePlan::Parquet)
        } else {
            Err(WriteError::PathRequired(Format::Parquet))
        },
        Format::Arrow => if has_path {
            Ok(WritePlan::Arrow)
        } else {
            Err(WriteError::PathRequired(Format::Arrow))
        },
        Format::Json => Ok(WritePlan::Json { lines: false }),
        Format::Ndjson => Ok(WritePlan::Json { lines: true }),
        Format::Excel => Err(WriteError::ExcelUnsupported),
    }
}

/// Every format is written by its own writer: CSV and TSV as delimited text
/// with `,` and tab, Parquet and Arrow by their own binary writers and only to
/// a path, JSON as one array and NDJSON one record per line; a workbook is
/// never written.
pub proof fn lemma_write_plan_keeps_format(format: Format, has_path: bool)
    ensures
        (spec_write_plan(format, has_path) == Ok::<WritePlan, WriteError>(WritePlan::Parquet)) <==> (
        format is Parquet && has_path),
        (spec_write_plan(format, has_path) == Ok::<WritePlan, WriteError>(WritePlan::Arrow)) <==> (
        format is Arrow && has_path),
        (spec_write_plan(format, has_path) == Ok::<WritePlan, WriteError>(
            WritePlan::Delimited { separator: 0x2c },
        )) <==> format is Csv,
        (spec_write_plan(format, has_path) == Ok::<WritePlan, WriteError>(
            WritePlan::Delimited { separator: 0x09 },
        )) <==> format is Tsv,
        (spec_write_plan(format, has_path) == Ok::<WritePlan, WriteError>(
            WritePlan::Json { lines: false },
        )) <==> format is Json,
        (spec_write_plan(format, has_path) == Ok::<WritePlan, WriteError>(
            WritePlan::Json { lines: true },
        )) <==> format is Ndjson,
        spec_write_plan(format, has_path) is Err <==> (format is Excel || (!has_path && (
        format is Parquet || format is Arrow))),
        spec_write_plan(format, has_path) is Err && !(format is Excel) ==> spec_write_plan(
            format,
            has_path,
        ) == Err::<WritePlan, WriteError>(WriteError::PathRequired(format)),
{
}

/// The message that a refused write reports.
pub open spec fn spec_write_error_message(e: WriteError) -> Seq<char> {
    match e {
        WriteError::ExcelUnsupported => "writing Excel format is not supported; use csv or parquet"@,
        WriteError::PathRequired(Format::Arrow) => "--convert arrow requires -o PATH"@,
        WriteError::PathRequired(_) => "--convert parquet requires -o PATH"@,
    }
}

impl WriteError {
    /// The message that a refused write reports.
    pub fn message(&self) -> (s: &'static str)
        ensures
            s@ == spec_write_error_message(*self),
    {
        match self {
            WriteError::ExcelUnsupported => "writing Excel format is not supported; use csv or parquet",
            WriteError::PathRequired(Format::Arrow) => "--convert arrow requires -o PATH",
            WriteError::PathRequired(_) => "--convert parquet requires -o PATH",
        }
    }
}

} // verus!
