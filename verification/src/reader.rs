//! How a file is read: which reader a format takes, and the choices each
//! reader makes from the read options.
use crate::format::{detect_csv_delimiter, spec_delimiter, Format};
use crate::metadata::{FileInfo, SheetInfo};
use vstd::prelude::*;

verus! {

/// Options that control how a file is read.
#[derive(Debug)]
pub struct ReadOptions {
    /// Excel only: a sheet name, or a 0-based position.
    pub sheet: Option<String>,
    pub skip_rows: Option<usize>,
    /// CSV only: the delimiter, instead of sniffing it.
    pub separator: Option<u8>,
}

impl Default for ReadOptions {
    fn default() -> (r: ReadOptions)
        ensures
            r.sheet is None,
            r.skip_rows is None,
            r.separator is None,
    {
        ReadOptions { sheet: None, skip_rows: None, separator: None }
    }
}

/// The reader a file goes through.
#[derive(Debug, Clone, Copy, PartialEq, Eq, Structural)]
pub enum ReaderKind {
    /// CSV or TSV text.
    Delimited,
    Parquet,
    /// Arrow IPC (Feather).
    Arrow,
    /// One JSON array of records.
    Json,
    /// One JSON record per line.
    JsonLines,
    /// A spreadsheet workbook.
    Excel,
}

/// The reader for each format.
pub open spec fn spec_reader_for(format: Format) -> ReaderKind {
    match format {
        Format::Csv | Format::Tsv => ReaderKind::Delimited,
        Format::Parquet => ReaderKind::Parquet,
        Format::Arrow => ReaderKind::Arrow,
        Format::Json => ReaderKind::Json,
        Format::Ndjson => ReaderKind::JsonLines,
        Format::Excel => ReaderKind::Excel,
    }
}

/// Every format is read by the reader of its own kind, and only CSV and TSV
/// share one: the delimited-text reader.
pub proof fn lemma_reader_matches_format(format: Format)
    ensures
        spec_reader_for(format) is Delimited <==> (format is Csv || format is Tsv),
        spec_reader_for(format) is Parquet <==> format is Parquet,
        spec_reader_for(format) is Arrow <==> format is Arrow,
        spec_reader_for(format) is Json <==> format is Json,
        spec_reader_for(format) is JsonLines <==> format is Ndjson,
        spec_reader_for(format) is Excel <==> format is Excel,
{
}

/// Which reader a file of `format` is read with.
pub fn reader_for(format: Format) -> (k: ReaderKind)
    ensures
        k == spec_reader_for(format),
{
    match format {
        Format::Csv | Format::Tsv => ReaderKind::Delimited,
        Format::Parquet => ReaderKind::Parquet,
        Format::Arrow => ReaderKind::Arrow,
        Format::Json => ReaderKind::Json,
        Format::Ndjson => ReaderKind::JsonLines,
        Format::Excel => ReaderKind::Excel,
    }
}

/// The rows kept when `skip` rows are to be dropped from a table of `height`
/// rows that its reader loaded whole (Parquet, Arrow, JSON): as `(offset,
/// length)`, or `None` when the table stays as it is, that is when nothing is
/// to be skipped or when the skip would leave no row.
pub fn skip_window(skip_rows: Option<usize>, height: usize) -> (w: Option<(usize, usize)>)
    ensures
        match skip_rows {
            Some(skip) => if 0 < skip < height {
                w == Some((skip, (height - skip) as usize))
            } else {
                w is None
            },
            None => w is None,
        },
{
    match skip_rows {
        Some(skip) => if skip > 0 && skip < height {
            Some((skip, height - skip))
        } else {
            None
        },
        None => None,
    }
}

/// The delimiter a CSV read uses: the one asked for; else the one sniffed
/// from `sample` (the start of the file, `None` when it could not be read);
/// else a comma.
pub fn csv_separator(explicit: Option<u8>, sample: Option<&[u8]>) -> (d: u8)
    ensures
        d == match explicit {
            Some(e) => e,
            None => match sample {
                Some(s) => spec_delimiter(s@),
                None => 0x2cu8,
            },
        },
{
    match explicit {
        Some(e) => e,
        None => match sample {
            Some(s) => detect_csv_delimiter(s),
            None => 0x2c,
        },
    }
}

/// File metadata: the size and format, and the sheets, which only a workbook
/// lists.
pub fn file_info(file_size: u64, format: Format, sheets: Vec<SheetInfo>) -> (info: FileInfo)
    ensures
        info.file_size == file_size,
        info.format == format,
        format is Excel ==> info.sheets@ == sheets@,
        !(format is Excel) ==> info.sheets@.len() == 0,
{
    let sheets = match format {
        Format::Excel => sheets,
        _ => Vec::new(),
    };
    FileInfo { file_size, format, sheets }
}

} // verus!
