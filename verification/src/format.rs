//! Format names, extensions, magic bytes and delimiter sniffing.
use crate::text::{ascii_lower, chars_eq, chars_of, split_on, string_of, to_ascii_lower};
use vstd::prelude::*;

verus! {

/// The tabular file formats the tools understand.
#[derive(Debug, Clone, Copy, PartialEq, Eq, Structural)]
pub enum Format {
    Csv,
    Tsv,
    Parquet,
    Arrow,
    Json,
    Ndjson,
    Excel,
}

/// Two formats share a family when they are equal, or when they are the two
/// delimited-text formats, or the two JSON formats.
pub open spec fn spec_same_family(a: Format, b: Format) -> bool {
    ||| a == b
    ||| (a is Csv && b is Tsv)
    ||| (a is Tsv && b is Csv)
    ||| (a is Json && b is Ndjson)
    ||| (a is Ndjson && b is Json)
}

impl Format {
    /// Returns true if two formats belong to the same "family":
    /// Csv and Tsv are one family, Json and Ndjson another, and every other
    /// format is only in the family of itself.
    pub fn same_family(self, other: Format) -> (res: bool)
        ensures
            res == spec_same_family(self, other),
    {
        match (self, other) {
            (Format::Csv, Format::Tsv) | (Format::Tsv, Format::Csv) => true,
            (Format::Json, Format::Ndjson) | (Format::Ndjson, Format::Json) => true,
            _ => self == other,
        }
    }
}

/// Being in the same family is an equivalence: reflexive, symmetric and
/// transitive.
pub proof fn lemma_same_family_equivalence(a: Format, b: Format, c: Format)
    ensures
        spec_same_family(a, a),
        spec_same_family(a, b) == spec_same_family(b, a),
        spec_same_family(a, b) && spec_same_family(b, c) ==> spec_same_family(a, c),
{
}

/// Exactly these pairs of different formats are of one family: CSV with TSV,
/// and JSON with NDJSON.
pub proof fn lemma_family_pairs(a: Format, b: Format)
    ensures
        spec_same_family(a, b) <==> (a == b || ((a is Csv || a is Tsv) && (b is Csv || b is Tsv))
            || ((a is Json || a is Ndjson) && (b is Json || b is Ndjson))),
{
}

/// Why a format could not be determined.
#[derive(Debug, PartialEq, Eq)]
pub enum FormatError {
    /// The name names no format; it is held lower-cased.
    UnknownFormat(String),
    /// The path has no extension; the path is held as given.
    NoExtension(String),
    /// The extension names no format; it is held as written.
    UnknownExtension(String),
}

/// What a `FormatError` says, over character sequences.
pub enum FormatFailure {
    UnknownFormat(Seq<char>),
    NoExtension(Seq<char>),
    UnknownExtension(Seq<char>),
}

impl View for FormatError {
    type V = FormatFailure;

    open spec fn view(&self) -> FormatFailure {
        match self {
            FormatError::UnknownFormat(s) => FormatFailure::UnknownFormat(s@),
            FormatError::NoExtension(s) => FormatFailure::NoExtension(s@),
            FormatError::UnknownExtension(s) => FormatFailure::UnknownExtension(s@),
        }
    }
}

/// The outcome of a detection, with the error taken by its view.
pub open spec fn outcome(r: Result<Format, FormatError>) -> Result<Format, FormatFailure> {
    match r {
        Ok(f) => Ok(f),
        Err(e) => Err(e@),
    }
}

/// The format that a lower-case name stands for.
pub open spec fn format_for_name(n: Seq<char>) -> Option<Format> {
    if n == seq!['c', 's', 'v'] {
        Some(Format::Csv)
    } else if n == seq!['t', 's', 'v'] || n == seq!['t', 'a', 'b'] {
        Some(Format::Tsv)
    } else if n == seq!['p', 'a', 'r', 'q', 'u', 'e', 't'] || n == seq!['p', 'q'] {
        Some(Format::Parquet)
    } else if n == seq!['a', 'r', 'r', 'o', 'w'] || n == seq!['f', 'e', 'a', 't', 'h', 'e', 'r']
        || n == seq!['i', 'p', 'c'] {
        Some(Format::Arrow)
    } else if n == seq!['j', 's', 'o', 'n'] {
        Some(Format::Json)
    } else if n == seq!['n', 'd', 'j', 's', 'o', 'n'] || n == seq!['j', 's', 'o', 'n', 'l'] {
        Some(Format::Ndjson)
    } else if n == seq!['e', 'x', 'c', 'e', 'l'] || n == seq!['x', 'l', 's', 'x'] || n == seq![
        'x',
        'l',
        's',
    ] || n == seq!['x', 'l', 's', 'b'] || n == seq!['o', 'd', 's'] {
        Some(Format::Excel)
    } else {
        None
    }
}

/// What `parse_format_str` gives for `s`: the name is compared without regard
/// to ASCII case.
pub open spec fn spec_parse_format(s: Seq<char>) -> Result<Format, FormatFailure> {
    match format_for_name(ascii_lower(s)) {
        Some(f) => Ok(f),
        None => Err(FormatFailure::UnknownFormat(ascii_lower(s))),
    }
}

/// Each format answers to its names, in any ASCII case: `csv`; `tsv` or `tab`;
/// `parquet` or `pq`; `arrow`, `feather` or `ipc`; `json`; `ndjson` or `jsonl`;
/// `excel`, `xlsx`, `xls`, `xlsb` or `ods`. Any other name is refused and
/// reported lower-cased.
pub proof fn lemma_format_names(s: Seq<char>)
    ensures
        ascii_lower(s) == "csv"@ ==> spec_parse_format(s) == Ok::<Format, FormatFailure>(Format::Csv),
        ascii_lower(s) == "tsv"@ || ascii_lower(s) == "tab"@ ==> spec_parse_format(s) == Ok::<
            Format,
            FormatFailure,
        >(Format::Tsv),
        ascii_lower(s) == "parquet"@ || ascii_lower(s) == "pq"@ ==> spec_parse_format(s) == Ok::<
            Format,
            FormatFailure,
        >(Format::Parquet),
        ascii_lower(s) == "arrow"@ || ascii_lower(s) == "feather"@ || ascii_lower(s) == "ipc"@
            ==> spec_parse_format(s) == Ok::<Format, FormatFailure>(Format::Arrow),
        ascii_lower(s) == "json"@ ==> spec_parse_format(s) == Ok::<Format, FormatFailure>(
            Format::Json,
        ),
        ascii_lower(s) == "ndjson"@ || ascii_lower(s) == "jsonl"@ ==> spec_parse_format(s) == Ok::<
            Format,
            FormatFailure,
        >(Format::Ndjson),
        ascii_lower(s) == "excel"@ || ascii_lower(s) == "xlsx"@ || ascii_lower(s) == "xls"@
            || ascii_lower(s) == "xlsb"@ || ascii_lower(s) == "ods"@ ==> spec_parse_format(s)
            == Ok::<Format, FormatFailure>(Format::Excel),
        spec_parse_format(s) is Err ==> spec_parse_format(s) == Err::<Format, FormatFailure>(
            FormatFailure::UnknownFormat(ascii_lower(s)),
        ),
{
    reveal_strlit("csv");
    reveal_strlit("tsv");
    reveal_strlit("tab");
    reveal_strlit("parquet");
    reveal_strlit("pq");
    reveal_strlit("arrow");
    reveal_strlit("feather");
    reveal_strlit("ipc");
    reveal_strlit("json");
    reveal_strlit("ndjson");
    reveal_strlit("jsonl");
    reveal_strlit("excel");
    reveal_strlit("xlsx");
    reveal_strlit("xls");
    reveal_strlit("xlsb");
    reveal_strlit("ods");
    let l = ascii_lower(s);
    assert(l == "csv"@ ==> l =~= seq!['c', 's', 'v']);
    assert(l == "tsv"@ ==> l =~= seq!['t', 's', 'v']);
    assert(l == "tab"@ ==> l =~= seq!['t', 'a', 'b']);
    assert(l == "parquet"@ ==> l =~= seq!['p', 'a', 'r', 'q', 'u', 'e', 't']);
    assert(l == "pq"@ ==> l =~= seq!['p', 'q']);
    assert(l == "arrow"@ ==> l =~= seq!['a', 'r', 'r', 'o', 'w']);
    assert(l == "feather"@ ==> l =~= seq!['f', 'e', 'a', 't', 'h', 'e', 'r']);
    assert(l == "ipc"@ ==> l =~= seq!['i', 'p', 'c']);
    assert(l == "json"@ ==> l =~= seq!['j', 's', 'o', 'n']);
    assert(l == "ndjson"@ ==> l =~= seq!['n', 'd', 'j', 's', 'o', 'n']);
    assert(l == "jsonl"@ ==> l =~= seq!['j', 's', 'o', 'n', 'l']);
    assert(l == "excel"@ ==> l =~= seq!['e', 'x', 'c', 'e', 'l']);
    assert(l == "xlsx"@ ==> l =~= seq!['x', 'l', 's', 'x']);
    assert(l == "xls"@ ==> l =~= seq!['x', 'l', 's']);
    assert(l == "xlsb"@ ==> l =~= seq!['x', 'l', 's', 'b']);
    assert(l == "ods"@ ==> l =~= seq!['o', 'd', 's']);
}

/// Parse a format from a string name. Case-insensitive.
pub fn parse_format_str(s: &str) -> (res: Result<Format, FormatError>)
    ensures
        outcome(res) == spec_parse_format(s@),
{
    let l = to_ascii_lower(s);
    let n = l.as_slice();
    if chars_eq(n, &['c', 's', 'v']) {
        Ok(Format::Csv)
    } else if chars_eq(n, &['t', 's', 'v']) || chars_eq(n, &['t', 'a', 'b']) {
        Ok(Format::Tsv)
    } else if chars_eq(n, &['p', 'a', 'r', 'q', 'u', 'e', 't']) || chars_eq(n, &['p', 'q']) {
        Ok(Format::Parquet)
    } else if chars_eq(n, &['a', 'r', 'r', 'o', 'w']) || chars_eq(
        n,
        &['f', 'e', 'a', 't', 'h', 'e', 'r'],
    ) || chars_eq(n, &['i', 'p', 'c']) {
        Ok(Format::Arrow)
    } else if chars_eq(n, &['j', 's', 'o', 'n']) {
        Ok(Format::Json)
    } else if chars_eq(n, &['n', 'd', 'j', 's', 'o', 'n']) || chars_eq(
        n,
        &['j', 's', 'o', 'n', 'l'],
    ) {
        Ok(Format::Ndjson)
    } else if chars_eq(n, &['e', 'x', 'c', 'e', 'l']) || chars_eq(n, &['x', 'l', 's', 'x'])
        || chars_eq(n, &['x', 'l', 's']) || chars_eq(n, &['x', 'l', 's', 'b']) || chars_eq(
        n,
        &['o', 'd', 's'],
    ) {
        Ok(Format::Excel)
    } else {
        Err(FormatError::UnknownFormat(string_of(n)))
    }
}

/// Format names are compared without regard to ASCII case: two names that
/// agree once lower-cased parse to the same format, or fail alike.
pub proof fn lemma_parse_format_case_insensitive(s: Seq<char>, t: Seq<char>)
    requires
        ascii_lower(s) == ascii_lower(t),
    ensures
        spec_parse_format(s) == spec_parse_format(t),
{
}

/// The index of the last `'.'` in `name`, if there is one.
pub open spec fn last_dot(name: Seq<char>) -> Option<int>
    decreases name.len(),
{
    if name.len() == 0 {
        None
    } else if name.last() == '.' {
        Some(name.len() - 1)
    } else {
        last_dot(name.drop_last())
    }
}

/// The extension of a file name, as `Path::extension` defines it: `None` when
/// there is no `'.'`, or when the only `'.'` begins the name; otherwise what
/// follows the last `'.'`.
pub open spec fn name_extension(name: Seq<char>) -> Option<Seq<char>> {
    match last_dot(name) {
        None => None,
        Some(i) => if i == 0 {
            None
        } else {
            Some(name.subrange(i + 1, name.len() as int))
        },
    }
}

proof fn lemma_last_dot_shape(name: Seq<char>)
    ensures
        last_dot(name) matches Some(i) ==> 0 <= i < name.len() && name[i] == '.' && forall|k: int|
            i < k < name.len() ==> name[k] != '.',
        last_dot(name) is None ==> forall|k: int| 0 <= k < name.len() ==> name[k] != '.',
    decreases name.len(),
{
    if name.len() > 0 && name.last() != '.' {
        lemma_last_dot_shape(name.drop_last());
        assert forall|k: int| 0 <= k < name.len() - 1 implies name[k] == name.drop_last()[k] by {}
    }
}

/// A file name's extension is what follows its last `.`, a `.` that is not the
/// name's first character: the name is then a non-empty stem, a `.` and the
/// extension, which holds no `.`. A name has no extension exactly when no `.`
/// stands after its first character.
pub proof fn lemma_extension_after_last_dot(name: Seq<char>)
    ensures
        name_extension(name) matches Some(e) ==> exists|i: int|
            0 < i < name.len() && name[i] == '.' && e == #[trigger] name.subrange(
                i + 1,
                name.len() as int,
            ) && forall|k: int| 0 <= k < e.len() ==> e[k] != '.',
        name_extension(name) is None <==> forall|k: int| 0 < k < name.len() ==> name[k] != '.',
{
    lemma_last_dot_shape(name);
    match last_dot(name) {
        Some(i) => {
            if i > 0 {
                let e = name.subrange(i + 1, name.len() as int);
                assert forall|k: int| 0 <= k < e.len() implies e[k] != '.' by {
                    assert(e[k] == name[i + 1 + k]);
                }
            } else {
                assert forall|k: int| 0 < k < name.len() implies name[k] != '.' by {}
            }
        },
        None => {},
    }
}

/// The final component of a path, as `std::path::Path::file_name` gives it.
pub uninterp spec fn path_file_name(path: Seq<char>) -> Option<Seq<char>>;

/// The extension of a path: that of its file name.
pub open spec fn path_extension(path: Seq<char>) -> Option<Seq<char>> {
    match path_file_name(path) {
        None => None,
        Some(n) => name_extension(n),
    }
}

/// `std::path::Path::file_name` on a path given as text: the final component,
/// or `None` when the path has none (it ends in `..`, or is a root or empty).
/// The contract only names the result; what the final component is, is left to
/// the standard library.
#[verifier::external_body]
fn file_name_of(path: &str) -> (res: Option<String>)
    ensures
        match res {
            Some(n) => path_file_name(path@) == Some(n@),
            None => path_file_name(path@) is None,
        },
{
    match std::path::Path::new(path).file_name() {
        Some(n) => match n.to_str() {
            Some(s) => Some(s.to_string()),
            None => None,
        },
        None => None,
    }
}

/// The extension of a file name (see `name_extension`).
pub fn extension_of(name: &str) -> (res: Option<String>)
    ensures
        match res {
            Some(e) => name_extension(name@) == Some(e@),
            None => name_extension(name@) is None,
        },
{
    let cs = chars_of(name);
    let n = cs.len();
    let mut i: usize = n;
    assert(name@.take(n as int) =~= name@);
    while i > 0 && cs[i - 1] != '.'
        invariant
            cs@ == name@,
            n == cs@.len(),
            i <= n,
            last_dot(name@) == last_dot(name@.take(i as int)),
        decreases i,
    {
        assert(name@.take(i as int).drop_last() =~= name@.take(i - 1));
        i = i - 1;
    }
    proof {
        if i == 0 {
            assert(name@.take(0) =~= Seq::<char>::empty());
        } else {
            assert(name@.take(i as int).last() == '.');
        }
    }
    if i <= 1 {
        None
    } else {
        let ext = string_of(&cs.as_slice()[i..n]);
        proof {
            assert(ext@ =~= name@.subrange(i as int, n as int));
        }
        Some(ext)
    }
}

/// What a lookup by extension gives, with the path and the extension it found.
pub open spec fn spec_extension_format(path: Seq<char>, ext: Option<Seq<char>>) -> Result<
    Format,
    FormatFailure,
> {
    match ext {
        None => Err(FormatFailure::NoExtension(path)),
        Some(e) => match format_for_name(ascii_lower(e)) {
            Some(f) => Ok(f),
            None => Err(FormatFailure::UnknownExtension(e)),
        },
    }
}

/// Map an extension found on `path` (or its absence) to a format: no extension
/// and an unknown extension are errors.
pub fn format_for_extension(path: &str, ext: Option<&str>) -> (res: Result<Format, FormatError>)
    ensures
        outcome(res) == spec_extension_format(
            path@,
            match ext {
                Some(e) => Some(e@),
                None => None,
            },
        ),
{
    match ext {
        None => Err(FormatError::NoExtension(string_of(chars_of(path).as_slice()))),
        Some(e) => match parse_format_str(e) {
            Ok(f) => Ok(f),
            Err(_) => Err(FormatError::UnknownExtension(string_of(chars_of(e).as_slice()))),
        },
    }
}

/// Detect format from a file's extension.
pub fn detect_by_extension(path: &str) -> (res: Result<Format, FormatError>)
    ensures
        outcome(res) == spec_extension_format(path@, path_extension(path@)),
{
    let ext = match file_name_of(path) {
        None => None,
        Some(n) => extension_of(n.as_str()),
    };
    match ext {
        None => format_for_extension(path, None),
        Some(e) => format_for_extension(path, Some(e.as_str())),
    }
}

/// The bytes that magic detection looks at: the first eight at most.
pub open spec fn magic_window(b: Seq<u8>) -> Seq<u8> {
    if b.len() > 8 {
        b.take(8)
    } else {
        b
    }
}

/// ASCII white space as `u8::is_ascii_whitespace` defines it.
pub open spec fn is_ascii_space(b: u8) -> bool {
    b == 0x20 || b == 0x09 || b == 0x0a || b == 0x0c || b == 0x0d
}

/// The first byte of `b` that is not ASCII white space.
pub open spec fn first_non_space(b: Seq<u8>) -> Option<u8>
    decreases b.len(),
{
    if b.len() == 0 {
        None
    } else if is_ascii_space(b[0]) {
        first_non_space(b.drop_first())
    } else {
        Some(b[0])
    }
}

/// The format that the leading bytes of a file announce: `PAR1` is Parquet,
/// `ARROW1` is Arrow IPC, `PK` (ZIP) or `D0 CF 11 E0` (OLE2) is Excel, and a
/// first non-blank `[` or `{` is JSON or NDJSON. Anything else has no magic.
pub open spec fn magic_format(w: Seq<u8>) -> Option<Format> {
    if w.len() >= 4 && w[0] == 0x50 && w[1] == 0x41 && w[2] == 0x52 && w[3] == 0x31 {
        Some(Format::Parquet)
    } else if w.len() >= 6 && w[0] == 0x41 && w[1] == 0x52 && w[2] == 0x52 && w[3] == 0x4f && w[4]
        == 0x57 && w[5] == 0x31 {
        Some(Format::Arrow)
    } else if w.len() >= 2 && w[0] == 0x50 && w[1] == 0x4b {
        Some(Format::Excel)
    } else if w.len() >= 4 && w[0] == 0xd0 && w[1] == 0xcf && w[2] == 0x11 && w[3] == 0xe0 {
        Some(Format::Excel)
    } else {
        lead_format(w)
    }
}

/// JSON text announces itself by its first non-blank byte: `[` for a JSON
/// array, `{` for one object per line.
pub open spec fn lead_format(w: Seq<u8>) -> Option<Format> {
    match first_non_space(w) {
        Some(c) => if c == 0x5b {
            Some(Format::Json)
        } else if c == 0x7b {
            Some(Format::Ndjson)
        } else {
            None
        },
        None => None,
    }
}

/// The signatures at the start of a file name its format: `PAR1` Parquet,
/// `ARROW1` Arrow IPC, `PK` (a ZIP archive) or `D0 CF 11 E0` (an OLE2
/// document) Excel; a `[` or `{` after nothing but ASCII white space within the
/// first eight bytes is JSON or NDJSON; a file that starts with none of these
/// has no magic.
pub proof fn lemma_magic_signatures(head: Seq<u8>)
    ensures
        head.len() >= 4 && head[0] == 0x50 && head[1] == 0x41 && head[2] == 0x52 && head[3] == 0x31
            ==> magic_format(magic_window(head)) == Some(Format::Parquet),
        head.len() >= 6 && head[0] == 0x41 && head[1] == 0x52 && head[2] == 0x52 && head[3] == 0x4f
            && head[4] == 0x57 && head[5] == 0x31 ==> magic_format(magic_window(head)) == Some(
            Format::Arrow,
        ),
        head.len() >= 2 && head[0] == 0x50 && head[1] == 0x4b ==> magic_format(magic_window(head))
            == Some(Format::Excel),
        head.len() >= 4 && head[0] == 0xd0 && head[1] == 0xcf && head[2] == 0x11 && head[3] == 0xe0
            ==> magic_format(magic_window(head)) == Some(Format::Excel),
        forall|k: int|
            0 <= k < 8 && k < head.len() && (#[trigger] head[k] == 0x5b || head[k] == 0x7b) && (
            forall|q: int| 0 <= q < k ==> is_ascii_space(head[q])) ==> magic_format(
                magic_window(head),
            ) == Some(
                if head[k] == 0x5b {
                    Format::Json
                } else {
                    Format::Ndjson
                },
            ),
        head.len() == 0 || (!is_ascii_space(head[0]) && head[0] != 0x50 && head[0] != 0x41
            && head[0] != 0xd0 && head[0] != 0x5b && head[0] != 0x7b) ==> magic_format(
            magic_window(head),
        ) is None,
{
    let w = magic_window(head);
    assert forall|k: int|
        0 <= k < 8 && k < head.len() && (#[trigger] head[k] == 0x5b || head[k] == 0x7b) && (forall|
            q: int,
        | 0 <= q < k ==> is_ascii_space(head[q])) implies magic_format(w) == Some(
        if head[k] == 0x5b {
            Format::Json
        } else {
            Format::Ndjson
        },
    ) by {
        assert(w.len() > k);
        assert(forall|q: int| 0 <= q < w.len() ==> w[q] == head[q]);
        lemma_first_non_space_at(w, k);
    }
    if head.len() > 0 {
        assert(w[0] == head[0]);
    }
}

proof fn lemma_first_non_space_at(w: Seq<u8>, k: int)
    requires
        0 <= k < w.len(),
        !is_ascii_space(w[k]),
        forall|q: int| 0 <= q < k ==> is_ascii_space(w[q]),
    ensures
        first_non_space(w) == Some(w[k]),
    decreases k,
{
    if k > 0 {
        lemma_first_non_space_at(w.drop_first(), k - 1);
    }
}

/// Identify a format from the first bytes of a file (only the first eight are
/// looked at). Returns `None` for formats (CSV/TSV) that have no distinctive
/// magic sequence.
pub fn detect_by_magic(head: &[u8]) -> (res: Option<Format>)
    ensures
        res == magic_format(magic_window(head@)),
{
    let n = if head.len() > 8 {
        8
    } else {
        head.len()
    };
    let ghost w = magic_window(head@);
    assert(w.len() == n && forall|k: int| 0 <= k < n ==> w[k] == head@[k]);
    if n >= 4 && head[0] == 0x50 && head[1] == 0x41 && head[2] == 0x52 && head[3] == 0x31 {
        return Some(Format::Parquet);
    }
    if n >= 6 && head[0] == 0x41 && head[1] == 0x52 && head[2] == 0x52 && head[3] == 0x4f && head[4]
        == 0x57 && head[5] == 0x31 {
        return Some(Format::Arrow);
    }
    if n >= 2 && head[0] == 0x50 && head[1] == 0x4b {
        return Some(Format::Excel);
    }
    if n >= 4 && head[0] == 0xd0 && head[1] == 0xcf && head[2] == 0x11 && head[3] == 0xe0 {
        return Some(Format::Excel);
    }
    assert(w.skip(0) =~= w);
    assert(magic_format(w) == lead_format(w));
    let mut i: usize = 0;
    while i < n
        invariant
            n == w.len(),
            w == magic_window(head@),
            n <= head@.len(),
            magic_format(w) == lead_format(w),
            i <= n,
            forall|k: int| 0 <= k < n ==> w[k] == head@[k],
            first_non_space(w) == first_non_space(w.skip(i as int)),
        decreases n - i,
    {
        let b = head[i];
        assert(w.skip(i as int)[0] == b);
        assert(w.skip(i as int).drop_first() =~= w.skip(i + 1));
        if b == 0x20 || b == 0x09 || b == 0x0a || b == 0x0c || b == 0x0d {
            i = i + 1;
        } else if b == 0x5b {
            return Some(Format::Json);
        } else if b == 0x7b {
            return Some(Format::Ndjson);
        } else {
            return None;
        }
    }
    assert(w.skip(n as int).len() == 0);
    None
}

/// What `detect_format` gives: an override names the format outright; else
/// the magic bytes decide; else the extension.
pub open spec fn spec_detect_format(
    path: Seq<char>,
    override_fmt: Option<Seq<char>>,
    head: Seq<u8>,
) -> Result<Format, FormatFailure> {
    match override_fmt {
        Some(o) => spec_parse_format(o),
        None => match magic_format(magic_window(head)) {
            Some(f) => Ok(f),
            None => spec_extension_format(path, path_extension(path)),
        },
    }
}

/// An override names the format whatever the file holds or is called; magic
/// bytes name it whatever the file is called; and an extension read from a
/// path means what the same word means as a format name.
pub proof fn lemma_detection_priority(
    path: Seq<char>,
    other_path: Seq<char>,
    o: Seq<char>,
    head: Seq<u8>,
    other_head: Seq<u8>,
)
    ensures
        spec_detect_format(path, Some(o), head) == spec_detect_format(other_path, Some(o), other_head),
        spec_detect_format(path, Some(o), head) == spec_parse_format(o),
        magic_format(magic_window(head)) matches Some(f) ==> spec_detect_format(path, None, head)
            == Ok::<Format, FormatFailure>(f),
        path_extension(path) matches Some(e) ==> (spec_extension_format(path, Some(e)) is Ok
            <==> spec_parse_format(e) is Ok),
        path_extension(path) matches Some(e) ==> (spec_parse_format(e) matches Ok(f)
            ==> spec_extension_format(path, Some(e)) == Ok::<Format, FormatFailure>(f)),
{
}

/// Without an override or magic bytes, the format comes from the path alone:
/// two paths with the same extension get the same format, whatever the files
/// hold; a path without an extension is refused as such, and an extension that
/// is no format name is refused and reported as written.
pub proof fn lemma_detection_falls_back_to_extension(
    path: Seq<char>,
    other_path: Seq<char>,
    head: Seq<u8>,
    other_head: Seq<u8>,
)
    requires
        magic_format(magic_window(head)) is None,
        magic_format(magic_window(other_head)) is None,
    ensures
        path_extension(path) is Some && path_extension(path) == path_extension(other_path)
            ==> spec_detect_format(path, None, head) == spec_detect_format(
            other_path,
            None,
            other_head,
        ),
        path_extension(path) is None ==> spec_detect_format(path, None, head) == Err::<
            Format,
            FormatFailure,
        >(FormatFailure::NoExtension(path)),
        path_extension(path) matches Some(e) ==> (spec_parse_format(e) is Err
            ==> spec_detect_format(path, None, head) == Err::<Format, FormatFailure>(
            FormatFailure::UnknownExtension(e),
        )),
{
}

/// Detect format with priority: explicit override > magic bytes > extension.
/// `head` holds the first bytes of the file; it is not looked at when an
/// override is given.
pub fn detect_format(path: &str, override_fmt: Option<&str>, head: &[u8]) -> (res: Result<
    Format,
    FormatError,
>)
    ensures
        outcome(res) == spec_detect_format(
            path@,
            match override_fmt {
                Some(o) => Some(o@),
                None => None,
            },
            head@,
        ),
{
    if let Some(s) = override_fmt {
        return parse_format_str(s);
    }
    if let Some(f) = detect_by_magic(head) {
        return Ok(f);
    }
    detect_by_extension(path)
}

/// How often byte `b` occurs in `l`.
pub open spec fn count_of(l: Seq<u8>, b: u8) -> nat
    decreases l.len(),
{
    if l.len() == 0 {
        0
    } else {
        count_of(l.drop_last(), b) + if l.last() == b {
            1nat
        } else {
            0nat
        }
    }
}

/// The least number of occurrences of `b` over the lines, an empty line
/// counting as none; `None` when there are no lines.
pub open spec fn min_count(lines: Seq<Seq<u8>>, b: u8) -> Option<nat>
    decreases lines.len(),
{
    if lines.len() == 0 {
        None
    } else {
        let c = count_of(lines.last(), b);
        match min_count(lines.drop_last(), b) {
            None => Some(c),
            Some(m) => Some(
                if c < m {
                    c
                } else {
                    m
                },
            ),
        }
    }
}

/// The lines that delimiter sniffing samples: the lines of the first 8 KiB as
/// `str::lines` yields them (the pieces between `\n`s, without the empty piece
/// that follows a final `\n`; the `\r` it strips is none of the candidates),
/// at most the first ten.
pub open spec fn sampled_lines(sample: Seq<u8>) -> Seq<Seq<u8>> {
    let s = if sample.len() > 8192 {
        sample.take(8192)
    } else {
        sample
    };
    let p = split_on(s, 0x0au8);
    let ls = if p.last().len() == 0 {
        p.drop_last()
    } else {
        p
    };
    if ls.len() > 10 {
        ls.take(10)
    } else {
        ls
    }
}

/// The candidate whose least per-line count is highest. The candidates are
/// tried in the order `,` tab `;`, starting from `,` with score zero, and one
/// replaces the best so far only on a strictly greater count: a tie goes to the
/// earlier candidate, and `,` stands when no candidate occurs on every line.
pub open spec fn pick_delimiter(comma: nat, tab: nat, semicolon: nat) -> u8 {
    if semicolon > comma && semicolon > tab {
        0x3b
    } else if tab > comma {
        0x09
    } else {
        0x2c
    }
}

/// The delimiter that sniffing picks for a sample of a file.
pub open spec fn spec_delimiter(sample: Seq<u8>) -> u8 {
    let ls = sampled_lines(sample);
    match (min_count(ls, 0x2c), min_count(ls, 0x09), min_count(ls, 0x3b)) {
        (Some(a), Some(b), Some(c)) => pick_delimiter(a, b, c),
        _ => 0x2c,
    }
}

/// Sniffing always picks one of the three candidates.
pub proof fn lemma_delimiter_is_candidate(sample: Seq<u8>)
    ensures
        spec_delimiter(sample) == 0x2c || spec_delimiter(sample) == 0x09 || spec_delimiter(sample)
            == 0x3b,
{
}

/// Some line holds `e` fewer times than every line holds `d`: the least count
/// of `e` is below the least count of `d`.
#[verifier::opaque]
pub open spec fn fewer_somewhere(ls: Seq<Seq<u8>>, e: u8, d: u8) -> bool {
    exists|j: int|
        #![trigger ls[j]]
        0 <= j < ls.len() && forall|k: int|
            0 <= k < ls.len() ==> count_of(ls[j], e) < #[trigger] count_of(ls[k], d)
}

/// Some line holds `e` at most as often as every line holds `d`: the least
/// count of `e` is at most the least count of `d`.
#[verifier::opaque]
pub open spec fn no_more_somewhere(ls: Seq<Seq<u8>>, e: u8, d: u8) -> bool {
    exists|j: int|
        #![trigger ls[j]]
        0 <= j < ls.len() && forall|k: int|
            0 <= k < ls.len() ==> count_of(ls[j], e) <= #[trigger] count_of(ls[k], d)
}

proof fn lemma_min_count_bounds(ls: Seq<Seq<u8>>, b: u8)
    requires
        ls.len() > 0,
    ensures
        min_count(ls, b) is Some,
        forall|k: int| 0 <= k < ls.len() ==> min_count(ls, b)->0 <= #[trigger] count_of(ls[k], b),
        exists|j: int| 0 <= j < ls.len() && count_of(ls[j], b) == min_count(ls, b)->0,
    decreases ls.len(),
{
    if ls.len() > 1 {
        let p = ls.drop_last();
        lemma_min_count_bounds(p, b);
        let j0 = choose|j: int| 0 <= j < p.len() && count_of(p[j], b) == min_count(p, b)->0;
        assert(ls[j0] == p[j0]);
        let last = ls.len() - 1;
        assert(ls[last] == ls.last());
        if count_of(ls.last(), b) < min_count(p, b)->0 {
            assert(count_of(ls[last], b) == min_count(ls, b)->0);
        } else {
            assert(count_of(ls[j0], b) == min_count(ls, b)->0);
        }
        assert forall|k: int| 0 <= k < ls.len() implies min_count(ls, b)->0 <= #[trigger] count_of(
            ls[k],
            b,
        ) by {
            if k < p.len() {
                assert(ls[k] == p[k]);
            }
        }
    } else {
        assert(ls.drop_last().len() == 0);
        assert(min_count(ls.drop_last(), b) is None);
        assert(ls[0] == ls.last());
        assert(count_of(ls[0], b) == min_count(ls, b)->0);
    }
}

proof fn lemma_fewer_is_lower_min(ls: Seq<Seq<u8>>, e: u8, d: u8)
    requires
        ls.len() > 0,
    ensures
        fewer_somewhere(ls, e, d) <==> min_count(ls, e)->0 < min_count(ls, d)->0,
{
    reveal(fewer_somewhere);
    lemma_min_count_bounds(ls, e);
    lemma_min_count_bounds(ls, d);
    let me = min_count(ls, e)->0;
    let md = min_count(ls, d)->0;
    let je = choose|j: int| 0 <= j < ls.len() && count_of(ls[j], e) == me;
    let jd = choose|j: int| 0 <= j < ls.len() && count_of(ls[j], d) == md;
    if fewer_somewhere(ls, e, d) {
        let j = choose|j: int|
            #![trigger ls[j]]
            0 <= j < ls.len() && forall|k: int|
                0 <= k < ls.len() ==> count_of(ls[j], e) < #[trigger] count_of(ls[k], d);
        assert(count_of(ls[j], e) < count_of(ls[jd], d));
        assert(me <= count_of(ls[j], e));
    }
    if me < md {
        assert forall|k: int| 0 <= k < ls.len() implies count_of(ls[je], e) < #[trigger] count_of(
            ls[k],
            d,
        ) by {
            assert(md <= count_of(ls[k], d));
        }
    }
}

proof fn lemma_no_more_is_min_at_most(ls: Seq<Seq<u8>>, e: u8, d: u8)
    requires
        ls.len() > 0,
    ensures
        no_more_somewhere(ls, e, d) <==> min_count(ls, e)->0 <= min_count(ls, d)->0,
{
    reveal(no_more_somewhere);
    lemma_min_count_bounds(ls, e);
    lemma_min_count_bounds(ls, d);
    let me = min_count(ls, e)->0;
    let md = min_count(ls, d)->0;
    let je = choose|j: int| 0 <= j < ls.len() && count_of(ls[j], e) == me;
    let jd = choose|j: int| 0 <= j < ls.len() && count_of(ls[j], d) == md;
    if no_more_somewhere(ls, e, d) {
        let j = choose|j: int|
            #![trigger ls[j]]
            0 <= j < ls.len() && forall|k: int|
                0 <= k < ls.len() ==> count_of(ls[j], e) <= #[trigger] count_of(ls[k], d);
        assert(count_of(ls[j], e) <= count_of(ls[jd], d));
        assert(me <= count_of(ls[j], e));
    }
    if me <= md {
        assert forall|k: int| 0 <= k < ls.len() implies count_of(ls[je], e) <= #[trigger] count_of(
            ls[k],
            d,
        ) by {
            assert(md <= count_of(ls[k], d));
        }
    }
}

/// Sniffing picks, among the sampled lines, the candidate that occurs most
/// consistently, the earlier one on a tie: `;` exactly when some line holds
/// fewer commas, and some line fewer tabs, than every line holds semicolons;
/// tab exactly when some line holds fewer commas than every line holds tabs
/// and some line holds no more semicolons than every line holds tabs; `,`
/// otherwise, which is when no line is sampled or some line holds no more tabs,
/// and some line no more semicolons, than every line holds commas.
pub proof fn lemma_delimiter_most_consistent(sample: Seq<u8>)
    ensures
        ({
            let ls = sampled_lines(sample);
            &&& ls.len() == 0 ==> spec_delimiter(sample) == 0x2c
            &&& ls.len() > 0 ==> ((spec_delimiter(sample) == 0x3b) <==> (fewer_somewhere(
                ls,
                0x2c,
                0x3b,
            ) && fewer_somewhere(ls, 0x09, 0x3b)))
            &&& ls.len() > 0 ==> ((spec_delimiter(sample) == 0x09) <==> (fewer_somewhere(
                ls,
                0x2c,
                0x09,
            ) && no_more_somewhere(ls, 0x3b, 0x09)))
            &&& ls.len() > 0 ==> ((spec_delimiter(sample) == 0x2c) <==> (no_more_somewhere(
                ls,
                0x09,
                0x2c,
            ) && no_more_somewhere(ls, 0x3b, 0x2c)))
        }),
{
    let ls = sampled_lines(sample);
    if ls.len() > 0 {
        lemma_min_count_bounds(ls, 0x2c);
        lemma_min_count_bounds(ls, 0x09);
        lemma_min_count_bounds(ls, 0x3b);
        lemma_fewer_is_lower_min(ls, 0x2c, 0x3b);
        lemma_fewer_is_lower_min(ls, 0x09, 0x3b);
        lemma_fewer_is_lower_min(ls, 0x2c, 0x09);
        lemma_no_more_is_min_at_most(ls, 0x3b, 0x09);
        lemma_no_more_is_min_at_most(ls, 0x09, 0x2c);
        lemma_no_more_is_min_at_most(ls, 0x3b, 0x2c);
    }
}

/// The lines finished so far that still count: at most the first ten.
pub open spec fn counted_lines(p: Seq<Seq<u8>>) -> Seq<Seq<u8>> {
    if p.len() > 11 {
        p.drop_last().take(10)
    } else {
        p.drop_last()
    }
}

/// The running minimum after one more line with `c` occurrences.
pub open spec fn fold_min(m: Option<nat>, c: nat) -> Option<nat> {
    match m {
        None => Some(c),
        Some(x) => Some(
            if c < x {
                c
            } else {
                x
            },
        ),
    }
}

/// The running minimum, on machine integers.
fn next_min(m: Option<usize>, c: usize) -> (r: Option<usize>)
    ensures
        opt_nat(r) == fold_min(opt_nat(m), c as nat),
{
    match m {
        None => Some(c),
        Some(x) => Some(
            if c < x {
                c
            } else {
                x
            },
        ),
    }
}

/// A count held as a machine integer, taken as a natural number.
pub open spec fn opt_nat(m: Option<usize>) -> Option<nat> {
    match m {
        Some(y) => Some(y as nat),
        None => None,
    }
}

proof fn lemma_min_count_push(lines: Seq<Seq<u8>>, l: Seq<u8>, b: u8)
    ensures
        min_count(lines.push(l), b) == fold_min(min_count(lines, b), count_of(l, b)),
{
    assert(lines.push(l).drop_last() =~= lines);
}

/// Detect the delimiter of a CSV-like file from a sample of its start (up to
/// 8 KiB and 10 lines are looked at): each of `,`, tab and `;` is counted on
/// every line, and the one whose least count is highest wins, the earlier
/// candidate on a tie. Defaults to `,`.
pub fn detect_csv_delimiter(sample: &[u8]) -> (d: u8)
    ensures
        d == spec_delimiter(sample@),
{
    let n: usize = if sample.len() > 8192 {
        8192
    } else {
        sample.len()
    };
    let ghost s = if sample@.len() > 8192 {
        sample@.take(8192)
    } else {
        sample@
    };
    let mut done: usize = 0;
    let mut cur_len: usize = 0;
    let mut c0: usize = 0;
    let mut c1: usize = 0;
    let mut c2: usize = 0;
    let mut m0: Option<usize> = None;
    let mut m1: Option<usize> = None;
    let mut m2: Option<usize> = None;
    let mut i: usize = 0;
    assert(s.take(0) =~= Seq::<u8>::empty());
    while i < n
        invariant
            n == s.len(),
            n <= sample@.len(),
            forall|k: int| 0 <= k < n ==> s[k] == sample@[k],
            i <= n,
            done <= i,
            cur_len <= i,
            c0 <= i,
            c1 <= i,
            c2 <= i,
            split_on(s.take(i as int), 0x0au8).len() == done + 1,
            cur_len == split_on(s.take(i as int), 0x0au8).last().len(),
            c0 == count_of(split_on(s.take(i as int), 0x0au8).last(), 0x2c),
            c1 == count_of(split_on(s.take(i as int), 0x0au8).last(), 0x09),
            c2 == count_of(split_on(s.take(i as int), 0x0au8).last(), 0x3b),
            opt_nat(m0) == min_count(counted_lines(split_on(s.take(i as int), 0x0au8)), 0x2c),
            opt_nat(m1) == min_count(counted_lines(split_on(s.take(i as int), 0x0au8)), 0x09),
            opt_nat(m2) == min_count(counted_lines(split_on(s.take(i as int), 0x0au8)), 0x3b),
        decreases n - i,
    {
        let ghost p = split_on(s.take(i as int), 0x0au8);
        let b = sample[i];
        assert(s.take(i + 1).drop_last() =~= s.take(i as int));
        assert(s.take(i + 1).last() == b);
        let ghost q = split_on(s.take(i + 1), 0x0au8);
        if b == 0x0a {
            assert(q == p.push(Seq::<u8>::empty()));
            assert(q.drop_last() =~= p);
            if done < 10 {
                assert(counted_lines(p) =~= p.drop_last());
                assert(counted_lines(q) =~= p);
                proof {
                    assert(p =~= p.drop_last().push(p.last()));
                    lemma_min_count_push(p.drop_last(), p.last(), 0x2c);
                    lemma_min_count_push(p.drop_last(), p.last(), 0x09);
                    lemma_min_count_push(p.drop_last(), p.last(), 0x3b);
                }
                m0 = next_min(m0, c0);
                m1 = next_min(m1, c1);
                m2 = next_min(m2, c2);
            } else {
                assert(counted_lines(q) =~= counted_lines(p));
            }
            done = done + 1;
            cur_len = 0;
            c0 = 0;
            c1 = 0;
            c2 = 0;
        } else {
            proof {
                crate::text::lemma_split_on_nonempty(s.take(i as int), 0x0au8);
            }
            assert(q == p.update(p.len() - 1, p.last().push(b)));
            assert(q.drop_last() =~= p.drop_last());
            assert(counted_lines(q) =~= counted_lines(p));
            assert(q.last().drop_last() =~= p.last());
            cur_len = cur_len + 1;
            if b == 0x2c {
                c0 = c0 + 1;
            }
            if b == 0x09 {
                c1 = c1 + 1;
            }
            if b == 0x3b {
                c2 = c2 + 1;
            }
        }
        i = i + 1;
    }
    let ghost p = split_on(s, 0x0au8);
    assert(s.take(n as int) =~= s);
    if done < 10 {
        if cur_len == 0 {
            assert(sampled_lines(sample@) == p.drop_last());
        } else {
            assert(sampled_lines(sample@) == p);
            proof {
                assert(p =~= p.drop_last().push(p.last()));
                lemma_min_count_push(p.drop_last(), p.last(), 0x2c);
                lemma_min_count_push(p.drop_last(), p.last(), 0x09);
                lemma_min_count_push(p.drop_last(), p.last(), 0x3b);
            }
            m0 = next_min(m0, c0);
            m1 = next_min(m1, c1);
            m2 = next_min(m2, c2);
        }
    } else {
        assert(sampled_lines(sample@) =~= counted_lines(p));
    }
    match (m0, m1, m2) {
        (Some(a), Some(b), Some(c)) => {
            if c > a && c > b {
                0x3b
            } else if b > a {
                0x09
            } else {
                0x2c
            }
        },
        _ => 0x2c,
    }
}

} // verus!
