//! What is shown about a file: its size, its format's name, its sheets.
use crate::format::Format;
use crate::text::{decimal, digit_char, push_char, push_decimal, push_str, push_string};
use vstd::arithmetic::div_mod::lemma_fundamental_div_mod;
use vstd::prelude::*;

verus! {

/// Info about a single sheet (Excel) or the entire file (other formats).
#[derive(Debug)]
pub struct SheetInfo {
    pub name: String,
    /// Total rows, the header row included.
    pub rows: usize,
    pub cols: usize,
}

/// Info about the file.
#[derive(Debug)]
pub struct FileInfo {
    pub file_size: u64,
    pub format: Format,
    pub sheets: Vec<SheetInfo>,
}

/// `num / den` rounded to the nearest integer, a tie going to the even one.
pub open spec fn round_half_even(num: nat, den: nat) -> nat {
    let q = num / den;
    let r = num % den;
    if 2 * r > den || (2 * r == den && q % 2 == 1) {
        q + 1
    } else {
        q
    }
}

/// The spacing of 64-bit floating-point numbers around `n`: one below 2^53,
/// doubling with every further bit of `n`.
pub open spec fn float_unit(n: nat) -> nat
    decreases n,
{
    if n < 0x20_0000_0000_0000 {
        1
    } else {
        2 * float_unit(n / 2)
    }
}

/// The value of `n as f64`: `n` rounded to the nearest multiple of its float
/// spacing, ties to even.
pub open spec fn float_value(n: nat) -> nat {
    round_half_even(n, float_unit(n)) * float_unit(n)
}

/// A count of tenths written with one decimal: `14` is `1.4`.
pub open spec fn tenths_text(t: nat) -> Seq<char> {
    decimal(t / 10) + seq!['.', digit_char(t % 10)]
}

/// The display of a byte count: whole bytes below 1 KiB, whole KiB below
/// 1 MiB, and tenths of MiB or GiB above, each rounded half to even as Rust's
/// float formatting does.
pub open spec fn spec_file_size(b: nat) -> Seq<char> {
    if b < 1024 {
        decimal(b) + seq![' ', 'B']
    } else if b < 1048576 {
        decimal(round_half_even(b, 1024)) + seq![' ', 'K', 'B']
    } else if b < 1073741824 {
        tenths_text(round_half_even(b * 10, 1048576)) + seq![' ', 'M', 'B']
    } else {
        tenths_text(round_half_even(float_value(b) * 10, 1073741824)) + seq![' ', 'G', 'B']
    }
}

/// A size is shown in the largest unit it reaches, as the nearest whole count
/// of that unit below 1 MiB and the nearest tenth above: below 1 KiB the exact
/// byte count; below 1 MiB whole KiB within half a KiB of the size; below
/// 1 GiB tenths of MiB within half a tenth.
pub proof fn lemma_file_size_is_nearest(b: nat)
    ensures
        b < 1024 ==> spec_file_size(b) == decimal(b) + " B"@,
        1024 <= b < 1048576 ==> exists|k: nat|
            spec_file_size(b) == #[trigger] decimal(k) + " KB"@ && 2 * b <= 2 * 1024 * k + 1024 && 2 * 1024
                * k <= 2 * b + 1024,
        1048576 <= b < 1073741824 ==> exists|t: nat|
            spec_file_size(b) == decimal(t / 10) + seq!['.', #[trigger] digit_char(t % 10)] + " MB"@ && 2
                * (b * 10) <= 2 * 1048576 * t + 1048576 && 2 * 1048576 * t <= 2 * (b * 10) + 1048576,
{
    reveal_strlit(" B");
    reveal_strlit(" KB");
    reveal_strlit(" MB");
    if b < 1024 {
        assert(spec_file_size(b) =~= decimal(b) + " B"@);
    } else if b < 1048576 {
        let k = round_half_even(b, 1024);
        lemma_round_half_even_near(b, 1024);
        assert(spec_file_size(b) =~= decimal(k) + " KB"@);
    } else if b < 1073741824 {
        let t = round_half_even(b * 10, 1048576);
        lemma_round_half_even_near(b * 10, 1048576);
        assert(spec_file_size(b) =~= decimal(t / 10) + seq!['.', digit_char(t % 10)] + " MB"@);
        assert(2 * (b * 10) <= 2 * 1048576 * t + 1048576);
        assert(2 * 1048576 * t <= 2 * (b * 10) + 1048576);
    }
}

proof fn lemma_round_half_even_near(num: nat, den: nat)
    requires
        den > 0,
    ensures
        2 * num <= 2 * den * round_half_even(num, den) + den,
        2 * den * round_half_even(num, den) <= 2 * num + den,
{
    lemma_fundamental_div_mod(num as int, den as int);
    let q = num / den;
    let r = num % den;
    assert(num == den * q + r);
    assert(2 * den * q == 2 * (den * q)) by (nonlinear_arith);
    assert(2 * den * (q + 1) == 2 * (den * q) + 2 * den) by (nonlinear_arith);
}

/// `num / den` rounded half to even, for a positive denominator.
fn round_div(num: u128, den: u128) -> (r: u128)
    requires
        den > 0,
        num / den < u128::MAX,
    ensures
        r == round_half_even(num as nat, den as nat),
{
    let q = num / den;
    let rem = num % den;
    if rem > den - rem || (rem == den - rem && q % 2 == 1) {
        q + 1
    } else {
        q
    }
}

/// The float spacing of `n` (see `float_unit`).
fn float_unit_of(n: u64) -> (u: u128)
    ensures
        u == float_unit(n as nat),
        1 <= u <= 0x1000,
{
    let mut m: u64 = n;
    let mut u: u128 = 1;
    while m >= 0x20_0000_0000_0000
        invariant
            float_unit(n as nat) == u * float_unit(m as nat),
            1 <= u,
            u * m <= n,
            m >= 0x10_0000_0000_0000 ==> u * 0x10_0000_0000_0000 <= n,
            u <= 0x1000 || m < 0x20_0000_0000_0000,
            m < 0x20_0000_0000_0000 ==> u <= 0x1000,
        decreases m,
    {
        let ghost old_u = u;
        let ghost old_m = m;
        assert(float_unit(m as nat) == 2 * float_unit((m / 2) as nat));
        m = m / 2;
        u = u * 2;
        assert(u * m <= n) by (nonlinear_arith)
            requires
                u == 2 * old_u,
                m == old_m / 2,
                old_u * old_m <= n,
                old_u >= 1,
        ;
        assert(float_unit(n as nat) == u * float_unit(m as nat)) by (nonlinear_arith)
            requires
                float_unit(n as nat) == old_u * float_unit(old_m as nat),
                float_unit(old_m as nat) == 2 * float_unit(m as nat),
                u == 2 * old_u,
        ;
        assert(u * 0x10_0000_0000_0000 <= n) by (nonlinear_arith)
            requires
                u == 2 * old_u,
                m == old_m / 2,
                old_m >= 0x20_0000_0000_0000,
                old_u * old_m <= n,
                old_u >= 1,
        ;
        assert(u <= 0x1000) by (nonlinear_arith)
            requires
                u * 0x10_0000_0000_0000 <= n,
                n < 0x1_0000_0000_0000_0000u128,
        ;
    }
    assert(float_unit(m as nat) == 1);
    assert(float_unit(n as nat) == u) by (nonlinear_arith)
        requires
            float_unit(n as nat) == u * float_unit(m as nat),
            float_unit(m as nat) == 1,
    ;
    u
}

/// The value of `n as f64` (see `float_value`), which is below 2^65.
fn float_value_of(n: u64) -> (f: u128)
    ensures
        f == float_value(n as nat),
        f <= 0x2_0000_0000_0000_0000u128,
{
    let u = float_unit_of(n);
    let nn = n as u128;
    proof {
        lemma_fundamental_div_mod(nn as int, u as int);
    }
    assert(nn / u <= nn) by (nonlinear_arith)
        requires
            u >= 1,
    ;
    let k = round_div(nn, u);
    assert(k * u <= nn + u) by (nonlinear_arith)
        requires
            k <= nn / u + 1,
            nn == u * (nn / u) + nn % u,
            u >= 1,
            nn % u >= 0,
    ;
    k * u
}

/// Appends tenths `t` with one decimal.
fn push_tenths(s: &mut String, t: u64)
    ensures
        final(s)@ == old(s)@ + tenths_text(t as nat),
{
    push_decimal(s, t / 10);
    push_char(s, '.');
    let d = (t % 10) as u8;
    push_char(s, (d + 48) as char);
    assert(final(s)@ =~= old(s)@ + tenths_text(t as nat));
}

/// Format file size for display: "245 KB", "1.2 MB", etc.
pub fn format_file_size(bytes: u64) -> (s: String)
    ensures
        s@ == spec_file_size(bytes as nat),
{
    let mut s = String::new();
    if bytes < 1024 {
        push_decimal(&mut s, bytes);
        push_str(&mut s, " B");
        proof {
            reveal_strlit(" B");
        }
        assert(s@ =~= spec_file_size(bytes as nat));
    } else if bytes < 1048576 {
        let k = round_div(bytes as u128, 1024);
        push_decimal(&mut s, k as u64);
        push_str(&mut s, " KB");
        proof {
            reveal_strlit(" KB");
        }
        assert(s@ =~= spec_file_size(bytes as nat));
    } else if bytes < 1073741824 {
        let t = round_div((bytes as u128) * 10, 1048576);
        push_tenths(&mut s, t as u64);
        push_str(&mut s, " MB");
        proof {
            reveal_strlit(" MB");
        }
        assert(s@ =~= spec_file_size(bytes as nat));
    } else {
        let f = float_value_of(bytes);
        let t = round_div(f * 10, 1073741824);
        push_tenths(&mut s, t as u64);
        push_str(&mut s, " GB");
        proof {
            reveal_strlit(" GB");
        }
        assert(s@ =~= spec_file_size(bytes as nat));
    }
    s
}

/// The display name of a format.
pub open spec fn spec_format_name(fmt: Format) -> Seq<char> {
    match fmt {
        Format::Csv => "CSV"@,
        Format::Tsv => "TSV"@,
        Format::Parquet => "Parquet"@,
        Format::Arrow => "Arrow IPC"@,
        Format::Json => "JSON"@,
        Format::Ndjson => "NDJSON"@,
        Format::Excel => "Excel"@,
    }
}

/// Format name for a Format variant.
pub fn format_name(fmt: Format) -> (s: &'static str)
    ensures
        s@ == spec_format_name(fmt),
{
    match fmt {
        Format::Csv => "CSV",
        Format::Tsv => "TSV",
        Format::Parquet => "Parquet",
        Format::Arrow => "Arrow IPC",
        Format::Json => "JSON",
        Format::Ndjson => "NDJSON",
        Format::Excel => "Excel",
    }
}

/// The header printed above a file's contents: its name, size and format,
/// and the sheet count when there is more than one sheet.
pub open spec fn spec_format_header(file_name: Seq<char>, size: nat, fmt: Format, sheets: nat) -> Seq<
    char,
> {
    "# File: "@ + file_name + " ("@ + spec_file_size(size) + ") ["@ + spec_format_name(fmt) + "]\n"@
        + if sheets > 1 {
        "# Sheets: "@ + decimal(sheets) + "\n"@
    } else {
        Seq::<char>::empty()
    }
}

/// Each format has a display name of its own.
pub proof fn lemma_format_names_distinct(a: Format, b: Format)
    ensures
        spec_format_name(a) == spec_format_name(b) ==> a == b,
{
    reveal_strlit("CSV");
    reveal_strlit("TSV");
    reveal_strlit("Parquet");
    reveal_strlit("Arrow IPC");
    reveal_strlit("JSON");
    reveal_strlit("NDJSON");
    reveal_strlit("Excel");
    if spec_format_name(a) == spec_format_name(b) {
        let n = spec_format_name(a);
        assert(n.len() == spec_format_name(b).len());
        assert(n[0] == spec_format_name(b)[0]);
        assert(n.len() > 1 ==> n[1] == spec_format_name(b)[1]);
    }
}

/// The header names the file and then shows its size and format; a second
/// line gives the sheet count exactly when there is more than one sheet.
pub proof fn lemma_header_lines(file_name: Seq<char>, size: nat, fmt: Format, sheets: nat)
    ensures
        spec_format_header(file_name, size, fmt, sheets) == "# File: "@ + file_name + " ("@
            + spec_file_size(size) + ") ["@ + spec_format_name(fmt) + "]\n"@ + if sheets >= 2 {
            "# Sheets: "@ + decimal(sheets) + "\n"@
        } else {
            ""@
        },
{
    reveal_strlit("");
    if sheets < 2 {
        assert(""@ =~= Seq::<char>::empty());
    }
}

/// The header lines for a file: `# File: report.csv (245 KB) [CSV]`, then
/// `# Sheets: N` for a workbook with more than one sheet.
pub fn format_header(file_name: &str, info: &FileInfo) -> (s: String)
    ensures
        s@ == spec_format_header(
            file_name@,
            info.file_size as nat,
            info.format,
            info.sheets@.len(),
        ),
{
    let size = format_file_size(info.file_size);
    let mut s = String::new();
    push_str(&mut s, "# File: ");
    push_str(&mut s, file_name);
    push_str(&mut s, " (");
    push_string(&mut s, &size);
    push_str(&mut s, ") [");
    push_str(&mut s, format_name(info.format));
    push_str(&mut s, "]\n");
    let n = info.sheets.len();
    if n > 1 {
        push_str(&mut s, "# Sheets: ");
        push_decimal(&mut s, n as u64);
        push_str(&mut s, "\n");
    }
    assert(s@ =~= spec_format_header(
        file_name@,
        info.file_size as nat,
        info.format,
        info.sheets@.len(),
    ));
    s
}

} // verus!
