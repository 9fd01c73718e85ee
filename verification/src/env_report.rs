//! What the diff shows: masked or revealed values, the machine-readable CI
//! text, the column widths and the summary counts of the table.
use vstd::prelude::*;

use crate::env_diff::{DiffRow, KeyStatus};
use crate::text::{append_chars, append_str, chars_of, decimal, decimal_chars, string_of};
use vstd::string::StringSliceAdditionalSpecFns;

verus! {

/// What a value is shown as unless its key is revealed.
pub open spec fn mask_text() -> Seq<char> {
    "\u{25CF}\u{25CF}\u{25CF}\u{25CF}"@
}

/// What a missing value is shown as.
pub open spec fn missing_text() -> Seq<char> {
    "(missing)"@
}

/// Whether `key` is one of the revealed keys.
pub open spec fn revealed(reveal_keys: Seq<String>, key: Seq<char>) -> bool {
    exists|i: int| 0 <= i < reveal_keys.len() && (#[trigger] reveal_keys[i])@ == key
}

/// The UTF-8 encoding of a text.
pub open spec fn utf8(s: Seq<char>) -> Seq<u8> {
    vstd::utf8::encode_utf8(s)
}

/// The last character boundary of `b` at or before byte `k`.
pub open spec fn cut_at(b: Seq<u8>, k: int) -> int
    decreases k,
{
    if k <= 0 {
        0
    } else if vstd::utf8::is_char_boundary(b, k) {
        k
    } else {
        cut_at(b, k - 1)
    }
}

/// The longest start of a long value that ends on a character boundary
/// and has at most 47 bytes.
pub open spec fn shortened(s: Seq<char>) -> Seq<char> {
    vstd::utf8::decode_utf8(utf8(s).take(cut_at(utf8(s), 47)))
}

/// How a value is shown: missing values as `(missing)`, values of
/// unrevealed keys masked, revealed values longer than 50 bytes cut to
/// their longest start of at most 47 bytes that ends on a character
/// boundary, and `...`.
pub open spec fn display_spec(row: DiffRow, col: int, reveal_keys: Seq<String>) -> Seq<char> {
    match row.values@[col] {
        None => missing_text(),
        Some(v) => if revealed(reveal_keys, row.key@) {
            if utf8(v@).len() > 50 {
                shortened(v@) + "..."@
            } else {
                v@
            }
        } else {
            mask_text()
        },
    }
}

/// Whether `key` is revealed.
pub fn is_revealed(reveal_keys: &[String], key: &String) -> (r: bool)
    ensures
        r == revealed(reveal_keys@, key@),
{
    let mut i: usize = 0;
    while i < reveal_keys.len()
        invariant
            i <= reveal_keys.len(),
            forall|j: int| 0 <= j < i ==> (#[trigger] reveal_keys@[j])@ != key@,
        decreases reveal_keys.len() - i,
    {
        if reveal_keys[i] == *key {
            return true;
        }
        i = i + 1;
    }
    false
}

/// How the value of column `col` of `row` is shown.
pub fn display_value(row: &DiffRow, col: usize, reveal_keys: &[String]) -> (r: String)
    requires
        col < row.values@.len(),
    ensures
        r@ == display_spec(*row, col as int, reveal_keys@),
{
    match &row.values[col] {
        None => String::from_str("(missing)"),
        Some(val) => {
            if is_revealed(reveal_keys, &row.key) {
                if val.as_str().as_bytes().len() > 50 {
                    let ghost b = utf8(val@);
                    proof {
                        vstd::utf8::encode_utf8_valid_utf8(val@);
                        vstd::utf8::is_char_boundary_start_end_of_seq(b);
                    }
                    let mut k: usize = 47;
                    while k > 0 && !val.as_str().is_char_boundary(k)
                        invariant
                            k <= 47,
                            b == utf8(val@),
                            vstd::utf8::valid_utf8(b),
                            cut_at(b, k as int) == cut_at(b, 47),
                        decreases k,
                    {
                        k = k - 1;
                    }
                    assert(cut_at(b, k as int) == k);
                    let (head, _) = val.as_str().split_at(k);
                    proof {
                        vstd::utf8::encode_utf8_decode_utf8(head@);
                        assert(head.spec_bytes() == b.take(k as int));
                    }
                    let mut out = chars_of(head);
                    append_str(&mut out, "...");
                    string_of(&out)
                } else {
                    val.clone()
                }
            } else {
                String::from_str("\u{25CF}\u{25CF}\u{25CF}\u{25CF}")
            }
        },
    }
}

/// A value of an unrevealed key is never shown: what stands in its column
/// is the mask or the missing marker.
pub proof fn law_unrevealed_values_hidden(row: DiffRow, col: int, reveal_keys: Seq<String>)
    requires
        0 <= col < row.values@.len(),
        !revealed(reveal_keys, row.key@),
    ensures
        display_spec(row, col, reveal_keys) == mask_text() || display_spec(row, col, reveal_keys)
            == missing_text(),
{
}

// ---------------------------------------------------------------------
// CI output
// ---------------------------------------------------------------------

/// The status word of the CI output.
pub open spec fn status_word(s: KeyStatus) -> Seq<char> {
    match s {
        KeyStatus::Same => "SAME"@,
        KeyStatus::Different => "DIFF"@,
        KeyStatus::Missing => "MISSING"@,
    }
}

/// The shown values of columns `c..n` of a row, each after a tab.
pub open spec fn ci_cells(row: DiffRow, c: int, n: int, reveal_keys: Seq<String>) -> Seq<char>
    decreases n - c,
{
    if c >= n || c < 0 {
        Seq::empty()
    } else {
        "\t"@ + display_spec(row, c, reveal_keys) + ci_cells(row, c + 1, n, reveal_keys)
    }
}

/// The file names, each after a tab.
pub open spec fn ci_names(names: Seq<String>, c: int) -> Seq<char>
    decreases names.len() - c,
{
    if c >= names.len() || c < 0 {
        Seq::empty()
    } else {
        "\t"@ + names[c]@ + ci_names(names, c + 1)
    }
}

/// The lines of rows `i..`.
pub open spec fn ci_rows(rows: Seq<DiffRow>, i: int, n: int, reveal_keys: Seq<String>) -> Seq<char>
    decreases rows.len() - i,
{
    if i >= rows.len() || i < 0 {
        Seq::empty()
    } else {
        status_word(rows[i].status) + "\t"@ + rows[i].key@ + ci_cells(rows[i], 0, n, reveal_keys)
            + "\n"@ + ci_rows(rows, i + 1, n, reveal_keys)
    }
}

/// The machine-readable CI output: a header of `STATUS`, `KEY` and the file
/// names, then one tab-separated line per row.
pub open spec fn ci_text(rows: Seq<DiffRow>, names: Seq<String>, reveal_keys: Seq<String>) -> Seq<
    char,
> {
    "STATUS\tKEY"@ + ci_names(names, 0) + "\n"@ + ci_rows(rows, 0, names.len() as int, reveal_keys)
}

/// Whether every row has a value for each file.
pub open spec fn rows_showable(rows: Seq<DiffRow>, n: int, reveal_keys: Seq<String>) -> bool {
    forall|i: int| 0 <= i < rows.len() ==> (#[trigger] rows[i]).values@.len() >= n
}

fn status_text(s: KeyStatus) -> (r: &'static str)
    ensures
        r@ == status_word(s),
{
    match s {
        KeyStatus::Same => "SAME",
        KeyStatus::Different => "DIFF",
        KeyStatus::Missing => "MISSING",
    }
}

/// The machine-readable CI output (no colors, tab-separated).
pub fn format_ci(rows: &[DiffRow], file_names: &[String], reveal_keys: &[String]) -> (r: String)
    requires
        rows_showable(rows@, file_names@.len() as int, reveal_keys@),
    ensures
        r@ == ci_text(rows@, file_names@, reveal_keys@),
{
    let n = file_names.len();
    let mut out: Vec<char> = Vec::new();
    append_str(&mut out, "STATUS\tKEY");
    let mut c: usize = 0;
    while c < n
        invariant
            c <= n == file_names@.len(),
            out@ + ci_names(file_names@, c as int) == "STATUS\tKEY"@ + ci_names(file_names@, 0),
        decreases n - c,
    {
        let ghost before = out@;
        append_str(&mut out, "\t");
        append_chars(&mut out, &chars_of(file_names[c].as_str()));
        assert(out@ + ci_names(file_names@, c + 1) =~= before + ci_names(file_names@, c as int));
        c = c + 1;
    }
    append_str(&mut out, "\n");
    let ghost head = out@;
    assert(head =~= "STATUS\tKEY"@ + ci_names(file_names@, 0) + "\n"@);
    let mut i: usize = 0;
    while i < rows.len()
        invariant
            i <= rows.len(),
            n == file_names@.len(),
            rows_showable(rows@, n as int, reveal_keys@),
            out@ + ci_rows(rows@, i as int, n as int, reveal_keys@) == head + ci_rows(
                rows@,
                0,
                n as int,
                reveal_keys@,
            ),
        decreases rows.len() - i,
    {
        let ghost before = out@;
        let row = &rows[i];
        append_str(&mut out, status_text(row.status));
        append_str(&mut out, "\t");
        append_chars(&mut out, &chars_of(row.key.as_str()));
        let ghost mid = out@;
        let mut col: usize = 0;
        while col < n
            invariant
                col <= n,
                i < rows@.len(),
                row == &rows@[i as int],
                row.values@.len() >= n,
                out@ + ci_cells(*row, col as int, n as int, reveal_keys@) == mid + ci_cells(
                    *row,
                    0,
                    n as int,
                    reveal_keys@,
                ),
            decreases n - col,
        {
            let ghost b2 = out@;
            append_str(&mut out, "\t");
            let v = display_value(row, col, reveal_keys);
            append_chars(&mut out, &chars_of(v.as_str()));
            assert(out@ + ci_cells(*row, col + 1, n as int, reveal_keys@) =~= b2 + ci_cells(
                *row,
                col as int,
                n as int,
                reveal_keys@,
            ));
            col = col + 1;
        }
        append_str(&mut out, "\n");
        assert(out@ + ci_rows(rows@, i + 1, n as int, reveal_keys@) =~= before + ci_rows(
            rows@,
            i as int,
            n as int,
            reveal_keys@,
        ));
        i = i + 1;
    }
    assert(out@ =~= ci_text(rows@, file_names@, reveal_keys@));
    string_of(&out)
}

// ---------------------------------------------------------------------
// Table layout
// ---------------------------------------------------------------------

/// The number of rows with status `s`.
pub open spec fn count_status(rows: Seq<DiffRow>, s: KeyStatus) -> nat
    decreases rows.len(),
{
    if rows.len() == 0 {
        0
    } else {
        count_status(rows.drop_last(), s) + if rows.last().status == s {
            1nat
        } else {
            0nat
        }
    }
}

/// The number of rows with each status: missing, different, same.
pub fn summary_counts(rows: &[DiffRow]) -> (r: (usize, usize, usize))
    ensures
        r.0 == count_status(rows@, KeyStatus::Missing),
        r.1 == count_status(rows@, KeyStatus::Different),
        r.2 == count_status(rows@, KeyStatus::Same),
        r.0 + r.1 + r.2 == rows@.len(),
{
    let mut m: usize = 0;
    let mut d: usize = 0;
    let mut s: usize = 0;
    let mut i: usize = 0;
    assert(rows@.take(0) =~= Seq::<DiffRow>::empty());
    while i < rows.len()
        invariant
            i <= rows.len(),
            m == count_status(rows@.take(i as int), KeyStatus::Missing),
            d == count_status(rows@.take(i as int), KeyStatus::Different),
            s == count_status(rows@.take(i as int), KeyStatus::Same),
            m + d + s == i,
        decreases rows.len() - i,
    {
        assert(rows@.take(i + 1).drop_last() =~= rows@.take(i as int));
        match rows[i].status {
            KeyStatus::Missing => m = m + 1,
            KeyStatus::Different => d = d + 1,
            KeyStatus::Same => s = s + 1,
        }
        i = i + 1;
    }
    assert(rows@.take(rows.len() as int) =~= rows@);
    (m, d, s)
}

/// The larger of two numbers.
pub open spec fn max_nat(a: nat, b: nat) -> nat {
    if a >= b {
        a
    } else {
        b
    }
}

/// The widest key in bytes among rows `0..n`, at least 3.
pub open spec fn key_width_spec(rows: Seq<DiffRow>, n: int) -> nat
    decreases n,
{
    if n <= 0 || n > rows.len() {
        3
    } else {
        max_nat(key_width_spec(rows, n - 1), utf8(rows[n - 1].key@).len())
    }
}

/// The widest shown value of column `col` in bytes among rows `0..n`, at
/// least the file name's length and 4.
pub open spec fn value_width_spec(
    rows: Seq<DiffRow>,
    names: Seq<String>,
    col: int,
    n: int,
    reveal_keys: Seq<String>,
) -> nat
    decreases n,
{
    if n <= 0 || n > rows.len() {
        max_nat(utf8(names[col]@).len(), 4)
    } else {
        max_nat(
            value_width_spec(rows, names, col, n - 1, reveal_keys),
            utf8(display_spec(rows[n - 1], col, reveal_keys)).len(),
        )
    }
}

/// The widths of the table's columns in bytes: the key column and one
/// column per file.
pub fn column_widths(rows: &[DiffRow], file_names: &[String], reveal_keys: &[String]) -> (r: (
    usize,
    Vec<usize>,
))
    requires
        rows_showable(rows@, file_names@.len() as int, reveal_keys@),
    ensures
        r.0 == key_width_spec(rows@, rows@.len() as int),
        r.1@.len() == file_names@.len(),
        forall|c: int|
            0 <= c < file_names@.len() ==> r.1@[c] == value_width_spec(
                rows@,
                file_names@,
                c,
                rows@.len() as int,
                reveal_keys@,
            ),
{
    let mut kw: usize = 3;
    let mut i: usize = 0;
    while i < rows.len()
        invariant
            i <= rows.len(),
            kw == key_width_spec(rows@, i as int),
        decreases rows.len() - i,
    {
        let l = rows[i].key.as_str().as_bytes().len();
        if l > kw {
            kw = l;
        }
        i = i + 1;
    }
    let mut widths: Vec<usize> = Vec::new();
    let mut c: usize = 0;
    while c < file_names.len()
        invariant
            c <= file_names.len(),
            rows_showable(rows@, file_names@.len() as int, reveal_keys@),
            widths@.len() == c,
            forall|k: int|
                0 <= k < c ==> widths@[k] == value_width_spec(
                    rows@,
                    file_names@,
                    k,
                    rows@.len() as int,
                    reveal_keys@,
                ),
        decreases file_names.len() - c,
    {
        let hl = file_names[c].as_str().as_bytes().len();
        let mut w: usize = if hl > 4 {
            hl
        } else {
            4
        };
        let mut j: usize = 0;
        while j < rows.len()
            invariant
                j <= rows.len(),
                c < file_names@.len(),
                rows_showable(rows@, file_names@.len() as int, reveal_keys@),
                w == value_width_spec(rows@, file_names@, c as int, j as int, reveal_keys@),
            decreases rows.len() - j,
        {
            assert(rows@[j as int].values@.len() >= file_names@.len());
            let v = display_value(&rows[j], c, reveal_keys);
            let l = v.as_str().as_bytes().len();
            if l > w {
                w = l;
            }
            j = j + 1;
        }
        widths.push(w);
        c = c + 1;
    }
    (kw, widths)
}

// ---------------------------------------------------------------------
// Table text
// ---------------------------------------------------------------------

/// `t` followed by spaces up to `width` characters (as `{:<width$}` pads).
pub open spec fn padded(t: Seq<char>, width: nat) -> Seq<char> {
    if t.len() < width {
        t + Seq::new((width - t.len()) as nat, |i: int| ' ')
    } else {
        t
    }
}

/// `text` padded with spaces to `width` characters.
pub fn pad_right(text: &str, width: usize) -> (r: String)
    ensures
        r@ == padded(text@, width as nat),
{
    let mut out = chars_of(text);
    let ghost t = out@;
    while out.len() < width
        invariant
            t == text@,
            t.len() <= out@.len(),
            out@ == t + Seq::new((out@.len() - t.len()) as nat, |i: int| ' '),
            out@.len() <= width || out@.len() == t.len(),
        decreases width - out.len(),
    {
        let ghost before = out@;
        out.push(' ');
        assert(out@ =~= t + Seq::new((out@.len() - t.len()) as nat, |i: int| ' '));
    }
    proof {
        if t.len() < width {
            assert(out@.len() == width);
        } else {
            assert(out@ =~= t);
        }
    }
    assert(out@ =~= padded(text@, width as nat));
    string_of(&out)
}

/// The header cells after the key column: two spaces and each file name
/// padded to its column's width, from column `c` on.
pub open spec fn header_cells(names: Seq<String>, widths: Seq<usize>, c: int) -> Seq<char>
    decreases names.len() - c,
{
    if c < 0 || c >= names.len() {
        Seq::empty()
    } else {
        "  "@ + padded(names[c]@, widths[c] as nat) + header_cells(names, widths, c + 1)
    }
}

/// The header line of the table (without its line break).
pub open spec fn header_text(names: Seq<String>, key_width: nat, widths: Seq<usize>) -> Seq<char> {
    "  "@ + padded("KEY"@, key_width) + header_cells(names, widths, 0)
}

/// The header line of the table: `KEY` and the file names, each padded
/// to its column's width.
pub fn table_header(file_names: &[String], key_width: usize, widths: &[usize]) -> (r: String)
    requires
        widths@.len() >= file_names@.len(),
    ensures
        r@ == header_text(file_names@, key_width as nat, widths@),
{
    let mut out: Vec<char> = Vec::new();
    append_str(&mut out, "  ");
    let k = pad_right("KEY", key_width);
    append_chars(&mut out, &chars_of(k.as_str()));
    let ghost head = out@;
    let mut c: usize = 0;
    while c < file_names.len()
        invariant
            c <= file_names.len(),
            widths@.len() >= file_names@.len(),
            out@ + header_cells(file_names@, widths@, c as int) == head + header_cells(
                file_names@,
                widths@,
                0,
            ),
        decreases file_names.len() - c,
    {
        let ghost before = out@;
        append_str(&mut out, "  ");
        let cell = pad_right(file_names[c].as_str(), widths[c]);
        append_chars(&mut out, &chars_of(cell.as_str()));
        assert(out@ + header_cells(file_names@, widths@, c + 1) =~= before + header_cells(
            file_names@,
            widths@,
            c as int,
        ));
        c = c + 1;
    }
    assert(out@ =~= header_text(file_names@, key_width as nat, widths@));
    string_of(&out)
}

/// The sum of the widths of columns `0..n`, two more each.
pub open spec fn columns_total(widths: Seq<usize>, n: int) -> nat
    decreases n,
{
    if n <= 0 || n > widths.len() {
        0
    } else {
        columns_total(widths, n - 1) + widths[n - 1] as nat + 2
    }
}

/// The width of the separator line below the header.
pub open spec fn separator_spec(key_width: nat, widths: Seq<usize>) -> nat {
    2 + key_width + columns_total(widths, widths.len() as int)
}

proof fn lemma_columns_total_mono(widths: Seq<usize>, m: int, n: int)
    requires
        0 <= m <= n <= widths.len(),
    ensures
        columns_total(widths, m) <= columns_total(widths, n),
    decreases n - m,
{
    if m < n {
        lemma_columns_total_mono(widths, m, n - 1);
    }
}

/// The width of the separator line: the key column and each file column
/// with the two spaces before each.
pub fn separator_width(key_width: usize, widths: &[usize]) -> (r: usize)
    requires
        separator_spec(key_width as nat, widths@) <= usize::MAX,
    ensures
        r == separator_spec(key_width as nat, widths@),
{
    let mut total: usize = 2 + key_width;
    let mut i: usize = 0;
    while i < widths.len()
        invariant
            i <= widths.len(),
            total == 2 + key_width + columns_total(widths@, i as int),
            separator_spec(key_width as nat, widths@) <= usize::MAX,
        decreases widths.len() - i,
    {
        proof {
            lemma_columns_total_mono(widths@, i + 1, widths@.len() as int);
        }
        total = total + widths[i] + 2;
        i = i + 1;
    }
    total
}

/// The summary lines below the table: the missing and different counts
/// when they are not zero, and the same count.
pub open spec fn summary_spec(rows: Seq<DiffRow>) -> (Option<Seq<char>>, Option<Seq<char>>, Seq<char>) {
    let m = count_status(rows, KeyStatus::Missing);
    let d = count_status(rows, KeyStatus::Different);
    let s = count_status(rows, KeyStatus::Same);
    (
        if m > 0 {
            Some("  "@ + decimal(m) + " missing"@)
        } else {
            None
        },
        if d > 0 {
            Some("  "@ + decimal(d) + " different"@)
        } else {
            None
        },
        "  "@ + decimal(s) + " same"@,
    )
}

fn count_line(n: usize, word: &str) -> (r: String)
    ensures
        r@ == "  "@ + decimal(n as nat) + word@,
{
    let mut out: Vec<char> = Vec::new();
    append_str(&mut out, "  ");
    let digits = decimal_chars(n as u64);
    append_chars(&mut out, &digits);
    append_str(&mut out, word);
    string_of(&out)
}

/// The summary lines below the table.
pub fn summary_lines(rows: &[DiffRow]) -> (r: (Option<String>, Option<String>, String))
    ensures
        (
            match r.0 {
                Some(t) => Some(t@),
                None => None,
            },
            match r.1 {
                Some(t) => Some(t@),
                None => None,
            },
            r.2@,
        ) == summary_spec(rows@),
{
    let (m, d, s) = summary_counts(rows);
    let missing = if m > 0 {
        Some(count_line(m, " missing"))
    } else {
        None
    };
    let different = if d > 0 {
        Some(count_line(d, " different"))
    } else {
        None
    };
    (missing, different, count_line(s, " same"))
}

} // verus!
