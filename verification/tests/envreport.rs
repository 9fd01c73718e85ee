use devkit::env::EnvMap;
use devkit::env_diff::{diff_envs, DiffRow, KeyStatus};
use devkit::env_report::{
    column_widths, display_value, format_ci, is_revealed, pad_right, separator_width, summary_counts,
    summary_lines, table_header,
};

const MASK: &str = "\u{25CF}\u{25CF}\u{25CF}\u{25CF}";

fn map_of(pairs: &[(&str, &str)]) -> EnvMap {
    let mut m = EnvMap::new();
    for (k, v) in pairs {
        m.insert(k, v);
    }
    m
}

fn keys(v: &[&str]) -> Vec<String> {
    v.iter().map(|s| s.to_string()).collect()
}

fn sample_rows() -> Vec<DiffRow> {
    let a = map_of(&[("KEY1", "val1"), ("KEY2", "val2")]);
    let b = map_of(&[("KEY1", "val1"), ("KEY3", "val3")]);
    diff_envs(&[a, b])
}

fn row(key: &str, values: Vec<Option<&str>>) -> DiffRow {
    DiffRow {
        key: key.to_string(),
        status: KeyStatus::Different,
        values: values.into_iter().map(|v| v.map(|s| s.to_string())).collect(),
    }
}

#[test]
fn values_masked_unless_revealed() {
    let r = row("SECRET", vec![Some("hunter2"), None]);
    assert_eq!(display_value(&r, 0, &[]), MASK);
    assert_eq!(display_value(&r, 1, &[]), "(missing)");
    let reveal = keys(&["OTHER", "SECRET"]);
    assert_eq!(display_value(&r, 0, &reveal), "hunter2");
    assert_eq!(display_value(&r, 1, &reveal), "(missing)");
}

#[test]
fn long_revealed_values_cut_at_47_bytes() {
    let long = "x".repeat(60);
    let r = row("K", vec![Some(long.as_str())]);
    let shown = display_value(&r, 0, &keys(&["K"]));
    assert_eq!(shown, format!("{}...", "x".repeat(47)));
    let fifty = "y".repeat(50);
    let r = row("K", vec![Some(fifty.as_str())]);
    assert_eq!(display_value(&r, 0, &keys(&["K"])), fifty);
}

#[test]
fn long_values_measured_in_bytes() {
    // 1 + 2 * 30 = 61 bytes; byte 47 ends the 23rd two-byte character.
    let v = format!("a{}", "\u{e9}".repeat(30));
    let r = row("K", vec![Some(v.as_str())]);
    assert_eq!(display_value(&r, 0, &keys(&["K"])), format!("a{}...", "\u{e9}".repeat(23)));
}

#[test]
fn revealed_keys_match_exactly() {
    let reveal = keys(&["DB", "API_KEY"]);
    assert!(is_revealed(&reveal, &"DB".to_string()));
    assert!(!is_revealed(&reveal, &"db".to_string()));
    assert!(!is_revealed(&[], &"DB".to_string()));
}

#[test]
fn ci_output() {
    let rows = sample_rows();
    let names = keys(&[".env", ".env.prod"]);
    let out = format_ci(&rows, &names, &keys(&["KEY2"]));
    let expected = format!(
        "STATUS\tKEY\t.env\t.env.prod\nMISSING\tKEY2\tval2\t(missing)\nMISSING\tKEY3\t(missing)\t{m}\nSAME\tKEY1\t{m}\t{m}\n",
        m = MASK
    );
    assert_eq!(out, expected);
}

#[test]
fn ci_output_without_rows() {
    assert_eq!(format_ci(&[], &keys(&["a", "b"]), &[]), "STATUS\tKEY\ta\tb\n");
}

#[test]
fn ci_status_words() {
    let a = map_of(&[("A", "1"), ("B", "x")]);
    let b = map_of(&[("A", "1"), ("B", "y")]);
    let rows = diff_envs(&[a, b]);
    let out = format_ci(&rows, &keys(&["a", "b"]), &keys(&["A", "B"]));
    assert_eq!(out, "STATUS\tKEY\ta\tb\nDIFF\tB\tx\ty\nSAME\tA\t1\t1\n");
}

#[test]
fn summary() {
    assert_eq!(summary_counts(&sample_rows()), (2, 0, 1));
    assert_eq!(summary_counts(&[]), (0, 0, 0));
}

#[test]
fn widths_count_bytes() {
    let rows = sample_rows();
    let names = keys(&[".env", ".env.prod"]);
    // The mask is four three-byte characters.
    let (kw, vw) = column_widths(&rows, &names, &[]);
    assert_eq!(kw, 4);
    assert_eq!(vw, vec![12, 12]);
    let (kw, vw) = column_widths(&rows, &names, &keys(&["KEY1", "KEY2", "KEY3"]));
    assert_eq!(kw, 4);
    assert_eq!(vw, vec![9, 9]);
}

#[test]
fn widths_have_minimums() {
    let (kw, vw) = column_widths(&[], &keys(&["a", "a-much-longer-name"]), &[]);
    assert_eq!(kw, 3);
    assert_eq!(vw, vec![4, 18]);
}

#[test]
fn long_values_cut_at_a_character_boundary() {
    // 60 bytes of two-byte characters: byte 47 is inside a character, so
    // the cut falls at byte 46.
    let v = "\u{e9}".repeat(30);
    let r = row("K", vec![Some(v.as_str())]);
    assert_eq!(display_value(&r, 0, &keys(&["K"])), format!("{}...", "\u{e9}".repeat(23)));
    // Three-byte characters: the last boundary at or before 47 is 45.
    let w = "\u{25CF}".repeat(20);
    let r = row("K", vec![Some(w.as_str())]);
    assert_eq!(display_value(&r, 0, &keys(&["K"])), format!("{}...", "\u{25CF}".repeat(15)));
}

#[test]
fn table_text() {
    assert_eq!(pad_right("ab", 4), "ab  ");
    assert_eq!(pad_right("abcdef", 4), "abcdef");
    assert_eq!(pad_right("\u{e9}", 3), "\u{e9}  ");
    let names = keys(&[".env", ".env.prod"]);
    assert_eq!(table_header(&names, 4, &[12, 12]), "  KEY   .env          .env.prod   ");
    assert_eq!(separator_width(4, &[12, 12]), 34);
    assert_eq!(
        summary_lines(&sample_rows()),
        (Some("  2 missing".to_string()), None, "  1 same".to_string())
    );
}
