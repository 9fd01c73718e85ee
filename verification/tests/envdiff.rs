use devkit::env::{
    alphanumeric_flags, find_unescaped_quote, interpolate, interpolate_with, parse_env_content,
    parse_value, unescape_double_quoted, EnvMap,
};
use devkit::env_diff::{diff_envs, has_differences, KeyStatus};

fn map_of(pairs: &[(&str, &str)]) -> EnvMap {
    let mut m = EnvMap::new();
    for (k, v) in pairs {
        m.insert(k, v);
    }
    m
}

#[test]
fn test_basic_diff() {
    let a = map_of(&[("KEY1", "val1"), ("KEY2", "val2")]);
    let b = map_of(&[("KEY1", "val1"), ("KEY3", "val3")]);
    let rows = diff_envs(&[a, b]);
    // KEY2 missing from b, KEY3 missing from a => Missing
    // KEY1 same in both => Same
    assert_eq!(rows.len(), 3);
    assert_eq!(rows[0].status, KeyStatus::Missing); // KEY2 or KEY3
}

#[test]
fn test_different_values() {
    let a = map_of(&[("DB", "localhost")]);
    let b = map_of(&[("DB", "prod-db.example.com")]);
    let rows = diff_envs(&[a, b]);
    assert_eq!(rows[0].status, KeyStatus::Different);
}

#[test]
fn test_three_files() {
    let a = map_of(&[("A", "1")]);
    let b = map_of(&[("A", "1"), ("B", "2")]);
    let c = map_of(&[("A", "1")]);
    let rows = diff_envs(&[a, b, c]);
    assert_eq!(rows.len(), 2);
}

#[test]
fn test_basic_parsing() {
    let content = r#"
# comment
KEY1=value1
KEY2="value with spaces"
KEY3='single quoted'
export KEY4=exported
EMPTY=
"#;
    let map = parse_env_content(content);
    assert_eq!(map.get("KEY1").unwrap(), "value1");
    assert_eq!(map.get("KEY2").unwrap(), "value with spaces");
    assert_eq!(map.get("KEY3").unwrap(), "single quoted");
    assert_eq!(map.get("KEY4").unwrap(), "exported");
    assert_eq!(map.get("EMPTY").unwrap(), "");
}

#[test]
fn test_multiline() {
    let content = "KEY=\"line1\nline2\nline3\"";
    let map = parse_env_content(content);
    assert_eq!(map.get("KEY").unwrap(), "line1\nline2\nline3");
}

#[test]
fn test_interpolation() {
    let content = "HOST=localhost\nURL=http://$HOST:8080\nFULL=${URL}/api";
    let map = parse_env_content(content);
    assert_eq!(map.get("URL").unwrap(), "http://localhost:8080");
    assert_eq!(map.get("FULL").unwrap(), "http://localhost:8080/api");
}

#[test]
fn test_inline_comment() {
    let content = "KEY=value # this is a comment";
    let map = parse_env_content(content);
    assert_eq!(map.get("KEY").unwrap(), "value");
}

#[test]
fn test_escape_sequences() {
    let content = r#"KEY="hello\nworld""#;
    let map = parse_env_content(content);
    assert_eq!(map.get("KEY").unwrap(), "hello\nworld");
}

// ----- further cases -----

#[test]
fn diff_rows_sorted_by_status_then_key() {
    let a = map_of(&[("Z", "1"), ("M", "x"), ("A", "same"), ("Q", "q")]);
    let b = map_of(&[("Z", "1"), ("M", "y"), ("A", "same")]);
    let rows = diff_envs(&[a, b]);
    let keys: Vec<&str> = rows.iter().map(|r| r.key.as_str()).collect();
    assert_eq!(keys, vec!["Q", "M", "A", "Z"]);
    assert_eq!(rows[0].status, KeyStatus::Missing);
    assert_eq!(rows[0].values, vec![Some("q".to_string()), None]);
    assert_eq!(rows[1].status, KeyStatus::Different);
    assert_eq!(rows[2].status, KeyStatus::Same);
    assert!(has_differences(&rows));
}

#[test]
fn identical_maps_have_no_differences() {
    let a = map_of(&[("K", "v"), ("L", "w")]);
    let b = map_of(&[("L", "w"), ("K", "v")]);
    let rows = diff_envs(&[a, b]);
    assert_eq!(rows.len(), 2);
    assert!(!has_differences(&rows));
}

#[test]
fn map_insert_replaces_value() {
    let mut m = EnvMap::new();
    m.insert("K", "1");
    m.insert("J", "2");
    m.insert("K", "3");
    assert_eq!(m.len(), 2);
    assert_eq!(m.get("K").unwrap(), "3");
    assert_eq!(m.get("J").unwrap(), "2");
    assert!(m.get("X").is_none());
}

#[test]
fn parse_single_quotes_keep_escapes_and_dollars() {
    let map = parse_env_content("A=x\nB='raw\\n$A'\nC=\"esc\\t$A\"");
    // interpolation runs on every value, quoted or not
    assert_eq!(map.get("B").unwrap(), "raw\\nx");
    assert_eq!(map.get("C").unwrap(), "esc\tx");
}

#[test]
fn parse_unclosed_quote_takes_rest_of_file() {
    let map = parse_env_content("A=\"one\ntwo\nB=3");
    assert_eq!(map.get("A").unwrap(), "one\ntwo\nB=3");
    assert!(map.get("B").is_none());
}

#[test]
fn parse_skips_lines_without_equals_and_comments() {
    let map = parse_env_content("  # c\nnoequals\n\r\nK = v \r\n");
    assert_eq!(map.len(), 1);
    assert_eq!(map.get("K").unwrap(), "v");
}

#[test]
fn interpolation_of_undefined_and_unclosed_brace() {
    let map = parse_env_content("A=$NOPE-x\nB=${A\nC=$");
    assert_eq!(map.get("A").unwrap(), "-x");
    assert_eq!(map.get("B").unwrap(), "${A");
    assert_eq!(map.get("C").unwrap(), "$");
}

#[test]
fn escape_unknown_and_trailing_backslash() {
    let map = parse_env_content("A=\"a\\qb\\\\\"\nB=\"x\\");
    assert_eq!(map.get("A").unwrap(), "a\\qb\\");
    assert_eq!(map.get("B").unwrap(), "x\\");
}

#[test]
fn later_definition_wins() {
    let map = parse_env_content("A=1\nA=2");
    assert_eq!(map.get("A").unwrap(), "2");
}

#[test]
fn interpolation_names_use_unicode_letters() {
    let map = parse_env_content("\u{c9}T\u{c9}=chaud\nX=$\u{c9}T\u{c9}!\nY=$_a1b.c");
    assert_eq!(map.get("X").unwrap(), "chaud!");
    // `_a1b` is undefined: it is dropped, the rest stays.
    assert_eq!(map.get("Y").unwrap(), ".c");
}

#[test]
fn interpolation_uses_values_in_definition_order() {
    // B is interpolated after A and sees A's final value; A sees B's raw value.
    let map = parse_env_content("A=$B\nB=b$C\nC=c");
    assert_eq!(map.get("A").unwrap(), "b$C");
    assert_eq!(map.get("B").unwrap(), "bc");
}

#[test]
fn quote_search_skips_escapes() {
    let s: Vec<char> = "ab\\\"c\"d".chars().collect();
    assert_eq!(find_unescaped_quote(&s, '"'), Some(5));
    let t: Vec<char> = "no quote".chars().collect();
    assert_eq!(find_unescaped_quote(&t, '"'), None);
    let u: Vec<char> = "\u{e9}'x".chars().collect();
    assert_eq!(find_unescaped_quote(&u, '\''), Some(1));
}

#[test]
fn unescape_known_sequences() {
    let s: Vec<char> = "a\\nb\\tc\\rd\\\"e\\\\f\\zg\\".chars().collect();
    let out: String = unescape_double_quoted(&s).into_iter().collect();
    assert_eq!(out, "a\nb\tc\rd\"e\\f\\zg\\");
}

#[test]
fn parse_value_counts_lines() {
    let lines: Vec<Vec<char>> = ["K=\"a", "b", "c\" tail", "next"].iter().map(|l| l.chars().collect()).collect();
    let raw: Vec<char> = "\"a".chars().collect();
    let (v, n) = parse_value(&raw, &lines, 0);
    assert_eq!(v.into_iter().collect::<String>(), "a\nb\nc");
    assert_eq!(n, 3);
    let raw: Vec<char> = "plain # note".chars().collect();
    let (v, n) = parse_value(&raw, &lines, 0);
    assert_eq!(v.into_iter().collect::<String>(), "plain");
    assert_eq!(n, 1);
    let (v, n) = parse_value(&[], &lines, 0);
    assert!(v.is_empty());
    assert_eq!(n, 1);
}

#[test]
fn interpolation_with_given_flags() {
    let mut vars = EnvMap::new();
    vars.insert("AB", "x");
    vars.insert("A", "y");
    let v: Vec<char> = "$AB-$A".chars().collect();
    // All letters alphanumeric: `$AB` is one name.
    let out: String = interpolate_with(&v, &[false, true, true, false, false, true], &vars).into_iter().collect();
    assert_eq!(out, "x-y");
    // `B` not alphanumeric: the name stops after `A`.
    let out: String = interpolate_with(&v, &[false, true, false, false, false, true], &vars).into_iter().collect();
    assert_eq!(out, "yB-y");
    // No flags: no `$NAME` reference at all.
    let out: String = interpolate_with(&v, &[], &vars).into_iter().collect();
    assert_eq!(out, "$AB-$A");
    let w: Vec<char> = "${AB}".chars().collect();
    let out: String = interpolate_with(&w, &[], &vars).into_iter().collect();
    assert_eq!(out, "x");
}

#[test]
fn interpolation_uses_std_alphanumerics() {
    let v: Vec<char> = "a1\u{e9}_-\u{2460} ".chars().collect();
    assert_eq!(alphanumeric_flags(&v), vec![true, true, true, false, false, true, false]);
    let mut vars = EnvMap::new();
    vars.insert("n\u{e9}", "ok");
    let w: Vec<char> = "$n\u{e9}!".chars().collect();
    let out: String = interpolate(&w, &vars).into_iter().collect();
    assert_eq!(out, "ok!");
}

#[test]
fn text_without_escapes_or_references_is_kept() {
    let s: Vec<char> = "plain text, no escapes".chars().collect();
    assert_eq!(unescape_double_quoted(&s), s);
    let map = EnvMap::new();
    assert_eq!(interpolate(&s, &map), s);
}
