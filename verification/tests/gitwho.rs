use devkit::git_log::{
    aggregate, is_earlier, normalize_since, parse_git_log, parse_git_log_with,
    CommitInfo, FileStat,
    Timestamp,
};

const NOW: Timestamp = Timestamp { secs: 1_700_000_000, nanos: 7 };

const LOG: &str = "stray line before any commit
commit abc123
author Alice
email alice@example.com
date 2024-01-15T10:30:00+02:00

10\t2\tsrc/main.rs
-\t-\timage.png
3\t0\tREADME.md
commit   def456  
author Bob
email bob@example.com
date not-a-date

5\t5\tsrc/lib.rs
+4\t1\tsrc/plus.rs
3\tx\tsrc/odd.rs
1\t2
commit 999
email x@y
date 2024-01-15T10:30:00Z
commit 1000
author Carol
commit 1001
author Dave
date 2023-06-01T12:00:00.5Z
";

fn stat(path: &str, added: u64, removed: u64) -> FileStat {
    FileStat { path: path.to_string(), added, removed }
}

fn commit(author: &str, email: &str, secs: i64, stats: Vec<FileStat>) -> CommitInfo {
    CommitInfo {
        hash: format!("h{}", secs),
        author: author.to_string(),
        email: email.to_string(),
        date: Timestamp { secs, nanos: 0 },
        file_stats: stats,
    }
}

fn stats_of(c: &CommitInfo) -> Vec<(String, u64, u64)> {
    c.file_stats.iter().map(|f| (f.path.clone(), f.added, f.removed)).collect()
}

#[test]
fn parse_log_commits() {
    let commits = parse_git_log(LOG, NOW);
    assert_eq!(commits.len(), 3);

    let a = &commits[0];
    assert_eq!(a.hash, "abc123");
    assert_eq!(a.author, "Alice");
    assert_eq!(a.email, "alice@example.com");
    assert_eq!(a.date, Timestamp { secs: 1_705_307_400, nanos: 0 });
    assert_eq!(
        stats_of(a),
        vec![
            ("src/main.rs".to_string(), 10, 2),
            ("README.md".to_string(), 3, 0),
        ]
    );

    let b = &commits[1];
    assert_eq!(b.hash, "def456");
    assert_eq!(b.author, "Bob");
    // A date that does not parse is taken to be now; a line whose counts
    // are not numbers (binary files) is skipped.
    assert_eq!(b.date, NOW);
    assert_eq!(
        stats_of(b),
        vec![("src/lib.rs".to_string(), 5, 5), ("src/plus.rs".to_string(), 4, 1)]
    );

    // A commit without email gets an empty one; commits without author or
    // date are dropped.
    let d = &commits[2];
    assert_eq!(d.hash, "1001");
    assert_eq!(d.author, "Dave");
    assert_eq!(d.email, "");
    assert_eq!(d.date, Timestamp { secs: 1_685_620_800, nanos: 500_000_000 });
}

#[test]
fn parse_log_empty_and_without_commits() {
    assert!(parse_git_log("", NOW).is_empty());
    assert!(parse_git_log("author Alice\n10\t2\tf\n", NOW).is_empty());
}

#[test]
fn rfc3339_offsets_move_to_utc() {
    let raw = "commit 1\nauthor A\ndate 1970-01-01T01:00:00+01:00\ncommit 2\nauthor B\ndate 1970-01-01T00:00:01-00:30\n";
    let commits = parse_git_log(raw, NOW);
    assert_eq!(commits[0].date, Timestamp { secs: 0, nanos: 0 });
    assert_eq!(commits[1].date, Timestamp { secs: 1801, nanos: 0 });
}

#[test]
fn aggregate_per_author_in_first_seen_order() {
    let commits = vec![
        commit("Alice", "alice@a", 100, vec![stat("a", 10, 2), stat("b", 3, 0)]),
        commit("Bob", "bob@b", 200, vec![stat("c", 5, 5)]),
        commit("Alice", "alice@other", 50, vec![stat("d", 1, 1)]),
        commit("Alice", "alice@a", 150, vec![]),
    ];
    let stats = aggregate(&commits);
    assert_eq!(stats.len(), 2);
    let a = &stats[0];
    assert_eq!(a.author, "Alice");
    assert_eq!(a.email, "alice@a");
    assert_eq!(a.commits, 3);
    assert_eq!(a.lines_added, 14);
    assert_eq!(a.lines_removed, 3);
    assert_eq!(a.last_commit, Timestamp { secs: 150, nanos: 0 });
    let recs: Vec<(i64, u64)> = a.commit_records.iter().map(|r| (r.date.secs, r.lines_changed)).collect();
    assert_eq!(recs, vec![(100, 15), (50, 2), (150, 0)]);
    let b = &stats[1];
    assert_eq!((b.author.as_str(), b.commits, b.lines_added, b.lines_removed), ("Bob", 1, 5, 5));
    assert_eq!(b.last_commit.secs, 200);
}

#[test]
fn aggregate_counts_every_commit() {
    let commits: Vec<CommitInfo> =
        (0..10i64).map(|i| commit(["x", "y", "z"][(i % 3) as usize], "", i, vec![stat("f", 1, 0)])).collect();
    let stats = aggregate(&commits);
    let total: u64 = stats.iter().map(|s| s.commits).sum();
    assert_eq!(total, 10);
    assert!(aggregate(&[]).is_empty());
}

#[test]
fn timestamps_compare() {
    let a = Timestamp { secs: 5, nanos: 10 };
    assert!(is_earlier(a, Timestamp { secs: 5, nanos: 11 }));
    assert!(is_earlier(a, Timestamp { secs: 6, nanos: 0 }));
    assert!(!is_earlier(a, a));
    assert!(!is_earlier(a, Timestamp { secs: -1, nanos: 999 }));
}

#[test]
fn since_shorthands() {
    assert_eq!(normalize_since("6m"), "6 months ago");
    assert_eq!(normalize_since("90d"), "90 days ago");
    assert_eq!(normalize_since("3w"), "3 weeks ago");
    assert_eq!(normalize_since("1y"), "1 years ago");
    assert_eq!(normalize_since("  12m \n"), "12 months ago");
    assert_eq!(normalize_since("007d"), "7 days ago");
}

#[test]
fn since_passes_other_values_through() {
    assert_eq!(normalize_since("2024-01-01"), "2024-01-01");
    assert_eq!(normalize_since(" 2 weeks ago "), "2 weeks ago");
    assert_eq!(normalize_since("6x"), "6x");
    assert_eq!(normalize_since("m"), "m");
    assert_eq!(normalize_since("yesterday"), "yesterday");
    assert_eq!(normalize_since(""), "");
    assert_eq!(normalize_since("99999999999999999999d"), "99999999999999999999d");
}

#[test]
fn parse_log_with_given_dates() {
    let raw = "commit a\nauthor A\ndate whatever\n1\t1\tf\ncommit b\nauthor B\ndate x\n";
    let d1 = Timestamp { secs: 42, nanos: 1 };
    // Line 2 is the first date line, line 6 the second.
    let dates = vec![None, None, Some(d1), None, None, None, None];
    let commits = parse_git_log_with(raw, &dates, NOW);
    assert_eq!(commits.len(), 2);
    assert_eq!(commits[0].date, d1);
    assert_eq!(commits[1].date, NOW);
    // Dates past the end of the list count as not parsed.
    let commits = parse_git_log_with(raw, &[], NOW);
    assert_eq!(commits[0].date, NOW);
    // A date given for a line that is no date line is not used.
    let commits = parse_git_log_with("commit a\nauthor A\n", &[None, Some(d1)], NOW);
    assert!(commits.is_empty());
}

#[test]
fn since_non_ascii_unit_passes_through() {
    assert_eq!(normalize_since("6\u{e9}"), "6\u{e9}");
    assert_eq!(normalize_since(" \u{e9} "), "\u{e9}");
}

#[test]
fn binary_numstat_lines_skipped() {
    let raw = "commit abc\nauthor A\ndate 2024-01-02T03:04:05+00:00\n-\t-\tlogo.png\n3\t1\ta.rs\n";
    let commits = parse_git_log(raw, NOW);
    assert_eq!(commits.len(), 1);
    assert_eq!(commits[0].email, "");
    assert_eq!(stats_of(&commits[0]), vec![("a.rs".to_string(), 3, 1)]);
}

#[test]
fn aggregate_large_added_and_removed_sums() {
    let half = 1u64 << 63;
    let commits = vec![
        commit("A", "a@x", 1, vec![stat("f", half, 0)]),
        commit("A", "a@x", 2, vec![stat("g", 0, half)]),
    ];
    let stats = aggregate(&commits);
    assert_eq!(stats.len(), 1);
    assert_eq!((stats[0].lines_added, stats[0].lines_removed), (half, half));
    let recs: Vec<u64> = stats[0].commit_records.iter().map(|r| r.lines_changed).collect();
    assert_eq!(recs, vec![half, half]);
}
