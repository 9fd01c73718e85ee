//! Git history: the text of `git log --numstat` parsed into commits, and
//! commits aggregated per author.
use vstd::prelude::*;

use crate::text::{
    append_str, chars_of, decimal, decimal_chars, lines_of, occurs_at, occurs_at_exec, parse_unsigned, parse_unsigned_exec,
    slice_chars, split_lines, split_on, split_on_char, string_of, trim, trim_end, trimmed,
    trimmed_end, views,
};

verus! {

// ---------------------------------------------------------------------
// Time
// ---------------------------------------------------------------------

/// An instant in UTC: seconds since the Unix epoch and nanoseconds within
/// the second (beyond 999,999,999 only during a leap second).
#[derive(Debug, Clone, Copy, PartialEq, Eq, Structural)]
pub struct Timestamp {
    pub secs: i64,
    pub nanos: u32,
}

/// Whether `a` is earlier than `b`.
pub open spec fn earlier(a: Timestamp, b: Timestamp) -> bool {
    a.secs < b.secs || (a.secs == b.secs && a.nanos < b.nanos)
}

/// Whether `a` is earlier than `b`.
pub fn is_earlier(a: Timestamp, b: Timestamp) -> (r: bool)
    ensures
        r == earlier(a, b),
{
    a.secs < b.secs || (a.secs == b.secs && a.nanos < b.nanos)
}

/// What chrono's `DateTime::parse_from_rfc3339` gives for a text, as the
/// UTC seconds and nanoseconds of the instant (`None` when it refuses the
/// text).
pub uninterp spec fn rfc3339_instant(text: Seq<char>) -> Option<(i64, u32)>;

/// chrono's `DateTime::parse_from_rfc3339`, with the result moved to UTC
/// and taken apart into `timestamp()` and `timestamp_subsec_nanos()`.
/// Trusted: the result is a function of the text alone; which texts chrono
/// accepts, and what instant it reads, is left unsaid here.
#[verifier::external_body]
fn parse_rfc3339(text: &str) -> (r: Option<Timestamp>)
    ensures
        match r {
            Some(t) => rfc3339_instant(text@) == Some((t.secs, t.nanos)),
            None => rfc3339_instant(text@) is None,
        },
{
    match chrono::DateTime::parse_from_rfc3339(text) {
        Ok(d) => {
            let u = d.with_timezone(&chrono::Utc);
            Some(Timestamp { secs: u.timestamp(), nanos: u.timestamp_subsec_nanos() })
        },
        Err(_) => None,
    }
}

// ---------------------------------------------------------------------
// Commits
// ---------------------------------------------------------------------

/// Lines added and removed in one file by one commit.
#[derive(Debug, Clone)]
pub struct FileStat {
    pub path: String,
    pub added: u64,
    pub removed: u64,
}

/// A single parsed commit with its per-file stats.
#[derive(Debug, Clone)]
pub struct CommitInfo {
    pub hash: String,
    pub author: String,
    pub email: String,
    pub date: Timestamp,
    pub file_stats: Vec<FileStat>,
}

/// A file stat as plain values: path, lines added, lines removed.
pub type FileStatModel = (Seq<char>, u64, u64);

/// A commit as plain values: hash, author, email, date, file stats.
pub type CommitModel = (Seq<char>, Seq<char>, Seq<char>, Timestamp, Seq<FileStatModel>);

impl FileStat {
    pub open spec fn model(&self) -> FileStatModel {
        (self.path@, self.added, self.removed)
    }
}

/// The models of a list of file stats.
pub open spec fn stats_model(v: Seq<FileStat>) -> Seq<FileStatModel> {
    v.map_values(|f: FileStat| f.model())
}

impl CommitInfo {
    pub open spec fn model(&self) -> CommitModel {
        (self.hash@, self.author@, self.email@, self.date, stats_model(self.file_stats@))
    }
}

/// The models of a list of commits.
pub open spec fn commits_model(v: Seq<CommitInfo>) -> Seq<CommitModel> {
    v.map_values(|c: CommitInfo| c.model())
}

/// A commit being read: hash, author, email, date, file stats so far.
pub type BuilderModel = (
    Seq<char>,
    Option<Seq<char>>,
    Option<Seq<char>>,
    Option<Timestamp>,
    Seq<FileStatModel>,
);

/// The commit a builder makes: none without an author or a date; the email
/// defaults to empty.
pub open spec fn build(b: BuilderModel) -> Option<CommitModel> {
    match (b.1, b.3) {
        (Some(author), Some(date)) => Some(
            (
                b.0,
                author,
                match b.2 {
                    Some(e) => e,
                    None => Seq::empty(),
                },
                date,
                b.4,
            ),
        ),
        _ => None,
    }
}

/// `commits` with the builder's commit (if any) added.
pub open spec fn flush(commits: Seq<CommitModel>, current: Option<BuilderModel>) -> Seq<
    CommitModel,
> {
    match current {
        Some(b) => match build(b) {
            Some(c) => commits.push(c),
            None => commits,
        },
        None => commits,
    }
}

/// The file stat of a `--numstat` line (`ADDED\tREMOVED\tFILE`): the line
/// has exactly three tab-separated fields and both counts are numbers
/// (binary files show `-` for them and are skipped).
pub open spec fn numstat_of(line: Seq<char>) -> Option<FileStatModel> {
    let parts = split_on(line, '\t');
    if parts.len() == 3 {
        match (
            parse_unsigned(parts[0], 18446744073709551615),
            parse_unsigned(parts[1], 18446744073709551615),
        ) {
            (Ok(a), Ok(r)) => Some((parts[2], a as u64, r as u64)),
            _ => None,
        }
    } else {
        None
    }
}

/// The instant a date line's text gives, if it parses.
pub open spec fn date_of(l: Seq<char>) -> Option<Timestamp> {
    match rfc3339_instant(trim(l.skip(5))) {
        Some((s, n)) => Some(Timestamp { secs: s, nanos: n }),
        None => None,
    }
}

/// The state after one line (already without trailing whitespace); `d` is
/// what the line's date parsed to, and `now` stands for dates that did not
/// parse.
pub open spec fn log_step(
    commits: Seq<CommitModel>,
    current: Option<BuilderModel>,
    l: Seq<char>,
    d: Option<Timestamp>,
    now: Timestamp,
) -> (Seq<CommitModel>, Option<BuilderModel>) {
    if occurs_at(l, "commit "@, 0) {
        (flush(commits, current), Some((trim(l.skip(7)), None, None, None, Seq::empty())))
    } else {
        match current {
            None => (commits, current),
            Some(b) => if occurs_at(l, "author "@, 0) {
                (commits, Some((b.0, Some(l.skip(7)), b.2, b.3, b.4)))
            } else if occurs_at(l, "email "@, 0) {
                (commits, Some((b.0, b.1, Some(l.skip(6)), b.3, b.4)))
            } else if occurs_at(l, "date "@, 0) {
                let t = match d {
                    Some(t) => t,
                    None => now,
                };
                (commits, Some((b.0, b.1, b.2, Some(t), b.4)))
            } else if l.len() > 0 {
                match numstat_of(l) {
                    Some(f) => (commits, Some((b.0, b.1, b.2, b.3, b.4.push(f)))),
                    None => (commits, current),
                }
            } else {
                (commits, current)
            },
        }
    }
}

/// The commits of lines `i..`, from the given state; `dates[k]` is what
/// the date of line `k` parsed to (none past the end of `dates`).
pub open spec fn log_from(
    lines: Seq<Seq<char>>,
    i: int,
    commits: Seq<CommitModel>,
    current: Option<BuilderModel>,
    dates: Seq<Option<Timestamp>>,
    now: Timestamp,
) -> Seq<CommitModel>
    decreases lines.len() - i,
{
    if i < 0 || i >= lines.len() {
        flush(commits, current)
    } else {
        let d = if i < dates.len() {
            dates[i]
        } else {
            None
        };
        let (c2, b2) = log_step(commits, current, trim_end(lines[i]), d, now);
        log_from(lines, i + 1, c2, b2, dates, now)
    }
}

/// The commits in the output of `git log --numstat` with the format
/// `commit %H / author %aN / email %aE / date %aI`, given what the date of
/// each line parsed to.
pub open spec fn parse_log_with(raw: Seq<char>, dates: Seq<Option<Timestamp>>, now: Timestamp) -> Seq<
    CommitModel,
> {
    log_from(lines_of(raw), 0, Seq::empty(), None, dates, now)
}

/// What the date of each line parses to: only lines that start with
/// `date ` (after trailing whitespace is cut) have one.
pub open spec fn line_dates(lines: Seq<Seq<char>>) -> Seq<Option<Timestamp>> {
    Seq::new(
        lines.len(),
        |k: int|
            if occurs_at(trim_end(lines[k]), "date "@, 0) {
                date_of(trim_end(lines[k]))
            } else {
                None
            },
    )
}

/// The commits in the output of `git log --numstat` with the format
/// `commit %H / author %aN / email %aE / date %aI`.
pub open spec fn parse_log_spec(raw: Seq<char>, now: Timestamp) -> Seq<CommitModel> {
    parse_log_with(raw, line_dates(lines_of(raw)), now)
}

struct CommitInfoBuilder {
    hash: Vec<char>,
    author: Option<Vec<char>>,
    email: Option<Vec<char>>,
    date: Option<Timestamp>,
    file_stats: Vec<FileStat>,
}

/// The plain value of an optional character vector.
pub open spec fn opt_chars(o: Option<Vec<char>>) -> Option<Seq<char>> {
    match o {
        Some(v) => Some(v@),
        None => None,
    }
}

impl CommitInfoBuilder {
    spec fn model(&self) -> BuilderModel {
        (
            self.hash@,
            opt_chars(self.author),
            opt_chars(self.email),
            self.date,
            stats_model(self.file_stats@),
        )
    }

    fn new(hash: Vec<char>) -> (r: Self)
        ensures
            r.model() == (hash@, None::<Seq<char>>, None::<Seq<char>>, None::<Timestamp>, Seq::<
                FileStatModel,
            >::empty()),
    {
        let r = CommitInfoBuilder {
            hash,
            author: None,
            email: None,
            date: None,
            file_stats: Vec::new(),
        };
        assert(stats_model(r.file_stats@) =~= Seq::<FileStatModel>::empty());
        r
    }

    fn build(self) -> (r: Option<CommitInfo>)
        ensures
            match r {
                Some(c) => build(self.model()) == Some(c.model()),
                None => build(self.model()) is None,
            },
    {
        let author = match self.author {
            Some(a) => a,
            None => {
                return None;
            },
        };
        let date = match self.date {
            Some(d) => d,
            None => {
                return None;
            },
        };
        let email = match self.email {
            Some(e) => e,
            None => Vec::new(),
        };
        Some(
            CommitInfo {
                hash: string_of(&self.hash),
                author: string_of(&author),
                email: string_of(&email),
                date,
                file_stats: self.file_stats,
            },
        )
    }
}

fn numstat_line(line: &[char]) -> (r: Option<FileStat>)
    ensures
        match r {
            Some(f) => numstat_of(line@) == Some(f.model()),
            None => numstat_of(line@) is None,
        },
{
    let parts = split_on_char(line, '\t');
    assert(views(parts@) == split_on(line@, '\t'));
    if parts.len() == 3 {
        assert(parts@[0]@ == split_on(line@, '\t')[0]);
        assert(parts@[1]@ == split_on(line@, '\t')[1]);
        assert(parts@[2]@ == split_on(line@, '\t')[2]);
        let added = match parse_unsigned_exec(&parts[0], 18446744073709551615) {
            Ok(n) => n,
            Err(_) => {
                return None;
            },
        };
        let removed = match parse_unsigned_exec(&parts[1], 18446744073709551615) {
            Ok(n) => n,
            Err(_) => {
                return None;
            },
        };
        Some(FileStat { path: string_of(&parts[2]), added, removed })
    } else {
        None
    }
}

fn after(l: &Vec<char>, n: usize) -> (r: Vec<char>)
    requires
        n <= l.len(),
    ensures
        r@ == l@.skip(n as int),
{
    let r = slice_chars(l, n, l.len());
    assert(r@ =~= l@.skip(n as int));
    r
}

fn flush_exec(commits: &mut Vec<CommitInfo>, current: Option<CommitInfoBuilder>)
    ensures
        commits_model(final(commits)@) == flush(
            commits_model(old(commits)@),
            match current {
                Some(b) => Some(b.model()),
                None => None,
            },
        ),
{
    match current {
        Some(b) => match b.build() {
            Some(c) => {
                let ghost before = commits_model(commits@);
                commits.push(c);
                assert(commits_model(commits@) =~= before.push(c.model()));
            },
            None => {},
        },
        None => {},
    }
}

/// The model of an optional builder.
spec fn opt_builder(o: Option<CommitInfoBuilder>) -> Option<BuilderModel> {
    match o {
        Some(b) => Some(b.model()),
        None => None,
    }
}

/// Parses the raw text of `git log` into commits, given what the date of
/// each line parsed to (`dates[k]` for line `k`, none past its end); a
/// date that did not parse is taken to be `now`.
pub fn parse_git_log_with(raw: &str, dates: &[Option<Timestamp>], now: Timestamp) -> (r: Vec<
    CommitInfo,
>)
    ensures
        commits_model(r@) == parse_log_with(raw@, dates@, now),
{
    let text = chars_of(raw);
    let lines = split_lines(&text);
    let ghost ls = views(lines@);
    let commit_tag = chars_of("commit ");
    let author_tag = chars_of("author ");
    let email_tag = chars_of("email ");
    let date_tag = chars_of("date ");
    proof {
        reveal_strlit("commit ");
        reveal_strlit("author ");
        reveal_strlit("email ");
        reveal_strlit("date ");
    }
    let mut commits: Vec<CommitInfo> = Vec::new();
    let mut current: Option<CommitInfoBuilder> = None;
    let mut i: usize = 0;
    assert(commits_model(commits@) =~= Seq::<CommitModel>::empty());
    while i < lines.len()
        invariant
            i <= lines.len(),
            ls == views(lines@),
            ls == lines_of(raw@),
            commit_tag@ == "commit "@ && commit_tag@.len() == 7,
            author_tag@ == "author "@ && author_tag@.len() == 7,
            email_tag@ == "email "@ && email_tag@.len() == 6,
            date_tag@ == "date "@ && date_tag@.len() == 5,
            log_from(ls, i as int, commits_model(commits@), opt_builder(current), dates@, now)
                == parse_log_with(raw@, dates@, now),
        decreases lines.len() - i,
    {
        assert(lines@[i as int]@ == ls[i as int]);
        let l = trimmed_end(&lines[i]);
        let d = if i < dates.len() {
            dates[i]
        } else {
            None
        };
        let ghost cm = commits_model(commits@);
        let ghost cb = opt_builder(current);
        let ghost next = log_step(cm, cb, l@, d, now);
        if occurs_at_exec(&l, &commit_tag, 0) {
            let hash = trimmed(&after(&l, 7));
            let old_current = current;
            flush_exec(&mut commits, old_current);
            current = Some(CommitInfoBuilder::new(hash));
        } else {
            match current {
                None => {},
                Some(mut b) => {
                    if occurs_at_exec(&l, &author_tag, 0) {
                        b.author = Some(after(&l, 7));
                    } else if occurs_at_exec(&l, &email_tag, 0) {
                        b.email = Some(after(&l, 6));
                    } else if occurs_at_exec(&l, &date_tag, 0) {
                        let t = match d {
                            Some(t) => t,
                            None => now,
                        };
                        b.date = Some(t);
                    } else if l.len() > 0 {
                        match numstat_line(&l) {
                            Some(f) => {
                                let ghost before = stats_model(b.file_stats@);
                                let ghost fm = f.model();
                                b.file_stats.push(f);
                                assert(stats_model(b.file_stats@) =~= before.push(fm));
                            },
                            None => {},
                        }
                    }
                    current = Some(b);
                },
            }
        }
        assert(commits_model(commits@) == next.0 && opt_builder(current) == next.1);
        i = i + 1;
    }
    flush_exec(&mut commits, current);
    commits
}

/// Parses the raw text of `git log` into commits; a date that does not
/// parse is taken to be `now`.
pub fn parse_git_log(raw: &str, now: Timestamp) -> (r: Vec<CommitInfo>)
    ensures
        commits_model(r@) == parse_log_spec(raw@, now),
{
    let text = chars_of(raw);
    let lines = split_lines(&text);
    let ghost ls = views(lines@);
    let date_tag = chars_of("date ");
    proof {
        reveal_strlit("date ");
    }
    let mut dates: Vec<Option<Timestamp>> = Vec::new();
    let mut i: usize = 0;
    while i < lines.len()
        invariant
            i <= lines.len(),
            ls == views(lines@),
            ls == lines_of(raw@),
            date_tag@ == "date "@ && date_tag@.len() == 5,
            dates@ == line_dates(ls).take(i as int),
        decreases lines.len() - i,
    {
        assert(lines@[i as int]@ == ls[i as int]);
        let l = trimmed_end(&lines[i]);
        if occurs_at_exec(&l, &date_tag, 0) {
            let ds = trimmed(&after(&l, 5));
            dates.push(parse_rfc3339(string_of(&ds).as_str()));
        } else {
            dates.push(None);
        }
        assert(dates@ =~= line_dates(ls).take(i + 1));
        i = i + 1;
    }
    assert(dates@ =~= line_dates(ls));
    parse_git_log_with(raw, &dates, now)
}

// ---------------------------------------------------------------------
// Authors
// ---------------------------------------------------------------------

/// A commit's date and the lines it changed, kept for scoring.
#[derive(Debug, Clone, Copy)]
pub struct CommitRecord {
    pub date: Timestamp,
    pub lines_changed: u64,
}

/// Aggregated per-author statistics across all matching commits.
#[derive(Debug, Clone)]
pub struct AuthorStats {
    pub author: String,
    pub email: String,
    pub commits: u64,
    pub lines_added: u64,
    pub lines_removed: u64,
    pub last_commit: Timestamp,
    /// Raw commit-level records kept for scoring.
    pub commit_records: Vec<CommitRecord>,
}

/// Author statistics as plain values: author, email, commits, lines added,
/// lines removed, last commit, records (date and lines changed).
pub type AuthorModel = (Seq<char>, Seq<char>, nat, nat, nat, Timestamp, Seq<(Timestamp, nat)>);

/// The plain values of a record.
pub open spec fn record_model(r: CommitRecord) -> (Timestamp, nat) {
    (r.date, r.lines_changed as nat)
}

impl AuthorStats {
    pub open spec fn model(&self) -> AuthorModel {
        (
            self.author@,
            self.email@,
            self.commits as nat,
            self.lines_added as nat,
            self.lines_removed as nat,
            self.last_commit,
            self.commit_records@.map_values(|r: CommitRecord| record_model(r)),
        )
    }
}

/// The models of a list of author statistics.
pub open spec fn authors_model(v: Seq<AuthorStats>) -> Seq<AuthorModel> {
    v.map_values(|a: AuthorStats| a.model())
}

/// Lines added over the files.
pub open spec fn sum_added(fs: Seq<FileStatModel>) -> nat
    decreases fs.len(),
{
    if fs.len() == 0 {
        0
    } else {
        sum_added(fs.drop_last()) + fs.last().1 as nat
    }
}

/// Lines removed over the files.
pub open spec fn sum_removed(fs: Seq<FileStatModel>) -> nat
    decreases fs.len(),
{
    if fs.len() == 0 {
        0
    } else {
        sum_removed(fs.drop_last()) + fs.last().2 as nat
    }
}

/// Index of the statistics of `author` at or after `i`, or the length.
pub open spec fn author_index_from(stats: Seq<AuthorModel>, author: Seq<char>, i: int) -> int
    decreases stats.len() - i,
{
    if i < 0 || i >= stats.len() {
        stats.len() as int
    } else if stats[i].0 == author {
        i
    } else {
        author_index_from(stats, author, i + 1)
    }
}

/// The statistics after one more commit: a new entry for a new author,
/// else the author's counts grow, the last commit moves forward if the
/// commit is later, and the commit's record is added.
pub open spec fn add_commit(stats: Seq<AuthorModel>, c: CommitModel) -> Seq<AuthorModel> {
    let added = sum_added(c.4);
    let removed = sum_removed(c.4);
    let k = author_index_from(stats, c.1, 0);
    if k >= stats.len() {
        stats.push((c.1, c.2, 1, added, removed, c.3, seq![(c.3, added + removed)]))
    } else {
        let a = stats[k];
        stats.update(
            k,
            (
                a.0,
                a.1,
                a.2 + 1,
                a.3 + added,
                a.4 + removed,
                if earlier(a.5, c.3) {
                    c.3
                } else {
                    a.5
                },
                a.6.push((c.3, added + removed)),
            ),
        )
    }
}

/// The statistics of commits `0..n`, authors in order of first commit.
pub open spec fn aggregate_spec(commits: Seq<CommitModel>, n: int) -> Seq<AuthorModel>
    decreases n,
{
    if n <= 0 || n > commits.len() {
        Seq::empty()
    } else {
        add_commit(aggregate_spec(commits, n - 1), commits[n - 1])
    }
}

/// Lines added by `author` in commits `0..n`.
pub open spec fn author_added(commits: Seq<CommitModel>, author: Seq<char>, n: int) -> nat
    decreases n,
{
    if n <= 0 || n > commits.len() {
        0
    } else {
        author_added(commits, author, n - 1) + if commits[n - 1].1 == author {
            sum_added(commits[n - 1].4)
        } else {
            0
        }
    }
}

/// Lines removed by `author` in commits `0..n`.
pub open spec fn author_removed(commits: Seq<CommitModel>, author: Seq<char>, n: int) -> nat
    decreases n,
{
    if n <= 0 || n > commits.len() {
        0
    } else {
        author_removed(commits, author, n - 1) + if commits[n - 1].1 == author {
            sum_removed(commits[n - 1].4)
        } else {
            0
        }
    }
}

/// The sums that aggregating computes fit in `u64`: each commit's lines
/// changed, and each author's lines added and lines removed.
pub open spec fn totals_fit(commits: Seq<CommitModel>) -> bool {
    &&& forall|i: int|
        0 <= i < commits.len() ==> sum_added((#[trigger] commits[i]).4) + sum_removed(commits[i].4)
            <= u64::MAX
    &&& forall|a: Seq<char>| #[trigger] author_added(commits, a, commits.len() as int) <= u64::MAX
    &&& forall|a: Seq<char>| #[trigger] author_removed(commits, a, commits.len() as int) <= u64::MAX
}

proof fn lemma_author_sums_mono(commits: Seq<CommitModel>, a: Seq<char>, m: int, n: int)
    requires
        0 <= m <= n <= commits.len(),
    ensures
        author_added(commits, a, m) <= author_added(commits, a, n),
        author_removed(commits, a, m) <= author_removed(commits, a, n),
    decreases n - m,
{
    if m < n {
        lemma_author_sums_mono(commits, a, m, n - 1);
    }
}

pub proof fn lemma_author_index(stats: Seq<AuthorModel>, a: Seq<char>, i: int)
    requires
        0 <= i <= stats.len(),
    ensures
        i <= author_index_from(stats, a, i) <= stats.len(),
        forall|j: int| i <= j < author_index_from(stats, a, i) ==> #[trigger] stats[j].0 != a,
        author_index_from(stats, a, i) < stats.len() ==> stats[author_index_from(stats, a, i)].0 == a,
    decreases stats.len() - i,
{
    if i < stats.len() && stats[i].0 != a {
        lemma_author_index(stats, a, i + 1);
    }
}

/// Whether no author occurs twice.
pub open spec fn distinct_authors(stats: Seq<AuthorModel>) -> bool {
    forall|a: int, b: int| 0 <= a < b < stats.len() ==> stats[a].0 != stats[b].0
}

/// In the statistics of commits `0..n` each author occurs once, an author
/// without an entry changed no lines, and each entry's added and removed
/// lines are that author's lines added and removed.
proof fn lemma_aggregate_bound(commits: Seq<CommitModel>, n: int)
    requires
        0 <= n <= commits.len(),
    ensures
        distinct_authors(aggregate_spec(commits, n)),
        forall|a: Seq<char>|
            (forall|k: int|
                0 <= k < aggregate_spec(commits, n).len() ==> (#[trigger] aggregate_spec(commits, n)[k]).0
                    != a) ==> author_added(commits, a, n) == 0 && author_removed(commits, a, n) == 0,
        forall|k: int|
            0 <= k < aggregate_spec(commits, n).len() ==> (#[trigger] aggregate_spec(commits, n)[k]).3
                == author_added(commits, aggregate_spec(commits, n)[k].0, n) && aggregate_spec(
                commits,
                n,
            )[k].4 == author_removed(commits, aggregate_spec(commits, n)[k].0, n),
        forall|k: int|
            0 <= k < aggregate_spec(commits, n).len() ==> (#[trigger] aggregate_spec(commits, n)[k]).2
                <= n,
    decreases n,
{
    if n > 0 {
        lemma_aggregate_bound(commits, n - 1);
        let s = aggregate_spec(commits, n - 1);
        let c = commits[n - 1];
        lemma_author_index(s, c.1, 0);
        let idx = author_index_from(s, c.1, 0);
        let t = aggregate_spec(commits, n);
        assert(t == add_commit(s, c));
        if idx >= s.len() {
            assert(t.len() == s.len() + 1);
            assert forall|k: int| 0 <= k < s.len() implies t[k] == s[k] && s[k].0 != c.1 by {}
        } else {
            assert(t.len() == s.len());
            assert forall|k: int| 0 <= k < s.len() && k != idx implies t[k] == s[k] && s[k].0 != c.1 by {
                if k < idx {
                } else {
                    assert(s[idx].0 == c.1);
                }
            }
            assert(t[idx].0 == c.1);
        }
        assert forall|a: int, b: int| 0 <= a < b < t.len() implies t[a].0 != t[b].0 by {
            if idx >= s.len() {
                if b == s.len() {
                } else {
                }
            } else {
                assert(t[a].0 == s[a].0 && t[b].0 == s[b].0);
            }
        }
        assert forall|a: Seq<char>|
            (forall|k: int| 0 <= k < t.len() ==> (#[trigger] t[k]).0 != a) implies author_added(
            commits,
            a,
            n,
        ) == 0 && author_removed(commits, a, n) == 0 by {
            if idx >= s.len() {
                assert(t[s.len() as int].0 == c.1);
                assert forall|k: int| 0 <= k < s.len() implies (#[trigger] s[k]).0 != a by {
                    assert(t[k] == s[k]);
                }
            } else {
                assert(t[idx].0 == c.1);
                assert forall|k: int| 0 <= k < s.len() implies (#[trigger] s[k]).0 != a by {
                    if k != idx {
                        assert(t[k] == s[k]);
                    } else {
                        assert(t[k].0 == s[k].0);
                    }
                }
            }
            assert(author_added(commits, a, n - 1) == 0);
            assert(c.1 != a);
        }
        assert forall|k: int| 0 <= k < t.len() implies (#[trigger] t[k]).3 == author_added(
            commits,
            t[k].0,
            n,
        ) && t[k].4 == author_removed(commits, t[k].0, n) && t[k].2 <= n by {
            let added = sum_added(c.4);
            let removed = sum_removed(c.4);
            if idx >= s.len() && k == s.len() {
                assert forall|m: int| 0 <= m < s.len() implies (#[trigger] s[m]).0 != c.1 by {}
                assert(author_added(commits, c.1, n - 1) == 0);
                assert(t[k].0 == c.1);
            } else if idx < s.len() && k == idx {
                assert(s[k].3 == author_added(commits, s[k].0, n - 1));
                assert(t[k].0 == c.1);
            } else {
                assert(t[k] == s[k] && s[k].0 != c.1);
                assert(s[k].3 == author_added(commits, s[k].0, n - 1));
            }
        }
    }
}

/// The commits counted over all authors.
pub open spec fn total_commits(stats: Seq<AuthorModel>) -> nat
    decreases stats.len(),
{
    if stats.len() == 0 {
        0
    } else {
        total_commits(stats.drop_last()) + stats.last().2
    }
}

proof fn lemma_total_update(s: Seq<AuthorModel>, k: int, x: AuthorModel)
    requires
        0 <= k < s.len(),
    ensures
        total_commits(s.update(k, x)) + s[k].2 == total_commits(s) + x.2,
    decreases s.len(),
{
    let t = s.update(k, x);
    if k == s.len() - 1 {
        assert(t.drop_last() =~= s.drop_last());
    } else {
        assert(t.drop_last() =~= s.drop_last().update(k, x));
        lemma_total_update(s.drop_last(), k, x);
    }
}

/// Each commit is counted once, for its author: the authors' commit counts
/// add up to the number of commits, and each author has one record per
/// commit counted.
pub proof fn law_aggregate_counts(commits: Seq<CommitModel>, n: int)
    requires
        0 <= n <= commits.len(),
    ensures
        total_commits(aggregate_spec(commits, n)) == n,
        forall|k: int|
            0 <= k < aggregate_spec(commits, n).len() ==> (#[trigger] aggregate_spec(commits, n)[k]).6.len()
                == aggregate_spec(commits, n)[k].2,
    decreases n,
{
    if n > 0 {
        law_aggregate_counts(commits, n - 1);
        let s = aggregate_spec(commits, n - 1);
        let c = commits[n - 1];
        let t = aggregate_spec(commits, n);
        assert(t == add_commit(s, c));
        lemma_author_index(s, c.1, 0);
        let idx = author_index_from(s, c.1, 0);
        if idx >= s.len() {
            assert(t.drop_last() =~= s);
        } else {
            lemma_total_update(s, idx, t[idx]);
            assert(t =~= s.update(idx, t[idx]));
        }
        assert forall|k: int| 0 <= k < t.len() implies (#[trigger] t[k]).6.len() == t[k].2 by {
            if k < s.len() && k != idx {
                assert(t[k] == s[k]);
            }
        }
    }
}

fn sum_file_stats(fs: &Vec<FileStat>, bound: Ghost<nat>) -> (r: (u64, u64))
    requires
        sum_added(stats_model(fs@)) + sum_removed(stats_model(fs@)) <= bound@,
        bound@ <= u64::MAX,
    ensures
        r.0 == sum_added(stats_model(fs@)),
        r.1 == sum_removed(stats_model(fs@)),
{
    let ghost m = stats_model(fs@);
    let mut a: u64 = 0;
    let mut d: u64 = 0;
    let mut i: usize = 0;
    proof {
        lemma_sums_prefix(m, 0, m.len() as int);
    }
    while i < fs.len()
        invariant
            i <= fs.len(),
            m == stats_model(fs@),
            a == sum_added(m.take(i as int)),
            d == sum_removed(m.take(i as int)),
            sum_added(m) + sum_removed(m) <= u64::MAX,
        decreases fs.len() - i,
    {
        proof {
            assert(m.take(i + 1).drop_last() =~= m.take(i as int));
            lemma_sums_prefix(m, i + 1, m.len() as int);
            assert(m.take(m.len() as int) =~= m);
        }
        a = a + fs[i].added;
        d = d + fs[i].removed;
        i = i + 1;
    }
    assert(m.take(m.len() as int) =~= m);
    (a, d)
}

proof fn lemma_sums_prefix(m: Seq<FileStatModel>, i: int, n: int)
    requires
        0 <= i <= n <= m.len(),
    ensures
        sum_added(m.take(i)) <= sum_added(m.take(n)),
        sum_removed(m.take(i)) <= sum_removed(m.take(n)),
    decreases n - i,
{
    if i < n {
        assert(m.take(n).drop_last() =~= m.take(n - 1));
        lemma_sums_prefix(m, i, n - 1);
    }
}

/// Aggregates commits into per-author statistics, authors in order of
/// their first commit.
pub fn aggregate(commits: &[CommitInfo]) -> (r: Vec<AuthorStats>)
    requires
        totals_fit(commits_model(commits@)),
    ensures
        authors_model(r@) == aggregate_spec(commits_model(commits@), commits@.len() as int),
{
    let ghost cm = commits_model(commits@);
    let mut out: Vec<AuthorStats> = Vec::new();
    let mut i: usize = 0;
    assert(authors_model(out@) =~= Seq::<AuthorModel>::empty());
    while i < commits.len()
        invariant
            i <= commits.len(),
            cm == commits_model(commits@),
            cm.len() == commits.len(),
            totals_fit(cm),
            authors_model(out@) == aggregate_spec(cm, i as int),
        decreases commits.len() - i,
    {
        let c = &commits[i];
        assert(cm[i as int] == c.model());
        let ghost s = aggregate_spec(cm, i as int);
        proof {
            lemma_aggregate_bound(cm, i as int);
            lemma_author_sums_mono(cm, c.author@, i + 1, cm.len() as int);
            assert(author_added(cm, c.author@, cm.len() as int) <= u64::MAX);
            assert(author_removed(cm, c.author@, cm.len() as int) <= u64::MAX);
            assert(sum_added(cm[i as int].4) + sum_removed(cm[i as int].4) <= u64::MAX);
            lemma_author_index(s, c.author@, 0);
        }
        let (added, removed) = sum_file_stats(
            &c.file_stats,
            Ghost(u64::MAX as nat),
        );
        let total = added + removed;
        let mut k: usize = 0;
        while k < out.len() && out[k].author != c.author
            invariant
                k <= out.len(),
                authors_model(out@) == s,
                author_index_from(s, c.author@, k as int) == author_index_from(s, c.author@, 0),
            decreases out.len() - k,
        {
            assert(s[k as int].0 == out@[k as int].author@);
            k = k + 1;
        }
        if k < out.len() {
            assert(s[k as int].0 == out@[k as int].author@);
            assert(author_index_from(s, c.author@, 0) == k);
            let ghost a = s[k as int];
            proof {
                assert(a.3 == author_added(cm, c.author@, i as int));
                assert(a.4 == author_removed(cm, c.author@, i as int));
                assert(a.2 <= i);
            }
            let mut st = AuthorStats {
                author: out[k].author.clone(),
                email: out[k].email.clone(),
                commits: out[k].commits,
                lines_added: out[k].lines_added,
                lines_removed: out[k].lines_removed,
                last_commit: out[k].last_commit,
                commit_records: copy_records(&out[k].commit_records),
            };
            st.commits = st.commits + 1;
            st.lines_added = st.lines_added + added;
            st.lines_removed = st.lines_removed + removed;
            if is_earlier(st.last_commit, c.date) {
                st.last_commit = c.date;
            }
            let ghost recs = st.commit_records@;
            st.commit_records.push(CommitRecord { date: c.date, lines_changed: total });
            assert(st.commit_records@.map_values(|r: CommitRecord| record_model(r)) =~= recs.map_values(
                |r: CommitRecord| record_model(r),
            ).push((c.date, (added + removed) as nat)));
            let ghost before = out@;
            out.set(k, st);
            assert(authors_model(out@) =~= authors_model(before).update(k as int, st.model()));
        } else {
            let mut recs: Vec<CommitRecord> = Vec::new();
            recs.push(CommitRecord { date: c.date, lines_changed: total });
            let st = AuthorStats {
                author: c.author.clone(),
                email: c.email.clone(),
                commits: 1,
                lines_added: added,
                lines_removed: removed,
                last_commit: c.date,
                commit_records: recs,
            };
            assert(st.commit_records@.map_values(|r: CommitRecord| record_model(r)) =~= seq![
                (c.date, (added + removed) as nat),
            ]);
            let ghost before = out@;
            out.push(st);
            assert(authors_model(out@) =~= authors_model(before).push(st.model()));
        }
        i = i + 1;
    }
    out
}

fn copy_records(v: &Vec<CommitRecord>) -> (r: Vec<CommitRecord>)
    ensures
        r@ == v@,
{
    let mut r: Vec<CommitRecord> = Vec::new();
    let mut i: usize = 0;
    while i < v.len()
        invariant
            i <= v.len(),
            r@ == v@.take(i as int),
        decreases v.len() - i,
    {
        r.push(v[i]);
        i = i + 1;
        assert(r@ =~= v@.take(i as int));
    }
    assert(v@.take(v.len() as int) =~= v@);
    r
}

// ---------------------------------------------------------------------
// `--since` values
// ---------------------------------------------------------------------

/// What `normalize_since` gives: values with a space or a dash pass
/// through (trimmed); `<n>d`, `<n>w`, `<n>m`, `<n>y` become
/// `<n> days ago` and so on; anything else (a non-ASCII last character
/// among it) passes through trimmed, for git to decide.
pub open spec fn since_spec(input: Seq<char>) -> Seq<char> {
    let t = trim(input);
    if t.contains(' ') || t.contains('-') || t.len() == 0 {
        t
    } else {
        match parse_unsigned(t.drop_last(), 18446744073709551615) {
            Err(_) => t,
            Ok(n) => if t.last() == 'd' {
                decimal(n) + " days ago"@
            } else if t.last() == 'w' {
                decimal(n) + " weeks ago"@
            } else if t.last() == 'm' {
                decimal(n) + " months ago"@
            } else if t.last() == 'y' {
                decimal(n) + " years ago"@
            } else {
                t
            },
        }
    }
}

/// Convert shorthand durations like "6m", "1y" into git-compatible
/// `--since` values.
pub fn normalize_since(input: &str) -> (r: String)
    ensures
        r@ == since_spec(input@),
{
    let v = chars_of(input);
    let t = trimmed(&v);
    let mut i: usize = 0;
    let mut special = false;
    while i < t.len()
        invariant
            i <= t.len(),
            special == exists|k: int| 0 <= k < i && (t@[k] == ' ' || t@[k] == '-'),
        decreases t.len() - i,
    {
        if t[i] == ' ' || t[i] == '-' {
            special = true;
        }
        i = i + 1;
    }
    proof {
        if special {
            let k = choose|k: int| 0 <= k < t@.len() && (t@[k] == ' ' || t@[k] == '-');
            assert(t@.contains(t@[k]));
        } else {
            assert(!t@.contains(' '));
            assert(!t@.contains('-'));
        }
    }
    if special || t.len() == 0 {
        return string_of(&t);
    }
    let num = slice_chars(&t, 0, t.len() - 1);
    assert(num@ =~= t@.drop_last());
    let unit = t[t.len() - 1];
    match parse_unsigned_exec(&num, 18446744073709551615) {
        Err(_) => string_of(&t),
        Ok(n) => {
            let mut out = decimal_chars(n);
            if unit == 'd' {
                append_str(&mut out, " days ago");
            } else if unit == 'w' {
                append_str(&mut out, " weeks ago");
            } else if unit == 'm' {
                append_str(&mut out, " months ago");
            } else if unit == 'y' {
                append_str(&mut out, " years ago");
            } else {
                return string_of(&t);
            }
            string_of(&out)
        },
    }
}

/// Values that hold a space or a dash (dates, git's own phrases) reach git
/// as they were given, only trimmed.
pub proof fn law_since_passes_phrases(input: Seq<char>)
    requires
        trim(input).contains(' ') || trim(input).contains('-'),
    ensures
        since_spec(input) == trim(input),
{
}

/// An `author ` line inside a commit sets the commit's author to all of the
/// text after the prefix, spaces and all, and changes nothing else.
pub proof fn law_author_line_sets_whole_name(
    commits: Seq<CommitModel>,
    b: BuilderModel,
    name: Seq<char>,
    d: Option<Timestamp>,
    now: Timestamp,
)
    ensures
        log_step(commits, Some(b), "author "@ + name, d, now) == (
            commits,
            Some((b.0, Some(name), b.2, b.3, b.4)),
        ),
{
    reveal_strlit("author ");
    reveal_strlit("commit ");
    let l = "author "@ + name;
    assert(l[0] == 'a');
    assert(!occurs_at(l, "commit "@, 0)) by {
        if occurs_at(l, "commit "@, 0) {
            assert(l.subrange(0, 7)[0] == "commit "@[0]);
        }
    }
    assert(l.subrange(0, 7) =~= "author "@);
    assert(l.skip(7) =~= name);
}

/// Whether some commit among `0..n` by `author` has the date `t`.
pub open spec fn authored_at(commits: Seq<CommitModel>, n: int, author: Seq<char>, t: Timestamp) -> bool {
    exists|i: int| 0 <= i < n && (#[trigger] commits[i]).1 == author && commits[i].3 == t
}

/// Whether no commit among `0..n` by `author` is later than `t`.
pub open spec fn none_later(commits: Seq<CommitModel>, n: int, author: Seq<char>, t: Timestamp) -> bool {
    forall|i: int| 0 <= i < n && (#[trigger] commits[i]).1 == author ==> !earlier(t, commits[i].3)
}

/// Each author's last commit is the latest of their commit dates: it is
/// the date of one of their commits, and none of their commits is later,
/// whatever order the commits come in.
pub proof fn law_last_commit_is_latest(commits: Seq<CommitModel>, n: int)
    requires
        0 <= n <= commits.len(),
    ensures
        forall|k: int|
            0 <= k < aggregate_spec(commits, n).len() ==> authored_at(
                commits,
                n,
                (#[trigger] aggregate_spec(commits, n)[k]).0,
                aggregate_spec(commits, n)[k].5,
            ) && none_later(commits, n, aggregate_spec(commits, n)[k].0, aggregate_spec(commits, n)[k].5),
    decreases n,
{
    if n > 0 {
        law_last_commit_is_latest(commits, n - 1);
        lemma_aggregate_bound(commits, n - 1);
        let s = aggregate_spec(commits, n - 1);
        let c = commits[n - 1];
        let t = aggregate_spec(commits, n);
        assert(t == add_commit(s, c));
        lemma_author_index(s, c.1, 0);
        let idx = author_index_from(s, c.1, 0);
        assert forall|k: int| 0 <= k < t.len() implies authored_at(commits, n, (#[trigger] t[k]).0, t[k].5)
            && none_later(commits, n, t[k].0, t[k].5) by {
            if k < s.len() && k != idx {
                assert(t[k] == s[k]);
                if k > idx && idx < s.len() {
                    assert(s[idx].0 != s[k].0);
                }
                assert(s[k].0 != c.1);
                assert(authored_at(commits, n - 1, s[k].0, s[k].5));
                let i = choose|i: int| 0 <= i < n - 1 && (#[trigger] commits[i]).1 == s[k].0 && commits[i].3 == s[k].5;
                assert(commits[i].1 == t[k].0 && commits[i].3 == t[k].5);
                assert forall|j: int| 0 <= j < n && (#[trigger] commits[j]).1 == t[k].0 implies !earlier(
                    t[k].5,
                    commits[j].3,
                ) by {
                    if j < n - 1 {
                        assert(none_later(commits, n - 1, s[k].0, s[k].5));
                    }
                }
            } else if k == idx && idx < s.len() {
                let a = s[idx];
                assert(a.0 == c.1);
                assert(t[k].0 == c.1);
                assert(authored_at(commits, n - 1, a.0, a.5));
                assert(none_later(commits, n - 1, a.0, a.5));
                if earlier(a.5, c.3) {
                    assert(t[k].5 == c.3);
                    assert(commits[n - 1].1 == t[k].0 && commits[n - 1].3 == t[k].5);
                } else {
                    assert(t[k].5 == a.5);
                    let i = choose|i: int| 0 <= i < n - 1 && (#[trigger] commits[i]).1 == a.0 && commits[i].3 == a.5;
                    assert(commits[i].1 == t[k].0 && commits[i].3 == t[k].5);
                }
                assert forall|j: int| 0 <= j < n && (#[trigger] commits[j]).1 == t[k].0 implies !earlier(
                    t[k].5,
                    commits[j].3,
                ) by {
                    if j < n - 1 {
                        assert(!earlier(a.5, commits[j].3));
                    }
                }
            } else {
                assert(k == s.len() && idx >= s.len());
                assert(t[k].0 == c.1 && t[k].5 == c.3);
                assert(commits[n - 1].1 == t[k].0 && commits[n - 1].3 == t[k].5);
                assert forall|j: int| 0 <= j < n && (#[trigger] commits[j]).1 == t[k].0 implies !earlier(
                    t[k].5,
                    commits[j].3,
                ) by {
                    if j < n - 1 {
                        lemma_no_entry_no_commit(commits, n - 1, c.1, j);
                    }
                }
            }
        }
    }
}

/// A commit among `0..n` has its author's entry in the statistics.
proof fn lemma_no_entry_no_commit(commits: Seq<CommitModel>, n: int, a: Seq<char>, j: int)
    requires
        0 <= j < n <= commits.len(),
        commits[j].1 == a,
    ensures
        exists|k: int| 0 <= k < aggregate_spec(commits, n).len() && (#[trigger] aggregate_spec(commits, n)[k]).0
            == a,
    decreases n,
{
    let s = aggregate_spec(commits, n - 1);
    let c = commits[n - 1];
    let t = aggregate_spec(commits, n);
    assert(t == add_commit(s, c));
    lemma_author_index(s, c.1, 0);
    let idx = author_index_from(s, c.1, 0);
    if j == n - 1 {
        if idx < s.len() {
            assert(t[idx].0 == a);
        } else {
            assert(t[s.len() as int].0 == a);
        }
    } else {
        lemma_no_entry_no_commit(commits, n - 1, a, j);
        let k = choose|k: int| 0 <= k < s.len() && (#[trigger] s[k]).0 == a;
        if idx < s.len() && k == idx {
            assert(t[k].0 == a);
        } else {
            assert(t[k] == s[k]);
        }
    }
}

} // verus!
