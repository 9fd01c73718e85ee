//! `.env` files: the key/value map they produce and the parser that reads
//! them (quotes, escapes, multiline values, inline comments, `export`
//! prefixes, `$VAR` / `${VAR}` interpolation).
use vstd::prelude::*;

use crate::text::{
    append_chars, chars_equal, chars_of, find_char, find_from, find_pattern, find_pattern_exec,
    lemma_find_from, lines_of, occurs_at, occurs_at_exec, slice_chars, split_lines, string_of,
    trim, trim_end, trim_start, trimmed, trimmed_end, trimmed_start, views,
};

verus! {

// ---------------------------------------------------------------------
// The map
// ---------------------------------------------------------------------

/// A key and its value, as character sequences.
pub type EntryModel = (Seq<char>, Seq<char>);

/// Index of the first entry of `es` at or after `i` whose key is `k`, or the
/// number of entries when there is none.
pub open spec fn index_from(es: Seq<EntryModel>, k: Seq<char>, i: int) -> int
    decreases es.len() - i,
{
    if i < 0 || i >= es.len() {
        es.len() as int
    } else if es[i].0 == k {
        i
    } else {
        index_from(es, k, i + 1)
    }
}

/// Index of the entry for `k`, or the number of entries.
pub open spec fn key_index(es: Seq<EntryModel>, k: Seq<char>) -> int {
    index_from(es, k, 0)
}

/// The value stored for `k`.
pub open spec fn lookup(es: Seq<EntryModel>, k: Seq<char>) -> Option<Seq<char>> {
    if key_index(es, k) < es.len() {
        Some(es[key_index(es, k)].1)
    } else {
        None
    }
}

/// `es` with `k` set to `v`: the entry for `k` is replaced in place, or a
/// new entry is added at the end (so entries keep first-insertion order).
pub open spec fn assoc_insert(es: Seq<EntryModel>, k: Seq<char>, v: Seq<char>) -> Seq<EntryModel> {
    if key_index(es, k) < es.len() {
        es.update(key_index(es, k), (k, v))
    } else {
        es.push((k, v))
    }
}

pub proof fn lemma_index_from(es: Seq<EntryModel>, k: Seq<char>, i: int)
    requires
        0 <= i <= es.len(),
    ensures
        i <= index_from(es, k, i) <= es.len(),
        forall|j: int| i <= j < index_from(es, k, i) ==> #[trigger] es[j].0 != k,
        index_from(es, k, i) < es.len() ==> es[index_from(es, k, i)].0 == k,
    decreases es.len() - i,
{
    if i < es.len() && es[i].0 != k {
        lemma_index_from(es, k, i + 1);
    }
}

/// Whether no key occurs twice.
pub open spec fn distinct_keys(es: Seq<EntryModel>) -> bool {
    forall|i: int, j: int| 0 <= i < j < es.len() ==> es[i].0 != es[j].0
}

/// A map from keys to values in which each key occurs once, kept in the
/// order in which keys were first inserted.
pub struct EnvMap {
    pub entries: Vec<(Vec<char>, Vec<char>)>,
}

/// The character sequences of an entry.
pub open spec fn entry_model(e: (Vec<char>, Vec<char>)) -> EntryModel {
    (e.0@, e.1@)
}

impl EnvMap {
    /// The entries, in first-insertion order.
    pub open spec fn model(&self) -> Seq<EntryModel> {
        self.entries@.map_values(|e: (Vec<char>, Vec<char>)| entry_model(e))
    }

    /// An empty map.
    pub fn new() -> (m: EnvMap)
        ensures
            m.model() == Seq::<EntryModel>::empty(),
            distinct_keys(m.model()),
    {
        let m = EnvMap { entries: Vec::new() };
        assert(m.model() =~= Seq::<EntryModel>::empty());
        m
    }

    /// The number of keys.
    pub fn len(&self) -> (n: usize)
        ensures
            n == self.model().len(),
    {
        self.entries.len()
    }

    /// Position of the entry for `k`, or the number of entries.
    fn position(&self, k: &[char]) -> (r: usize)
        ensures
            r == key_index(self.model(), k@),
    {
        proof {
            lemma_index_from(self.model(), k@, 0);
        }
        let mut i: usize = 0;
        while i < self.entries.len()
            invariant
                i <= self.entries.len(),
                index_from(self.model(), k@, i as int) == key_index(self.model(), k@),
            decreases self.entries.len() - i,
        {
            if chars_equal(&self.entries[i].0, k) {
                return i;
            }
            i = i + 1;
        }
        i
    }

    /// The value for the key `k`.
    pub fn lookup_chars(&self, k: &[char]) -> (r: Option<&Vec<char>>)
        ensures
            match r {
                Some(v) => lookup(self.model(), k@) == Some(v@),
                None => lookup(self.model(), k@) is None,
            },
    {
        let i = self.position(k);
        if i < self.entries.len() {
            Some(&self.entries[i].1)
        } else {
            None
        }
    }

    /// Sets the key `k` to `v`.
    pub fn insert_chars(&mut self, k: Vec<char>, v: Vec<char>)
        ensures
            final(self).model() == assoc_insert(old(self).model(), k@, v@),
            distinct_keys(old(self).model()) ==> distinct_keys(final(self).model()),
    {
        proof {
            if distinct_keys(self.model()) {
                law_insert_keeps_keys_distinct(self.model(), k@, v@);
            }
        }
        let i = self.position(&k);
        let ghost km = k@;
        let ghost vm = v@;
        if i < self.entries.len() {
            self.entries.set(i, (k, v));
            assert(self.model() =~= old(self).model().update(i as int, (km, vm)));
        } else {
            self.entries.push((k, v));
            assert(self.model() =~= old(self).model().push((km, vm)));
        }
    }

    /// Sets the key `key` to `value`.
    pub fn insert(&mut self, key: &str, value: &str)
        ensures
            final(self).model() == assoc_insert(old(self).model(), key@, value@),
            distinct_keys(old(self).model()) ==> distinct_keys(final(self).model()),
    {
        let k = chars_of(key);
        let v = chars_of(value);
        self.insert_chars(k, v);
    }

    /// The value for `key`, if the map has one.
    pub fn get(&self, key: &str) -> (r: Option<String>)
        ensures
            match r {
                Some(v) => lookup(self.model(), key@) == Some(v@),
                None => lookup(self.model(), key@) is None,
            },
    {
        let k = chars_of(key);
        match self.lookup_chars(&k) {
            Some(v) => Some(string_of(v)),
            None => None,
        }
    }
}

/// A read of a key gives back what the last write of that key wrote.
pub proof fn law_lookup_after_insert(es: Seq<EntryModel>, k: Seq<char>, v: Seq<char>)
    ensures
        lookup(assoc_insert(es, k, v), k) == Some(v),
{
    lemma_index_from(es, k, 0);
    let n = assoc_insert(es, k, v);
    lemma_index_from(n, k, 0);
    let i = key_index(es, k);
    let j = key_index(n, k);
    if i < es.len() {
        if j < i {
            assert(n[j] == es[j]);
        }
        if j > i {
            assert(n[i].0 == k);
        }
    } else {
        if j < es.len() {
            assert(n[j] == es[j]);
        }
        assert(n[es.len() as int].0 == k);
    }
}

/// Writing a key leaves every other key's value as it was.
pub proof fn law_lookup_other_key(es: Seq<EntryModel>, k: Seq<char>, v: Seq<char>, k2: Seq<char>)
    requires
        k2 != k,
    ensures
        lookup(assoc_insert(es, k, v), k2) == lookup(es, k2),
{
    lemma_index_from(es, k, 0);
    lemma_index_from(es, k2, 0);
    let n = assoc_insert(es, k, v);
    lemma_index_from(n, k2, 0);
    let a = key_index(es, k2);
    let b = key_index(n, k2);
    if a < b {
        if a < es.len() {
            assert(n[a].0 == es[a].0 || a == key_index(es, k));
        }
    } else if b < a {
        if b < n.len() {
            assert(n[b].0 == k2);
            if b < es.len() {
                assert(es[b].0 == n[b].0 || b == key_index(es, k));
            }
        }
    }
}

/// Inserting keeps the keys of a map distinct.
pub proof fn law_insert_keeps_keys_distinct(es: Seq<EntryModel>, k: Seq<char>, v: Seq<char>)
    requires
        distinct_keys(es),
    ensures
        distinct_keys(assoc_insert(es, k, v)),
{
    lemma_index_from(es, k, 0);
}

// ---------------------------------------------------------------------
// Quotes and escapes
// ---------------------------------------------------------------------

/// Whether `c` opens a quoted value.
pub open spec fn is_quote(c: char) -> bool {
    c == '"' || c == '\''
}

/// Index of the first `q` in `s` at or after `i` that is not escaped: a
/// backslash makes the scan step over the character after it.
pub open spec fn find_quote(s: Seq<char>, q: char, i: int) -> Option<int>
    decreases s.len() - i,
{
    if i < 0 || i >= s.len() {
        None
    } else if s[i] == '\\' {
        if i + 2 >= s.len() {
            None
        } else {
            find_quote(s, q, i + 2)
        }
    } else if s[i] == q {
        Some(i)
    } else {
        find_quote(s, q, i + 1)
    }
}

proof fn lemma_find_quote(s: Seq<char>, q: char, i: int)
    requires
        0 <= i,
    ensures
        find_quote(s, q, i) matches Some(p) ==> i <= p < s.len() && s[p] == q,
    decreases s.len() - i,
{
    if 0 <= i < s.len() {
        if s[i] == '\\' {
            if i + 2 < s.len() {
                lemma_find_quote(s, q, i + 2);
            }
        } else if s[i] != q {
            lemma_find_quote(s, q, i + 1);
        }
    }
}

/// Executable form of [`find_quote`] from the start of `s`.
pub fn find_unescaped_quote(s: &[char], quote: char) -> (r: Option<usize>)
    ensures
        match r {
            Some(p) => find_quote(s@, quote, 0) == Some(p as int),
            None => find_quote(s@, quote, 0) is None,
        },
{
    let mut i: usize = 0;
    while i < s.len()
        invariant
            find_quote(s@, quote, i as int) == find_quote(s@, quote, 0),
        decreases s.len() - i,
    {
        if s[i] == '\\' {
            if s.len() - i <= 2 {
                return None;
            }
            i = i + 2;
        } else if s[i] == quote {
            return Some(i);
        } else {
            i = i + 1;
        }
    }
    None
}

/// What an escape `\c` inside double quotes stands for.
pub open spec fn escape_of(c: char) -> Seq<char> {
    if c == 'n' {
        seq!['\n']
    } else if c == 't' {
        seq!['\t']
    } else if c == 'r' {
        seq!['\r']
    } else if c == '"' {
        seq!['"']
    } else if c == '\\' {
        seq!['\\']
    } else {
        seq!['\\', c]
    }
}

/// `s[i..]` with the escapes of a double-quoted value resolved; a lone
/// backslash at the end stays.
pub open spec fn unescape_from(s: Seq<char>, i: int) -> Seq<char>
    decreases s.len() - i,
{
    if i < 0 || i >= s.len() {
        Seq::empty()
    } else if s[i] == '\\' {
        if i + 1 >= s.len() {
            seq!['\\']
        } else {
            escape_of(s[i + 1]) + unescape_from(s, i + 2)
        }
    } else {
        seq![s[i]] + unescape_from(s, i + 1)
    }
}

/// The escapes of a double-quoted value resolved.
pub open spec fn unescape(s: Seq<char>) -> Seq<char> {
    unescape_from(s, 0)
}

/// Resolves the escapes of a double-quoted value.
pub fn unescape_double_quoted(s: &[char]) -> (r: Vec<char>)
    ensures
        r@ == unescape(s@),
{
    let mut out: Vec<char> = Vec::new();
    let mut i: usize = 0;
    while i < s.len()
        invariant
            i <= s.len() + 1,
            out@ + unescape_from(s@, i as int) == unescape(s@),
        decreases s.len() + 1 - i,
    {
        let ghost before = out@;
        if s[i] == '\\' {
            if i + 1 >= s.len() {
                out.push('\\');
                assert(out@ =~= unescape(s@));
                return out;
            }
            let c = s[i + 1];
            if c == 'n' {
                out.push('\n');
            } else if c == 't' {
                out.push('\t');
            } else if c == 'r' {
                out.push('\r');
            } else if c == '"' {
                out.push('"');
            } else if c == '\\' {
                out.push('\\');
            } else {
                out.push('\\');
                out.push(c);
            }
            assert(out@ =~= before + escape_of(c));
            assert(out@ + unescape_from(s@, i + 2) =~= before + unescape_from(s@, i as int));
            i = i + 2;
        } else {
            out.push(s[i]);
            assert(out@ + unescape_from(s@, i + 1) =~= before + unescape_from(s@, i as int));
            i = i + 1;
        }
    }
    assert(unescape_from(s@, i as int) =~= Seq::<char>::empty());
    assert(out@ =~= unescape(s@));
    out
}

/// A value without backslashes is left as it is by unescaping.
pub proof fn law_unescape_plain(s: Seq<char>)
    requires
        forall|k: int| 0 <= k < s.len() ==> s[k] != '\\',
    ensures
        unescape(s) == s,
{
    lemma_unescape_plain_from(s, 0);
    assert(s.skip(0) =~= s);
}

proof fn lemma_unescape_plain_from(s: Seq<char>, i: int)
    requires
        0 <= i <= s.len(),
        forall|k: int| 0 <= k < s.len() ==> s[k] != '\\',
    ensures
        unescape_from(s, i) == s.skip(i),
    decreases s.len() - i,
{
    if i < s.len() {
        lemma_unescape_plain_from(s, i + 1);
        assert(s.skip(i) =~= seq![s[i]] + s.skip(i + 1));
    } else {
        assert(s.skip(i) =~= Seq::<char>::empty());
    }
}

/// A quoted value's text: double-quoted text has its escapes resolved,
/// single-quoted text is kept as written.
pub open spec fn quoted_text(q: char, s: Seq<char>) -> Seq<char> {
    if q == '"' {
        unescape(s)
    } else {
        s
    }
}

fn quoted_text_exec(q: char, s: Vec<char>) -> (r: Vec<char>)
    ensures
        r@ == quoted_text(q, s@),
{
    if q == '"' {
        unescape_double_quoted(&s)
    } else {
        s
    }
}

// ---------------------------------------------------------------------
// Values
// ---------------------------------------------------------------------

/// A quoted value that does not close on its first line: lines from `j` on
/// are added, each after a newline, until one holds the closing quote.
/// Gives the value and the number of lines used from line `cur` on.
pub open spec fn multiline(
    lines: Seq<Seq<char>>,
    q: char,
    cur: int,
    j: int,
    buf: Seq<char>,
) -> (Seq<char>, int)
    decreases lines.len() - j,
{
    if j < 0 || j >= lines.len() {
        (quoted_text(q, buf), j - cur)
    } else {
        let b = buf.push('\n');
        match find_quote(lines[j], q, 0) {
            Some(p) => (quoted_text(q, b + lines[j].take(p)), j - cur + 1),
            None => multiline(lines, q, cur, j + 1, b + lines[j]),
        }
    }
}

/// The value after `=` (already trimmed) on line `cur`, and how many lines
/// it takes.
pub open spec fn value_of(raw: Seq<char>, lines: Seq<Seq<char>>, cur: int) -> (Seq<char>, int) {
    if raw.len() == 0 {
        (Seq::empty(), 1)
    } else if is_quote(raw[0]) {
        let q = raw[0];
        let after = raw.drop_first();
        match find_quote(after, q, 0) {
            Some(p) => (quoted_text(q, after.take(p)), 1),
            None => multiline(lines, q, cur, cur + 1, after),
        }
    } else {
        match find_pattern(raw, " #"@) {
            Some(p) => (trim_end(raw.take(p)), 1),
            None => (raw, 1),
        }
    }
}

proof fn lemma_multiline_count(lines: Seq<Seq<char>>, q: char, cur: int, j: int, buf: Seq<char>)
    requires
        0 <= cur < j <= lines.len(),
    ensures
        1 <= multiline(lines, q, cur, j, buf).1 <= lines.len() - cur,
    decreases lines.len() - j,
{
    if j < lines.len() {
        if find_quote(lines[j], q, 0) is None {
            lemma_multiline_count(lines, q, cur, j + 1, buf.push('\n') + lines[j]);
        }
    }
}

pub proof fn lemma_value_count(raw: Seq<char>, lines: Seq<Seq<char>>, cur: int)
    requires
        0 <= cur < lines.len(),
    ensures
        1 <= value_of(raw, lines, cur).1 <= lines.len() - cur,
{
    if raw.len() > 0 && is_quote(raw[0]) {
        if find_quote(raw.drop_first(), raw[0], 0) is None {
            lemma_multiline_count(lines, raw[0], cur, cur + 1, raw.drop_first());
        }
    }
}

/// Reads the value after `=` on line `current_line`; gives the value and
/// the number of lines it takes.
pub fn parse_value(raw: &[char], lines: &Vec<Vec<char>>, current_line: usize) -> (r: (
    Vec<char>,
    usize,
))
    requires
        current_line < lines.len(),
    ensures
        (r.0@, r.1 as int) == value_of(raw@, views(lines@), current_line as int),
        1 <= r.1 <= lines.len() - current_line,
{
    let ghost ls = views(lines@);
    proof {
        lemma_value_count(raw@, ls, current_line as int);
    }
    if raw.len() == 0 {
        return (Vec::new(), 1);
    }
    let q = raw[0];
    if q == '"' || q == '\'' {
        let after = slice_chars(raw, 1, raw.len());
        assert(after@ =~= raw@.drop_first());
        match find_unescaped_quote(&after, q) {
            Some(p) => {
                proof {
                    lemma_find_quote(after@, q, 0);
                }
                let v = slice_chars(&after, 0, p);
                assert(v@ =~= after@.take(p as int));
                return (quoted_text_exec(q, v), 1);
            },
            None => {},
        }
        let mut buf = after;
        let mut j = current_line + 1;
        while j < lines.len()
            invariant
                current_line < j <= lines.len(),
                ls == views(lines@),
                multiline(ls, q, current_line as int, j as int, buf@) == value_of(
                    raw@,
                    ls,
                    current_line as int,
                ),
            decreases lines.len() - j,
        {
            buf.push('\n');
            let next_line = &lines[j];
            assert(next_line@ == ls[j as int]);
            match find_unescaped_quote(next_line, q) {
                Some(p) => {
                    proof {
                        lemma_find_quote(next_line@, q, 0);
                    }
                    let part = slice_chars(next_line, 0, p);
                    assert(part@ =~= next_line@.take(p as int));
                    append_chars(&mut buf, &part);
                    return (quoted_text_exec(q, buf), j - current_line + 1);
                },
                None => {},
            }
            append_chars(&mut buf, next_line);
            j = j + 1;
        }
        return (quoted_text_exec(q, buf), j - current_line);
    }
    let pat = chars_of(" #");
    match find_pattern_exec(raw, &pat) {
        Some(p) => {
            let head = slice_chars(raw, 0, p);
            assert(head@ =~= raw@.take(p as int));
            (trimmed_end(&head), 1)
        },
        None => (slice_chars(raw, 0, raw.len()), 1),
    }
}

// ---------------------------------------------------------------------
// Interpolation
// ---------------------------------------------------------------------

/// What `char::is_alphanumeric` gives for `c`.
pub uninterp spec fn char_alphanumeric(c: char) -> bool;

/// std's `char::is_alphanumeric`. Trusted: the result is a function of `c`
/// alone (std decides it from the Unicode `Alphabetic` and `Numeric`
/// properties); which characters pass is left unsaid here.
#[verifier::external_body]
fn is_alphanumeric(c: char) -> (r: bool)
    ensures
        r == char_alphanumeric(c),
{
    c.is_alphanumeric()
}

/// Whether `alnum` marks `c`, at `j`, as alphanumeric; flags past the end
/// of `alnum` are false.
pub open spec fn flag_at(alnum: Seq<bool>, j: int) -> bool {
    0 <= j < alnum.len() && alnum[j]
}

/// Whether the character at `j` may appear in a `$VAR` name, `alnum`
/// telling which characters are alphanumeric.
pub open spec fn is_name_at(s: Seq<char>, alnum: Seq<bool>, j: int) -> bool {
    flag_at(alnum, j) || s[j] == '_'
}

/// End of the run of name characters in `s` starting at `j`.
pub open spec fn name_end(s: Seq<char>, alnum: Seq<bool>, j: int) -> int
    decreases s.len() - j,
{
    if j < 0 || j >= s.len() {
        if j < 0 { 0 } else { s.len() as int }
    } else if is_name_at(s, alnum, j) {
        name_end(s, alnum, j + 1)
    } else {
        j
    }
}

pub proof fn lemma_name_end(s: Seq<char>, alnum: Seq<bool>, j: int)
    requires
        0 <= j <= s.len(),
    ensures
        j <= name_end(s, alnum, j) <= s.len(),
    decreases s.len() - j,
{
    if j < s.len() && is_name_at(s, alnum, j) {
        lemma_name_end(s, alnum, j + 1);
    }
}

/// The value of a variable for interpolation (empty when undefined).
pub open spec fn var_value(es: Seq<EntryModel>, name: Seq<char>) -> Seq<char> {
    match lookup(es, name) {
        Some(v) => v,
        None => Seq::empty(),
    }
}

/// `s[i..]` with `${NAME}` and `$NAME` references replaced by their values
/// in `es`, `alnum` telling which characters of `s` are alphanumeric.
pub open spec fn interpolate_from(s: Seq<char>, alnum: Seq<bool>, es: Seq<EntryModel>, i: int) -> Seq<
    char,
>
    decreases s.len() - i,
{
    if i < 0 || i >= s.len() {
        Seq::empty()
    } else if s[i] == '$' && i + 1 < s.len() {
        proof {
            lemma_find_from(s, '}', i + 2);
            lemma_name_end(s, alnum, i + 1);
        }
        let close = find_from(s, '}', i + 2);
        if s[i + 1] == '{' && close < s.len() {
            var_value(es, s.subrange(i + 2, close)) + interpolate_from(s, alnum, es, close + 1)
        } else {
            let end = name_end(s, alnum, i + 1);
            if end > i + 1 {
                var_value(es, s.subrange(i + 1, end)) + interpolate_from(s, alnum, es, end)
            } else {
                seq!['$'] + interpolate_from(s, alnum, es, i + 1)
            }
        }
    } else {
        seq![s[i]] + interpolate_from(s, alnum, es, i + 1)
    }
}

/// `s` with its variable references replaced by their values in `es`,
/// `alnum` telling which characters of `s` are alphanumeric.
pub open spec fn interpolate_with_spec(s: Seq<char>, alnum: Seq<bool>, es: Seq<EntryModel>) -> Seq<
    char,
> {
    interpolate_from(s, alnum, es, 0)
}

/// Which characters of `s` are alphanumeric, as `char::is_alphanumeric`
/// tells.
pub open spec fn alnum_flags(s: Seq<char>) -> Seq<bool> {
    Seq::new(s.len(), |k: int| char_alphanumeric(s[k]))
}

/// `s` with its variable references replaced by their values in `es`.
pub open spec fn interpolate_spec(s: Seq<char>, es: Seq<EntryModel>) -> Seq<char> {
    interpolate_with_spec(s, alnum_flags(s), es)
}

/// Which characters of `value` are alphanumeric.
pub fn alphanumeric_flags(value: &[char]) -> (r: Vec<bool>)
    ensures
        r@ == alnum_flags(value@),
{
    let mut r: Vec<bool> = Vec::new();
    let mut i: usize = 0;
    while i < value.len()
        invariant
            i <= value.len(),
            r@ == alnum_flags(value@).take(i as int),
        decreases value.len() - i,
    {
        r.push(is_alphanumeric(value[i]));
        i = i + 1;
        assert(r@ =~= alnum_flags(value@).take(i as int));
    }
    assert(r@ =~= alnum_flags(value@));
    r
}

/// Replaces `$VAR` and `${VAR}` references in `value` by their values in
/// `vars` (undefined variables become empty); `alnum[k]` tells whether
/// character `k` is alphanumeric (false past the end of `alnum`).
pub fn interpolate_with(value: &[char], alnum: &[bool], vars: &EnvMap) -> (r: Vec<char>)
    ensures
        r@ == interpolate_with_spec(value@, alnum@, vars.model()),
{
    let ghost es = vars.model();
    let ghost al = alnum@;
    let mut result: Vec<char> = Vec::new();
    let mut i: usize = 0;
    while i < value.len()
        invariant
            i <= value.len(),
            es == vars.model(),
            al == alnum@,
            result@ + interpolate_from(value@, al, es, i as int) == interpolate_with_spec(
                value@,
                al,
                es,
            ),
        decreases value.len() - i,
    {
        let ghost before = result@;
        if value[i] == '$' && i + 1 < value.len() {
            let close = find_char(value, '}', i + 2);
            if value[i + 1] == '{' && close < value.len() {
                let name = slice_chars(value, i + 2, close);
                match vars.lookup_chars(&name) {
                    Some(v) => append_chars(&mut result, v),
                    None => {},
                }
                assert(result@ =~= before + var_value(es, value@.subrange(i + 2, close as int)));
                assert(result@ + interpolate_from(value@, al, es, close + 1) =~= before
                    + interpolate_from(value@, al, es, i as int));
                i = close + 1;
                continue;
            }
            let start = i + 1;
            let mut end = start;
            proof {
                lemma_name_end(value@, al, start as int);
            }
            while end < value.len() && ((end < alnum.len() && alnum[end]) || value[end] == '_')
                invariant
                    start <= end <= value.len(),
                    al == alnum@,
                    name_end(value@, al, end as int) == name_end(value@, al, start as int),
                decreases value.len() - end,
            {
                end = end + 1;
            }
            if end > start {
                let name = slice_chars(value, start, end);
                match vars.lookup_chars(&name) {
                    Some(v) => append_chars(&mut result, v),
                    None => {},
                }
                assert(result@ =~= before + var_value(es, value@.subrange(start as int, end as int)));
                assert(result@ + interpolate_from(value@, al, es, end as int) =~= before
                    + interpolate_from(value@, al, es, i as int));
                i = end;
                continue;
            }
        }
        result.push(value[i]);
        assert(result@ + interpolate_from(value@, al, es, i + 1) =~= before + interpolate_from(
            value@,
            al,
            es,
            i as int,
        ));
        i = i + 1;
    }
    assert(interpolate_from(value@, al, es, i as int) =~= Seq::<char>::empty());
    assert(result@ =~= interpolate_with_spec(value@, al, es));
    result
}

/// Replaces `$VAR` and `${VAR}` references in `value` by their values in
/// `vars` (undefined variables become empty).
pub fn interpolate(value: &[char], vars: &EnvMap) -> (r: Vec<char>)
    ensures
        r@ == interpolate_spec(value@, vars.model()),
{
    let alnum = alphanumeric_flags(value);
    interpolate_with(value, &alnum, vars)
}

/// A value without `$` is left as it is by interpolation.
pub proof fn law_interpolate_plain(s: Seq<char>, es: Seq<EntryModel>)
    requires
        forall|k: int| 0 <= k < s.len() ==> s[k] != '$',
    ensures
        interpolate_spec(s, es) == s,
{
    lemma_interpolate_plain_from(s, alnum_flags(s), es, 0);
    assert(s.skip(0) =~= s);
}

proof fn lemma_interpolate_plain_from(s: Seq<char>, alnum: Seq<bool>, es: Seq<EntryModel>, i: int)
    requires
        0 <= i <= s.len(),
        forall|k: int| 0 <= k < s.len() ==> s[k] != '$',
    ensures
        interpolate_from(s, alnum, es, i) == s.skip(i),
    decreases s.len() - i,
{
    if i < s.len() {
        lemma_interpolate_plain_from(s, alnum, es, i + 1);
        assert(s.skip(i) =~= seq![s[i]] + s.skip(i + 1));
    } else {
        assert(s.skip(i) =~= Seq::<char>::empty());
    }
}

/// `first`, then each of `rest` after a newline.
pub open spec fn newline_joined(first: Seq<char>, rest: Seq<Seq<char>>) -> Seq<char>
    decreases rest.len(),
{
    if rest.len() == 0 {
        first
    } else {
        newline_joined(first, rest.drop_last()) + seq!['\n'] + rest.last()
    }
}

proof fn lemma_multiline_joined(
    lines: Seq<Seq<char>>,
    q: char,
    cur: int,
    m: int,
    p: int,
    first: Seq<char>,
    j: int,
)
    requires
        0 <= cur,
        1 <= m,
        cur + m < lines.len(),
        cur + 1 <= j <= cur + m,
        forall|k: int| cur + 1 <= k < cur + m ==> find_quote(#[trigger] lines[k], q, 0) is None,
        find_quote(lines[cur + m], q, 0) == Some(p),
    ensures
        multiline(lines, q, cur, j, newline_joined(first, lines.subrange(cur + 1, j))) == (
            quoted_text(
                q,
                newline_joined(first, lines.subrange(cur + 1, cur + m).push(lines[cur + m].take(p))),
            ),
            m + 1,
        ),
    decreases cur + m - j,
{
    let buf = newline_joined(first, lines.subrange(cur + 1, j));
    if j == cur + m {
        let rest = lines.subrange(cur + 1, cur + m).push(lines[cur + m].take(p));
        assert(rest.drop_last() =~= lines.subrange(cur + 1, cur + m));
        assert(buf.push('\n') + lines[j].take(p) =~= newline_joined(first, rest));
    } else {
        let next = lines.subrange(cur + 1, j + 1);
        assert(next.drop_last() =~= lines.subrange(cur + 1, j));
        assert(next.last() == lines[j]);
        assert(buf.push('\n') + lines[j] =~= newline_joined(first, next));
        lemma_multiline_joined(lines, q, cur, m, p, first, j + 1);
    }
}

/// A quoted value (single or double quotes) that closes `m` lines further
/// down is the text after the opening quote, then each further line after
/// a newline, up to the closing quote; it takes `m + 1` lines. Single-quoted
/// text is kept as written, double-quoted text has its escapes resolved.
pub proof fn law_multiline_value(raw: Seq<char>, lines: Seq<Seq<char>>, cur: int, m: int, p: int)
    requires
        0 <= cur,
        1 <= m,
        cur + m < lines.len(),
        raw.len() > 0,
        raw[0] == '"' || raw[0] == '\'',
        find_quote(raw.drop_first(), raw[0], 0) is None,
        forall|k: int| cur + 1 <= k < cur + m ==> find_quote(#[trigger] lines[k], raw[0], 0) is None,
        find_quote(lines[cur + m], raw[0], 0) == Some(p),
    ensures
        ({
            let text = newline_joined(
                raw.drop_first(),
                lines.subrange(cur + 1, cur + m).push(lines[cur + m].take(p)),
            );
            value_of(raw, lines, cur) == (
                if raw[0] == '"' {
                    unescape(text)
                } else {
                    text
                },
                m + 1,
            )
        }),
{
    assert(lines.subrange(cur + 1, cur + 1) =~= Seq::<Seq<char>>::empty());
    lemma_multiline_joined(lines, raw[0], cur, m, p, raw.drop_first(), cur + 1);
}

// ---------------------------------------------------------------------
// Files
// ---------------------------------------------------------------------

/// A line with an `export ` prefix has it removed.
pub open spec fn strip_export(line: Seq<char>) -> Seq<char> {
    if occurs_at(line, "export "@, 0) {
        trim_start(line.skip(7))
    } else {
        line
    }
}

/// Reads the assignments of `lines` from line `i` on into `es`.
pub open spec fn scan_lines(lines: Seq<Seq<char>>, i: int, es: Seq<EntryModel>) -> Seq<EntryModel>
    decreases lines.len() - i,
{
    if i < 0 || i >= lines.len() {
        es
    } else {
        let line = trim(lines[i]);
        if line.len() == 0 || line[0] == '#' {
            scan_lines(lines, i + 1, es)
        } else {
            let l = strip_export(line);
            let eq = find_from(l, '=', 0);
            if eq >= l.len() {
                scan_lines(lines, i + 1, es)
            } else {
                let key = trim(l.take(eq));
                let raw = trim(l.skip(eq + 1));
                let (v, n) = value_of(raw, lines, i);
                proof {
                    lemma_value_count(raw, lines, i);
                }
                scan_lines(lines, i + n, assoc_insert(es, key, v))
            }
        }
    }
}

/// Interpolates the values of `es` from entry `k` on, in entry order, each
/// against the map as it stands at that point.
pub open spec fn interpolate_entries(es: Seq<EntryModel>, k: int) -> Seq<EntryModel>
    decreases es.len() - k,
{
    if k < 0 || k >= es.len() {
        es
    } else {
        interpolate_entries(es.update(k, (es[k].0, interpolate_spec(es[k].1, es))), k + 1)
    }
}

proof fn lemma_scan_distinct(lines: Seq<Seq<char>>, i: int, es: Seq<EntryModel>)
    requires
        distinct_keys(es),
    ensures
        distinct_keys(scan_lines(lines, i, es)),
    decreases lines.len() - i,
{
    if 0 <= i < lines.len() {
        let line = trim(lines[i]);
        let l = strip_export(line);
        let eq = find_from(l, '=', 0);
        if line.len() == 0 || line[0] == '#' || eq >= l.len() {
            lemma_scan_distinct(lines, i + 1, es);
        } else {
            let key = trim(l.take(eq));
            let raw = trim(l.skip(eq + 1));
            let (v, n) = value_of(raw, lines, i);
            lemma_value_count(raw, lines, i);
            law_insert_keeps_keys_distinct(es, key, v);
            lemma_scan_distinct(lines, i + n, assoc_insert(es, key, v));
        }
    }
}

proof fn lemma_interpolate_keys(es: Seq<EntryModel>, k: int)
    requires
        0 <= k,
    ensures
        interpolate_entries(es, k).len() == es.len(),
        forall|j: int| 0 <= j < es.len() ==> #[trigger] interpolate_entries(es, k)[j].0 == es[j].0,
    decreases es.len() - k,
{
    if k < es.len() {
        let next = es.update(k, (es[k].0, interpolate_spec(es[k].1, es)));
        lemma_interpolate_keys(next, k + 1);
        assert forall|j: int| 0 <= j < es.len() implies #[trigger] interpolate_entries(es, k)[j].0 == es[j].0 by {
            assert(interpolate_entries(es, k) == interpolate_entries(next, k + 1));
            assert(next[j].0 == es[j].0);
        }
    }
}

/// A parsed file defines each key once.
pub proof fn law_parsed_keys_distinct(content: Seq<char>)
    ensures
        distinct_keys(parse_env(content)),
{
    let es = scan_lines(lines_of(content), 0, Seq::empty());
    lemma_scan_distinct(lines_of(content), 0, Seq::empty());
    lemma_interpolate_keys(es, 0);
    let r = parse_env(content);
    assert forall|i: int, j: int| 0 <= i < j < r.len() implies r[i].0 != r[j].0 by {
        assert(r[i].0 == es[i].0 && r[j].0 == es[j].0);
    }
}

/// The entries that the text of a `.env` file defines.
pub open spec fn parse_env(content: Seq<char>) -> Seq<EntryModel> {
    interpolate_entries(scan_lines(lines_of(content), 0, Seq::empty()), 0)
}

/// Parses the text of a `.env` file into its map of keys to values.
pub fn parse_env_content(content: &str) -> (map: EnvMap)
    ensures
        map.model() == parse_env(content@),
        distinct_keys(map.model()),
{
    proof {
        law_parsed_keys_distinct(content@);
    }
    let text = chars_of(content);
    let lines = split_lines(&text);
    let ghost ls = views(lines@);
    let mut map = EnvMap::new();
    let mut i: usize = 0;
    let export = chars_of("export ");
    proof {
        reveal_strlit("export ");
    }
    assert(export@.len() == 7);
    while i < lines.len()
        invariant
            i <= lines.len(),
            ls == views(lines@),
            ls == lines_of(text@),
            text@ == content@,
            export@ == "export "@,
            export@.len() == 7,
            scan_lines(ls, i as int, map.model()) == scan_lines(ls, 0, Seq::empty()),
        decreases lines.len() - i,
    {
        assert(lines[i as int]@ == ls[i as int]);
        let line = trimmed(&lines[i]);
        if line.len() == 0 || line[0] == '#' {
            i = i + 1;
            continue;
        }
        let line = if occurs_at_exec(&line, &export, 0) {
            let rest = slice_chars(&line, 7, line.len());
            assert(rest@ =~= line@.skip(7));
            trimmed_start(&rest)
        } else {
            line
        };
        let eq = find_char(&line, '=', 0);
        if eq >= line.len() {
            i = i + 1;
            continue;
        }
        let key_part = slice_chars(&line, 0, eq);
        assert(key_part@ =~= line@.take(eq as int));
        let key = trimmed(&key_part);
        let raw_part = slice_chars(&line, eq + 1, line.len());
        assert(raw_part@ =~= line@.skip(eq + 1));
        let raw = trimmed(&raw_part);
        let (value, consumed) = parse_value(&raw, &lines, i);
        map.insert_chars(key, value);
        i = i + consumed;
    }
    let ghost scanned = map.model();
    let mut k: usize = 0;
    while k < map.entries.len()
        invariant
            k <= map.entries.len(),
            map.model().len() == scanned.len(),
            interpolate_entries(map.model(), k as int) == interpolate_entries(scanned, 0),
        decreases map.entries.len() - k,
    {
        let value = interpolate(&map.entries[k].1, &map);
        let ghost before = map.model();
        let key = slice_chars(&map.entries[k].0, 0, map.entries[k].0.len());
        assert(key@ =~= before[k as int].0);
        map.entries.set(k, (key, value));
        assert(map.model() =~= before.update(
            k as int,
            (before[k as int].0, interpolate_spec(before[k as int].1, before)),
        ));
        k = k + 1;
    }
    map
}

} // verus!
