//! Listening ports, read from `lsof -i -P -n` output: parsing, ordering,
//! de-duplication and selection.
use vstd::prelude::*;

use crate::proc_tree::{increasing_ids, insert_sorted};
use crate::text::{
    after_last, after_last_chars, before_first, before_first_chars, chars_of, eq_ignore_ascii_case,
    eq_ignore_case, find_pattern, find_pattern_exec, join, join_chars, lines_of, parse_unsigned,
    parse_unsigned_exec, split_lines, split_words, string_of, views, words,
};

verus! {

/// A process holding a port.
#[derive(Debug, Clone)]
pub struct PortEntry {
    pub port: u16,
    pub pid: u32,
    pub process: String,
    pub user: String,
    pub proto: String,
}

/// A port entry as plain values: port, pid, process name, user, protocol.
pub type PortModel = (u16, u32, Seq<char>, Seq<char>, Seq<char>);

impl PortEntry {
    /// The entry as plain values.
    pub open spec fn model(&self) -> PortModel {
        (self.port, self.pid, self.process@, self.user@, self.proto@)
    }

    /// A copy of this entry.
    pub fn duplicate(&self) -> (r: PortEntry)
        ensures
            r.model() == self.model(),
    {
        PortEntry {
            port: self.port,
            pid: self.pid,
            process: self.process.clone(),
            user: self.user.clone(),
            proto: self.proto.clone(),
        }
    }
}

/// The models of a list of entries.
pub open spec fn entries_model(v: Seq<PortEntry>) -> Seq<PortModel> {
    v.map_values(|e: PortEntry| e.model())
}

// ---------------------------------------------------------------------
// Parsing
// ---------------------------------------------------------------------

/// The port of an address such as `*:3000`, `[::1]:3000` or
/// `127.0.0.1:8080->10.0.0.1:443`: the text after the last colon, up to an
/// arrow.
pub open spec fn port_field(addr: Seq<char>) -> Seq<char> {
    before_first(after_last(addr, ':'), "->"@)
}

/// The listening port that one `lsof` line describes: a TCP socket in
/// LISTEN state or any UDP socket; other lines give none.
pub open spec fn entry_of_line(line: Seq<char>) -> Option<PortModel> {
    let parts = words(line);
    if parts.len() < 9 {
        None
    } else {
        match parse_unsigned(parts[1], 4294967295) {
            Err(_) => None,
            Ok(pid) => {
                let name = join(parts.skip(8), " "@);
                let is_listen = find_pattern(name, "(LISTEN)"@) is Some;
                let is_udp = eq_ignore_ascii_case(parts[7], "UDP"@);
                if !is_listen && !is_udp {
                    None
                } else if words(name).len() == 0 {
                    None
                } else {
                    match parse_unsigned(port_field(words(name)[0]), 65535) {
                        Err(_) => None,
                        Ok(port) => Some(
                            (
                                port as u16,
                                pid as u32,
                                parts[0],
                                parts[2],
                                if is_udp {
                                    "UDP"@
                                } else {
                                    "TCP"@
                                },
                            ),
                        ),
                    }
                }
            },
        }
    }
}

fn name_column(parts: &Vec<Vec<char>>) -> (r: Vec<char>)
    requires
        parts.len() >= 9,
    ensures
        r@ == join(views(parts@).skip(8), " "@),
{
    let sep = chars_of(" ");
    let r = join_chars(parts, 8, &sep);
    assert(views(parts@.skip(8)) =~= views(parts@).skip(8));
    r
}

fn port_of_addr(addr: &[char]) -> (r: Vec<char>)
    ensures
        r@ == port_field(addr@),
{
    let a = after_last_chars(addr, ':');
    let arrow = chars_of("->");
    before_first_chars(&a, &arrow)
}

/// Reads one line of `lsof` output.
pub fn parse_lsof_line(line: &[char]) -> (r: Option<PortEntry>)
    ensures
        match r {
            Some(e) => entry_of_line(line@) == Some(e.model()),
            None => entry_of_line(line@) is None,
        },
{
    let parts = split_words(line);
    let ghost ws = words(line@);
    assert(ws.len() == parts@.len());
    if parts.len() < 9 {
        return None;
    }
    assert(parts@[0]@ == ws[0] && parts@[1]@ == ws[1] && parts@[2]@ == ws[2] && parts@[7]@ == ws[7]);
    let pid = match parse_unsigned_exec(&parts[1], 4294967295) {
        Ok(p) => p as u32,
        Err(_) => {
            return None;
        },
    };
    let name = name_column(&parts);
    let listen = chars_of("(LISTEN)");
    let is_listen = find_pattern_exec(&name, &listen).is_some();
    let udp = chars_of("UDP");
    let is_udp = eq_ignore_case(&parts[7], &udp);
    if !is_listen && !is_udp {
        return None;
    }
    let name_words = split_words(&name);
    assert(views(name_words@) == words(name@));
    if name_words.len() == 0 {
        return None;
    }
    assert(name_words@[0]@ == words(name@)[0]);
    let port_text = port_of_addr(&name_words[0]);
    let port = match parse_unsigned_exec(&port_text, 65535) {
        Ok(p) => p as u16,
        Err(_) => {
            return None;
        },
    };
    let proto = if is_udp {
        String::from_str("UDP")
    } else {
        String::from_str("TCP")
    };
    Some(
        PortEntry {
            port,
            pid,
            process: string_of(&parts[0]),
            user: string_of(&parts[2]),
            proto,
        },
    )
}

// ---------------------------------------------------------------------
// Ordering and de-duplication
// ---------------------------------------------------------------------

/// The entries of lines `i..`, in order.
pub open spec fn entries_from(lines: Seq<Seq<char>>, i: int) -> Seq<PortModel>
    decreases lines.len() - i,
{
    if i < 0 || i >= lines.len() {
        Seq::empty()
    } else {
        match entry_of_line(lines[i]) {
            Some(e) => seq![e] + entries_from(lines, i + 1),
            None => entries_from(lines, i + 1),
        }
    }
}

/// Position at which an entry with port `p` goes into `s`: after every
/// entry with a port no greater than `p`, searching from `j`.
pub open spec fn insert_pos(s: Seq<PortModel>, p: u16, j: int) -> int
    decreases s.len() - j,
{
    if j < 0 || j >= s.len() {
        s.len() as int
    } else if s[j].0 > p {
        j
    } else {
        insert_pos(s, p, j + 1)
    }
}

/// `s` stably sorted by port (`sort_by_key` on the port).
pub open spec fn sort_by_port(s: Seq<PortModel>) -> Seq<PortModel>
    decreases s.len(),
{
    if s.len() == 0 {
        s
    } else {
        let t = sort_by_port(s.drop_last());
        t.insert(insert_pos(t, s.last().0, 0), s.last())
    }
}

/// Whether two entries are for the same port and process.
pub open spec fn same_socket(a: PortModel, b: PortModel) -> bool {
    a.0 == b.0 && a.1 == b.1
}

/// Whether some entry of `d` is for the same port and process as `e`.
pub open spec fn seen_socket(d: Seq<PortModel>, e: PortModel) -> bool {
    exists|k: int| 0 <= k < d.len() && same_socket(#[trigger] d[k], e)
}

/// `s` with each entry dropped that is for the same port and process as an
/// entry kept before it.
pub open spec fn dedup_sockets(s: Seq<PortModel>) -> Seq<PortModel>
    decreases s.len(),
{
    if s.len() == 0 {
        s
    } else {
        let d = dedup_sockets(s.drop_last());
        if seen_socket(d, s.last()) {
            d
        } else {
            d.push(s.last())
        }
    }
}

/// The listening ports in `lsof` output (header skipped), ordered by port,
/// without repeated entries for the same port and process.
pub open spec fn listening_spec(text: Seq<char>) -> Seq<PortModel> {
    dedup_sockets(sort_by_port(entries_from(lines_of(text), 1)))
}

proof fn lemma_insert_pos(s: Seq<PortModel>, p: u16, j: int)
    requires
        0 <= j <= s.len(),
    ensures
        j <= insert_pos(s, p, j) <= s.len(),
        forall|k: int| j <= k < insert_pos(s, p, j) ==> (#[trigger] s[k]).0 <= p,
        insert_pos(s, p, j) < s.len() ==> s[insert_pos(s, p, j)].0 > p,
    decreases s.len() - j,
{
    if j < s.len() && s[j].0 <= p {
        lemma_insert_pos(s, p, j + 1);
    }
}

fn insert_position(v: &Vec<PortEntry>, p: u16) -> (r: usize)
    ensures
        r == insert_pos(entries_model(v@), p, 0),
{
    proof {
        lemma_insert_pos(entries_model(v@), p, 0);
    }
    let mut j: usize = 0;
    while j < v.len() && v[j].port <= p
        invariant
            j <= v.len(),
            insert_pos(entries_model(v@), p, j as int) == insert_pos(entries_model(v@), p, 0),
        decreases v.len() - j,
    {
        j = j + 1;
    }
    j
}

/// Stably sorts entries by port.
pub fn sort_entries_by_port(v: Vec<PortEntry>) -> (r: Vec<PortEntry>)
    ensures
        entries_model(r@) == sort_by_port(entries_model(v@)),
{
    let mut out: Vec<PortEntry> = Vec::new();
    let mut i: usize = 0;
    assert(entries_model(v@).take(0) =~= Seq::<PortModel>::empty());
    while i < v.len()
        invariant
            i <= v.len(),
            entries_model(out@) == sort_by_port(entries_model(v@).take(i as int)),
        decreases v.len() - i,
    {
        let e = v[i].duplicate();
        let p = insert_position(&out, e.port);
        let ghost before = entries_model(out@);
        let ghost em = e.model();
        proof {
            lemma_insert_pos(before, e.port, 0);
        }
        out.insert(p, e);
        proof {
            let taken = entries_model(v@).take(i + 1);
            assert(taken.drop_last() =~= entries_model(v@).take(i as int));
            assert(taken.last() == em);
            assert(entries_model(out@) =~= before.insert(p as int, em));
        }
        i = i + 1;
    }
    assert(entries_model(v@).take(v.len() as int) =~= entries_model(v@));
    out
}

/// Drops each entry that is for the same port and process as an entry
/// kept before it.
pub fn dedup_entries(v: Vec<PortEntry>) -> (r: Vec<PortEntry>)
    ensures
        entries_model(r@) == dedup_sockets(entries_model(v@)),
{
    let mut out: Vec<PortEntry> = Vec::new();
    let mut i: usize = 0;
    assert(entries_model(v@).take(0) =~= Seq::<PortModel>::empty());
    while i < v.len()
        invariant
            i <= v.len(),
            entries_model(out@) == dedup_sockets(entries_model(v@).take(i as int)),
        decreases v.len() - i,
    {
        let ghost taken = entries_model(v@).take(i + 1);
        let ghost d = entries_model(out@);
        assert(taken.drop_last() =~= entries_model(v@).take(i as int));
        assert(taken.last() == v@[i as int].model());
        let mut seen = false;
        let mut k: usize = 0;
        while k < out.len()
            invariant
                k <= out.len(),
                d == entries_model(out@),
                i < v.len(),
                seen == exists|j: int| 0 <= j < k && same_socket(#[trigger] d[j], v@[i as int].model()),
            decreases out.len() - k,
        {
            assert(d[k as int] == out@[k as int].model());
            if out[k].port == v[i].port && out[k].pid == v[i].pid {
                seen = true;
            }
            k = k + 1;
        }
        assert(seen == seen_socket(d, v@[i as int].model()));
        if !seen {
            let e = v[i].duplicate();
            out.push(e);
            assert(entries_model(out@) =~= d.push(v@[i as int].model()));
        }
        i = i + 1;
    }
    assert(entries_model(v@).take(v.len() as int) =~= entries_model(v@));
    out
}

/// The listening ports in the output of `lsof -i -P -n`, ordered by port,
/// without repeated entries for the same port and process.
pub fn scan_ports(output: &str) -> (r: Vec<PortEntry>)
    ensures
        entries_model(r@) == listening_spec(output@),
{
    let text = chars_of(output);
    let lines = split_lines(&text);
    let ghost ls = views(lines@);
    let mut entries: Vec<PortEntry> = Vec::new();
    let mut i: usize = 1;
    while i < lines.len()
        invariant
            1 <= i,
            i <= lines.len() || lines.len() == 0,
            ls == views(lines@),
            ls == lines_of(output@),
            entries_model(entries@) + entries_from(ls, i as int) == entries_from(ls, 1),
        decreases lines.len() - i,
    {
        assert(lines@[i as int]@ == ls[i as int]);
        let ghost before = entries_model(entries@);
        match parse_lsof_line(&lines[i]) {
            Some(e) => {
                entries.push(e);
                assert(entries_model(entries@) + entries_from(ls, i + 1) =~= before + entries_from(
                    ls,
                    i as int,
                ));
            },
            None => {},
        }
        i = i + 1;
    }
    proof {
        if lines.len() <= i {
            assert(entries_from(ls, i as int) =~= Seq::<PortModel>::empty());
            assert(entries_model(entries@) =~= entries_from(ls, 1));
        }
    }
    let sorted = sort_entries_by_port(entries);
    dedup_entries(sorted)
}

// ---------------------------------------------------------------------
// Properties of the ordering
// ---------------------------------------------------------------------

/// Whether the entries' ports never decrease.
pub open spec fn ports_ascending(s: Seq<PortModel>) -> bool {
    forall|i: int, j: int| 0 <= i < j < s.len() ==> s[i].0 <= s[j].0
}

proof fn lemma_sort_ascending(s: Seq<PortModel>)
    ensures
        ports_ascending(sort_by_port(s)),
        sort_by_port(s).len() == s.len(),
    decreases s.len(),
{
    if s.len() > 0 {
        let t = sort_by_port(s.drop_last());
        lemma_sort_ascending(s.drop_last());
        let p = s.last().0;
        let k = insert_pos(t, p, 0);
        lemma_insert_pos(t, p, 0);
        let u = t.insert(k, s.last());
        assert forall|i: int, j: int| 0 <= i < j < u.len() implies u[i].0 <= u[j].0 by {
            if j < k {
                assert(u[i] == t[i] && u[j] == t[j]);
            } else if j == k {
                assert(u[i] == t[i]);
            } else if i < k {
                assert(u[i] == t[i] && u[j] == t[j - 1]);
            } else if i == k {
                assert(u[j] == t[j - 1]);
                assert(t[k].0 > p);
                assert(t[k].0 <= t[j - 1].0 || k == j - 1);
            } else {
                assert(u[i] == t[i - 1] && u[j] == t[j - 1]);
            }
        }
    }
}

proof fn lemma_dedup(s: Seq<PortModel>)
    ensures
        forall|i: int, j: int|
            0 <= i < j < dedup_sockets(s).len() ==> !same_socket(
                #[trigger] dedup_sockets(s)[i],
                #[trigger] dedup_sockets(s)[j],
            ),
        forall|i: int|
            0 <= i < dedup_sockets(s).len() ==> exists|k: int|
                0 <= k < s.len() && s[k] == #[trigger] dedup_sockets(s)[i],
        forall|i: int, j: int|
            0 <= i < j < dedup_sockets(s).len() ==> exists|a: int, b: int|
                0 <= a < b < s.len() && s[a] == #[trigger] dedup_sockets(s)[i] && s[b]
                    == #[trigger] dedup_sockets(s)[j],
    decreases s.len(),
{
    if s.len() > 0 {
        let r = s.drop_last();
        lemma_dedup(r);
        let d = dedup_sockets(r);
        assert forall|i: int| 0 <= i < d.len() implies exists|k: int|
            0 <= k < s.len() && s[k] == #[trigger] d[i] by {
            let k = choose|k: int| 0 <= k < r.len() && r[k] == d[i];
            assert(s[k] == r[k]);
        }
        assert forall|i: int, j: int| 0 <= i < j < d.len() implies exists|a: int, b: int|
            0 <= a < b < s.len() && s[a] == #[trigger] d[i] && s[b] == #[trigger] d[j] by {
            let (a, b) = choose|a: int, b: int| 0 <= a < b < r.len() && r[a] == d[i] && r[b] == d[j];
            assert(s[a] == r[a] && s[b] == r[b]);
        }
        if !seen_socket(d, s.last()) {
            let e = d.push(s.last());
            assert forall|i: int, j: int| 0 <= i < j < e.len() implies !same_socket(
                #[trigger] e[i],
                #[trigger] e[j],
            ) by {
                if j < d.len() {
                    assert(e[i] == d[i] && e[j] == d[j]);
                } else {
                    assert(e[i] == d[i]);
                    if same_socket(d[i], s.last()) {
                        assert(seen_socket(d, s.last()));
                    }
                }
            }
            assert forall|i: int| 0 <= i < e.len() implies exists|k: int|
                0 <= k < s.len() && s[k] == #[trigger] e[i] by {
                if i < d.len() {
                    assert(e[i] == d[i]);
                    let k = choose|k: int| 0 <= k < s.len() && s[k] == d[i];
                } else {
                    assert(s[s.len() - 1] == e[i]);
                }
            }
            assert forall|i: int, j: int| 0 <= i < j < e.len() implies exists|a: int, b: int|
                0 <= a < b < s.len() && s[a] == #[trigger] e[i] && s[b] == #[trigger] e[j] by {
                if j < d.len() {
                    assert(e[i] == d[i] && e[j] == d[j]);
                    let (a, b) = choose|a: int, b: int| 0 <= a < b < s.len() && s[a] == d[i] && s[b] == d[j];
                } else {
                    assert(e[i] == d[i]);
                    let k = choose|k: int| 0 <= k < r.len() && r[k] == d[i];
                    assert(s[k] == e[i] && s[s.len() - 1] == e[j]);
                }
            }
        }
    }
}

/// The listening ports come out in ascending port order, and no two
/// entries are for the same port and process.
pub proof fn law_listening_ordered(text: Seq<char>)
    ensures
        ports_ascending(listening_spec(text)),
        forall|i: int, j: int|
            0 <= i < j < listening_spec(text).len() ==> !same_socket(
                #[trigger] listening_spec(text)[i],
                #[trigger] listening_spec(text)[j],
            ),
{
    let s = sort_by_port(entries_from(lines_of(text), 1));
    lemma_sort_ascending(entries_from(lines_of(text), 1));
    lemma_dedup(s);
    let d = listening_spec(text);
    assert forall|i: int, j: int| 0 <= i < j < d.len() implies d[i].0 <= d[j].0 by {
        let (a, b) = choose|a: int, b: int| 0 <= a < b < s.len() && s[a] == d[i] && s[b] == d[j];
    }
}

// ---------------------------------------------------------------------
// Selection
// ---------------------------------------------------------------------

/// The entries whose port lies in `start..=end`, in order.
pub open spec fn in_range(s: Seq<PortModel>, start: u16, end: u16) -> Seq<PortModel> {
    s.filter(|e: PortModel| start <= e.0 && e.0 <= end)
}

/// The listening ports on port `port` in the output of `lsof -i -P -n`.
pub fn scan_port(output: &str, port: u16) -> (r: Vec<PortEntry>)
    ensures
        entries_model(r@) == in_range(listening_spec(output@), port, port),
{
    let entries = scan_ports(output);
    select_port_range(&entries, port, port)
}

/// The listening ports in `start..=end` in the output of `lsof -i -P -n`.
pub fn scan_port_range(output: &str, start: u16, end: u16) -> (r: Vec<PortEntry>)
    ensures
        entries_model(r@) == in_range(listening_spec(output@), start, end),
{
    let entries = scan_ports(output);
    select_port_range(&entries, start, end)
}

/// The entries whose port lies in `start..=end`, in order.
pub fn select_port_range(entries: &Vec<PortEntry>, start: u16, end: u16) -> (r: Vec<PortEntry>)
    ensures
        entries_model(r@) == in_range(entries_model(entries@), start, end),
{
    let ghost m = entries_model(entries@);
    let mut out: Vec<PortEntry> = Vec::new();
    let mut i: usize = 0;
    assert(m.take(0) =~= Seq::<PortModel>::empty());
    while i < entries.len()
        invariant
            i <= entries.len(),
            m == entries_model(entries@),
            entries_model(out@) == in_range(m.take(i as int), start, end),
        decreases entries.len() - i,
    {
        let ghost before = entries_model(out@);
        proof {
            assert(m.take(i + 1).drop_last() =~= m.take(i as int));
            assert(m.take(i + 1).last() == m[i as int]);
            reveal_with_fuel(Seq::filter, 1);
        }
        let e = &entries[i];
        if e.port >= start && e.port <= end {
            out.push(e.duplicate());
            assert(entries_model(out@) =~= before.push(m[i as int]));
        }
        i = i + 1;
    }
    assert(m.take(entries.len() as int) =~= m);
    out
}

/// The process ids of the entries, ascending and without repeats.
pub fn distinct_pids(entries: &Vec<PortEntry>) -> (r: Vec<u32>)
    ensures
        forall|i: int, j: int| 0 <= i < j < r@.len() ==> r@[i] < r@[j],
        forall|p: u32|
            r@.contains(p) <==> exists|i: int| 0 <= i < entries@.len() && (#[trigger] entries@[i]).pid == p,
{
    let mut r: Vec<u32> = Vec::new();
    let mut i: usize = 0;
    while i < entries.len()
        invariant
            i <= entries.len(),
            increasing_ids(r@),
            forall|p: u32|
                r@.contains(p) <==> exists|k: int| 0 <= k < i && (#[trigger] entries@[k]).pid == p,
        decreases entries.len() - i,
    {
        let p = entries[i].pid;
        let mut found = false;
        let mut a: usize = 0;
        while a < r.len()
            invariant
                a <= r.len(),
                found ==> r@.contains(p),
                !found ==> forall|b: int| 0 <= b < a ==> r@[b] != p,
            decreases r.len() - a,
        {
            if r[a] == p {
                found = true;
            }
            a = a + 1;
        }
        if !found {
            insert_sorted(&mut r, p);
        }
        proof {
            assert forall|q: u32|
                r@.contains(q) <==> exists|k: int| 0 <= k < i + 1 && (#[trigger] entries@[k]).pid == q by {
                if exists|k: int| 0 <= k < i + 1 && (#[trigger] entries@[k]).pid == q {
                    let k = choose|k: int| 0 <= k < i + 1 && (#[trigger] entries@[k]).pid == q;
                    if k == i {
                        assert(q == p);
                    }
                }
                if q == p {
                    assert(entries@[i as int].pid == q);
                }
            }
        }
        i = i + 1;
    }
    r
}

} // verus!
