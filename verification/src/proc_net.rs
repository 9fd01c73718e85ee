//! Network connections of processes, read from `lsof -i -P -n` output.
use vstd::prelude::*;

use crate::text::{
    chars_of, decimal, find_pattern, find_pattern_exec, occurs_at, lines_of, parse_unsigned, parse_unsigned_exec,
    rfind, rfind_char, slice_chars, split_lines, split_words, string_of, strip_leading,
    strip_leading_chars, strip_trailing, strip_trailing_chars, views, words,
};

verus! {

/// One network connection (or listening socket) of a process.
#[derive(Debug, Clone)]
pub struct NetConn {
    pub proto: String,
    pub local_addr: String,
    pub local_port: u16,
    pub remote_addr: String,
    pub remote_port: u16,
    /// LISTEN, ESTABLISHED, etc.
    pub state: String,
}

/// A connection as plain values: protocol, local address and port, remote
/// address and port, state.
pub type ConnModel = (Seq<char>, Seq<char>, u16, Seq<char>, u16, Seq<char>);

impl NetConn {
    /// The connection as plain values.
    pub open spec fn model(&self) -> ConnModel {
        (
            self.proto@,
            self.local_addr@,
            self.local_port,
            self.remote_addr@,
            self.remote_port,
            self.state@,
        )
    }

    /// A copy of this connection.
    pub fn duplicate(&self) -> (r: NetConn)
        ensures
            r.model() == self.model(),
    {
        NetConn {
            proto: self.proto.clone(),
            local_addr: self.local_addr.clone(),
            local_port: self.local_port,
            remote_addr: self.remote_addr.clone(),
            remote_port: self.remote_port,
            state: self.state.clone(),
        }
    }
}

/// The models of a sequence of connections.
pub open spec fn conns_model(v: Seq<NetConn>) -> Seq<ConnModel> {
    v.map_values(|c: NetConn| c.model())
}

/// A copy of a list of connections.
pub fn copy_conns(v: &Vec<NetConn>) -> (r: Vec<NetConn>)
    ensures
        conns_model(r@) == conns_model(v@),
{
    let mut r: Vec<NetConn> = Vec::new();
    let mut i: usize = 0;
    while i < v.len()
        invariant
            i <= v.len(),
            conns_model(r@) == conns_model(v@.take(i as int)),
        decreases v.len() - i,
    {
        let ghost before = r@;
        let d = v[i].duplicate();
        r.push(d);
        assert(r@ == before.push(d));
        assert(v@.take(i + 1) =~= v@.take(i as int).push(v@[i as int]));
        assert(conns_model(r@) =~= conns_model(before).push(d.model()));
        assert(conns_model(v@.take(i + 1)) =~= conns_model(v@.take(i as int)).push(v@[i as int].model()));
        i = i + 1;
    }
    assert(v@.take(v.len() as int) =~= v@);
    r
}

/// A port in text form: its value, or 0 when the text is not a port number.
pub open spec fn port_or_zero(t: Seq<char>) -> u16 {
    match parse_unsigned(t, 65535) {
        Ok(n) => n as u16,
        Err(_) => 0,
    }
}

/// An address as `lsof` prints it (`127.0.0.1:8080`, `[::1]:3000`,
/// `*:*`), split at its last colon into host and port.
pub open spec fn host_port(s: Seq<char>) -> (Seq<char>, u16) {
    if s.len() == 0 {
        (Seq::empty(), 0)
    } else {
        match rfind(s, ':') {
            Some(i) => (s.take(i), port_or_zero(s.skip(i + 1))),
            None => (s, 0),
        }
    }
}

proof fn lemma_rfind_past(x: Seq<char>, d: Seq<char>, c: char)
    requires
        forall|k: int| 0 <= k < d.len() ==> d[k] != c,
    ensures
        rfind(x + d, c) == rfind(x, c),
    decreases d.len(),
{
    if d.len() == 0 {
        assert(x + d =~= x);
    } else {
        assert((x + d).drop_last() =~= x + d.drop_last());
        assert((x + d).last() == d.last());
        lemma_rfind_past(x, d.drop_last(), c);
    }
}

/// An address written as a host, a colon and a port splits back into that
/// host and port, whatever colons the host holds.
pub proof fn law_host_port_round_trip(a: Seq<char>, p: u16)
    ensures
        host_port(a + seq![':'] + decimal(p as nat)) == (a, p),
{
    let d = decimal(p as nat);
    let x = a + seq![':'];
    let s = x + d;
    crate::port_args::lemma_decimal_digits(p as nat);
    lemma_rfind_past(x, d, ':');
    assert(x.last() == ':');
    assert(rfind(x, ':') == Some(a.len() as int));
    assert(s.take(a.len() as int) =~= a);
    assert(s.skip(a.len() as int + 1) =~= d);
    crate::port_args::law_parse_decimal_round_trip(p as nat, 65535);
}

fn port_or_zero_exec(t: &[char]) -> (r: u16)
    ensures
        r == port_or_zero(t@),
{
    match parse_unsigned_exec(t, 65535) {
        Ok(n) => n as u16,
        Err(_) => 0,
    }
}

/// Splits an address into host and port (port 0 when there is none).
pub fn parse_host_port(s: &[char]) -> (r: (Vec<char>, u16))
    ensures
        (r.0@, r.1) == host_port(s@),
{
    if s.len() == 0 {
        return (Vec::new(), 0);
    }
    match rfind_char(s, ':') {
        Some(idx) => {
            let addr = slice_chars(s, 0, idx);
            assert(addr@ =~= s@.take(idx as int));
            let rest = slice_chars(s, idx + 1, s.len());
            assert(rest@ =~= s@.skip(idx + 1));
            (addr, port_or_zero_exec(&rest))
        },
        None => (slice_chars(s, 0, s.len()), 0),
    }
}

/// The state column without its parentheses (empty when absent).
pub open spec fn state_of(parts: Seq<Seq<char>>) -> Seq<char> {
    if parts.len() > 9 {
        strip_trailing(strip_leading(parts[9], '('), ')')
    } else {
        Seq::empty()
    }
}

/// The local side of a `local->remote` name.
pub open spec fn local_side(name: Seq<char>) -> Seq<char> {
    match find_pattern(name, "->"@) {
        Some(i) => name.take(i),
        None => name,
    }
}

/// The remote side of a `local->remote` name (empty when there is none).
pub open spec fn remote_side(name: Seq<char>) -> Seq<char> {
    match find_pattern(name, "->"@) {
        Some(i) => name.skip(i + 2),
        None => Seq::empty(),
    }
}

/// The connection that one `lsof` line describes, with the process id:
/// the columns are COMMAND PID USER FD TYPE DEVICE SIZE/OFF NODE NAME and
/// an optional state; the protocol is NODE and the address NAME. Lines
/// with fewer than nine columns or a non-numeric PID give none.
pub open spec fn conn_of_line(line: Seq<char>) -> Option<(u32, ConnModel)> {
    let parts = words(line);
    if parts.len() < 9 {
        None
    } else {
        match parse_unsigned(parts[1], 4294967295) {
            Err(_) => None,
            Ok(pid) => {
                let (la, lp) = host_port(local_side(parts[8]));
                let (ra, rp) = host_port(remote_side(parts[8]));
                Some((pid as u32, (parts[7], la, lp, ra, rp, state_of(parts))))
            },
        }
    }
}

fn split_name(name: &[char]) -> (r: (Vec<char>, Vec<char>))
    ensures
        r.0@ == local_side(name@),
        r.1@ == remote_side(name@),
{
    let arrow = chars_of("->");
    proof {
        reveal_strlit("->");
    }
    assert(arrow@.len() == 2);
    match find_pattern_exec(name, &arrow) {
        Some(idx) => {
            assert(occurs_at(name@, arrow@, idx as int));
            assert(idx + arrow@.len() <= name@.len());
            assert(idx + 2 <= name.len());
            let l = slice_chars(name, 0, idx);
            assert(l@ =~= name@.take(idx as int));
            let r = slice_chars(name, idx + 2, name.len());
            assert(r@ =~= name@.skip(idx + 2));
            (l, r)
        },
        None => (slice_chars(name, 0, name.len()), Vec::new()),
    }
}

fn state_column(parts: &Vec<Vec<char>>) -> (r: Vec<char>)
    ensures
        r@ == state_of(views(parts@)),
{
    if parts.len() > 9 {
        assert(parts@[9]@ == views(parts@)[9]);
        let a = strip_leading_chars(&parts[9], '(');
        strip_trailing_chars(&a, ')')
    } else {
        Vec::new()
    }
}

/// Reads one `lsof` line.
pub fn parse_conn_line(line: &[char]) -> (r: Option<(u32, NetConn)>)
    ensures
        match r {
            Some((pid, c)) => conn_of_line(line@) == Some((pid, c.model())),
            None => conn_of_line(line@) is None,
        },
{
    let parts = split_words(line);
    let ghost ws = words(line@);
    assert(ws.len() == parts@.len());
    if parts.len() < 9 {
        return None;
    }
    assert(parts@[1]@ == ws[1]);
    let pid = match parse_unsigned_exec(&parts[1], 4294967295) {
        Ok(p) => p as u32,
        Err(_) => {
            return None;
        },
    };
    assert(parts@[8]@ == ws[8]);
    assert(parts@[7]@ == ws[7]);
    let state = state_column(&parts);
    let (local, remote) = split_name(&parts[8]);
    let (local_addr, local_port) = parse_host_port(&local);
    let (remote_addr, remote_port) = parse_host_port(&remote);
    let conn = NetConn {
        proto: string_of(&parts[7]),
        local_addr: string_of(&local_addr),
        local_port,
        remote_addr: string_of(&remote_addr),
        remote_port,
        state: string_of(&state),
    };
    Some((pid, conn))
}

/// A map from process id to its connections, in the order the processes
/// were first seen; each process occurs once.
pub struct NetMap {
    pub entries: Vec<(u32, Vec<NetConn>)>,
}

/// A process id and its connections as plain values.
pub type NetEntryModel = (u32, Seq<ConnModel>);

/// Index of the entry for `pid` at or after `i`, or the number of entries.
pub open spec fn pid_index_from(es: Seq<NetEntryModel>, pid: u32, i: int) -> int
    decreases es.len() - i,
{
    if i < 0 || i >= es.len() {
        es.len() as int
    } else if es[i].0 == pid {
        i
    } else {
        pid_index_from(es, pid, i + 1)
    }
}

pub proof fn lemma_pid_index_from(es: Seq<NetEntryModel>, pid: u32, i: int)
    requires
        0 <= i <= es.len(),
    ensures
        i <= pid_index_from(es, pid, i) <= es.len(),
        forall|j: int| i <= j < pid_index_from(es, pid, i) ==> #[trigger] es[j].0 != pid,
        pid_index_from(es, pid, i) < es.len() ==> es[pid_index_from(es, pid, i)].0 == pid,
    decreases es.len() - i,
{
    if i < es.len() && es[i].0 != pid {
        lemma_pid_index_from(es, pid, i + 1);
    }
}

/// The connections of `pid` (none when it has no entry).
pub open spec fn conns_of(es: Seq<NetEntryModel>, pid: u32) -> Seq<ConnModel> {
    let i = pid_index_from(es, pid, 0);
    if i < es.len() {
        es[i].1
    } else {
        Seq::empty()
    }
}

/// `es` with connection `c` added to the connections of `pid`.
pub open spec fn net_add(es: Seq<NetEntryModel>, pid: u32, c: ConnModel) -> Seq<NetEntryModel> {
    let i = pid_index_from(es, pid, 0);
    if i < es.len() {
        es.update(i, (pid, es[i].1.push(c)))
    } else {
        es.push((pid, seq![c]))
    }
}

/// Whether no process id occurs twice.
pub open spec fn distinct_net_pids(es: Seq<NetEntryModel>) -> bool {
    forall|i: int, j: int| 0 <= i < j < es.len() ==> es[i].0 != es[j].0
}

/// Adding a connection keeps process ids distinct.
pub proof fn law_add_keeps_pids_distinct(es: Seq<NetEntryModel>, pid: u32, c: ConnModel)
    requires
        distinct_net_pids(es),
    ensures
        distinct_net_pids(net_add(es, pid, c)),
{
    lemma_pid_index_from(es, pid, 0);
}

/// The connections of lines `i..` added to `es`.
pub open spec fn net_from_lines(lines: Seq<Seq<char>>, i: int, es: Seq<NetEntryModel>) -> Seq<
    NetEntryModel,
>
    decreases lines.len() - i,
{
    if i < 0 || i >= lines.len() {
        es
    } else {
        match conn_of_line(lines[i]) {
            Some((pid, c)) => net_from_lines(lines, i + 1, net_add(es, pid, c)),
            None => net_from_lines(lines, i + 1, es),
        }
    }
}

/// The connections in `lsof` output, by process (the header line is
/// skipped).
pub open spec fn net_of_output(text: Seq<char>) -> Seq<NetEntryModel> {
    net_from_lines(lines_of(text), 1, Seq::empty())
}

/// The model of a map entry.
pub open spec fn net_entry_model(e: (u32, Vec<NetConn>)) -> NetEntryModel {
    (e.0, conns_model(e.1@))
}

impl NetMap {
    /// The entries as plain values.
    pub open spec fn model(&self) -> Seq<NetEntryModel> {
        self.entries@.map_values(|e: (u32, Vec<NetConn>)| net_entry_model(e))
    }

    /// An empty map.
    pub fn new() -> (m: NetMap)
        ensures
            m.model() == Seq::<NetEntryModel>::empty(),
            distinct_net_pids(m.model()),
    {
        let m = NetMap { entries: Vec::new() };
        assert(m.model() =~= Seq::<NetEntryModel>::empty());
        m
    }

    fn position(&self, pid: u32) -> (r: usize)
        ensures
            r == pid_index_from(self.model(), pid, 0),
    {
        proof {
            lemma_pid_index_from(self.model(), pid, 0);
        }
        let mut i: usize = 0;
        while i < self.entries.len()
            invariant
                i <= self.entries.len(),
                pid_index_from(self.model(), pid, i as int) == pid_index_from(self.model(), pid, 0),
            decreases self.entries.len() - i,
        {
            if self.entries[i].0 == pid {
                return i;
            }
            i = i + 1;
        }
        i
    }

    /// Adds a connection to the connections of `pid`.
    pub fn add(&mut self, pid: u32, c: NetConn)
        ensures
            final(self).model() == net_add(old(self).model(), pid, c.model()),
            distinct_net_pids(old(self).model()) ==> distinct_net_pids(final(self).model()),
    {
        proof {
            if distinct_net_pids(self.model()) {
                law_add_keeps_pids_distinct(self.model(), pid, c.model());
            }
        }
        let i = self.position(pid);
        let ghost cm = c.model();
        if i < self.entries.len() {
            let mut conns = copy_conns(&self.entries[i].1);
            let ghost before = conns_model(conns@);
            conns.push(c);
            assert(conns_model(conns@) =~= before.push(cm));
            self.entries.set(i, (pid, conns));
            assert(self.model() =~= old(self).model().update(
                i as int,
                (pid, old(self).model()[i as int].1.push(cm)),
            ));
        } else {
            let mut conns: Vec<NetConn> = Vec::new();
            conns.push(c);
            assert(conns_model(conns@) =~= seq![cm]);
            self.entries.push((pid, conns));
            assert(self.model() =~= old(self).model().push((pid, seq![cm])));
        }
    }

    /// A copy of the connections of `pid` (empty when it has none).
    pub fn conns(&self, pid: u32) -> (r: Vec<NetConn>)
        ensures
            conns_model(r@) == conns_of(self.model(), pid),
    {
        let i = self.position(pid);
        if i < self.entries.len() {
            copy_conns(&self.entries[i].1)
        } else {
            let r: Vec<NetConn> = Vec::new();
            assert(conns_model(r@) =~= Seq::<ConnModel>::empty());
            r
        }
    }
}

/// Reads the output of `lsof -i -P -n` into the connections of each
/// process.
pub fn collect_network(output: &str) -> (r: NetMap)
    ensures
        r.model() == net_of_output(output@),
        distinct_net_pids(r.model()),
{
    let text = chars_of(output);
    let lines = split_lines(&text);
    let ghost ls = views(lines@);
    let mut map = NetMap::new();
    let mut i: usize = 1;
    while i < lines.len()
        invariant
            1 <= i,
            i <= lines.len() || lines.len() == 0,
            ls == views(lines@),
            ls == lines_of(output@),
            net_from_lines(ls, i as int, map.model()) == net_of_output(output@),
            distinct_net_pids(map.model()),
        decreases lines.len() - i,
    {
        assert(lines@[i as int]@ == ls[i as int]);
        match parse_conn_line(&lines[i]) {
            Some((pid, conn)) => map.add(pid, conn),
            None => {},
        }
        i = i + 1;
    }
    map
}

} // verus!
